//! What a delta does to the document of a scope, unit by unit.

use crate::model;
use crate::operation::OpModel;
use crate::scope::OperationScope;
use crate::traits::{Attributes, Data};
use crate::walk;
use vstd::prelude::*;

verus! {

/// One unit of a document: a unit of the base document, known by its place
/// there, or a unit that a delta inserted.
pub ghost enum Item<U> {
    Old(int),
    New(U),
}

/// Inserted content as units of a document.
pub open spec fn news<U>(data: Seq<U>) -> Seq<Item<U>> {
    Seq::new(data.len(), |i: int| Item::New(data[i]))
}

/// The units of a base document from place `from` up to place `to`.
pub open spec fn olds<U>(from: int, to: int) -> Seq<Item<U>> {
    Seq::new((to - from) as nat, |i: int| Item::Old(from + i))
}

/// The first `n` units of a document; all of them where it has fewer.
pub open spec fn front<U>(doc: Seq<Item<U>>, n: nat) -> Seq<Item<U>> {
    if n <= doc.len() {
        doc.take(n as int)
    } else {
        doc
    }
}

/// The document behind its first `n` units; nothing where it has fewer.
pub open spec fn behind<U>(doc: Seq<Item<U>>, n: nat) -> Seq<Item<U>> {
    if n <= doc.len() {
        doc.skip(n as int)
    } else {
        Seq::empty()
    }
}

/// One operation at work on the document of scope `s`: from the units
/// given out so far and the units of the document not yet reached, to the
/// same after the operation. An operation of another scope changes nothing.
pub open spec fn step<D: Data, T: Attributes>(
    st: (Seq<Item<D::Unit>>, Seq<Item<D::Unit>>),
    op: OpModel<D, T>,
    s: OperationScope,
) -> (Seq<Item<D::Unit>>, Seq<Item<D::Unit>>) {
    if op.scope() != s {
        st
    } else {
        match op {
            OpModel::Delete(_, n) => (st.0, behind(st.1, n)),
            OpModel::Retain(_, n, _) => (st.0 + front(st.1, n), behind(st.1, n)),
            OpModel::Insert(_, data, _) => (st.0 + news(data), st.1),
        }
    }
}

/// The operations at work one after the other, from a state on.
pub open spec fn run_from<D: Data, T: Attributes>(
    st: (Seq<Item<D::Unit>>, Seq<Item<D::Unit>>),
    ops: Seq<OpModel<D, T>>,
    s: OperationScope,
) -> (Seq<Item<D::Unit>>, Seq<Item<D::Unit>>)
    decreases ops.len(),
{
    if ops.len() == 0 {
        st
    } else {
        step(run_from(st, ops.drop_last(), s), ops.last(), s)
    }
}

/// A delta applied to the document of scope `s`: the document that it
/// gives, and what it has not reached of the one it was given.
pub open spec fn apply<D: Data, T: Attributes>(
    ops: Seq<OpModel<D, T>>,
    doc: Seq<Item<D::Unit>>,
    s: OperationScope,
) -> (Seq<Item<D::Unit>>, Seq<Item<D::Unit>>) {
    run_from((Seq::empty(), doc), ops, s)
}

pub proof fn lemma_apply_push<D: Data, T: Attributes>(
    ops: Seq<OpModel<D, T>>,
    op: OpModel<D, T>,
    doc: Seq<Item<D::Unit>>,
    s: OperationScope,
)
    ensures
        apply(ops.push(op), doc, s) == step(apply(ops, doc, s), op, s),
{
    assert(ops.push(op).drop_last() =~= ops);
}

proof fn lemma_run_front<D: Data, T: Attributes>(
    st: (Seq<Item<D::Unit>>, Seq<Item<D::Unit>>),
    ops: Seq<OpModel<D, T>>,
    s: OperationScope,
)
    requires
        ops.len() > 0,
    ensures
        run_from(st, ops, s) == run_from(step(st, ops[0], s), ops.drop_first(), s),
    decreases ops.len(),
{
    if ops.len() == 1 {
        assert(ops.drop_last() =~= Seq::<OpModel<D, T>>::empty());
        assert(ops.drop_first() =~= Seq::<OpModel<D, T>>::empty());
        assert(run_from(st, ops.drop_last(), s) == st);
    } else {
        let dl = ops.drop_last();
        let df = ops.drop_first();
        lemma_run_front(st, dl, s);
        assert(df.drop_last() =~= dl.drop_first());
        assert(df.last() == ops.last());
        assert(dl[0] == ops[0]);
    }
}

proof fn lemma_run_out_prefix<D: Data, T: Attributes>(
    o: Seq<Item<D::Unit>>,
    r: Seq<Item<D::Unit>>,
    ops: Seq<OpModel<D, T>>,
    s: OperationScope,
)
    ensures
        run_from((o, r), ops, s).0 == o + run_from((Seq::empty(), r), ops, s).0,
        run_from((o, r), ops, s).1 == run_from((Seq::<Item<D::Unit>>::empty(), r), ops, s).1,
    decreases ops.len(),
{
    let e = Seq::<Item<D::Unit>>::empty();
    if ops.len() == 0 {
        assert(o + e =~= o);
    } else {
        lemma_run_out_prefix(o, r, ops.drop_last(), s);
        let b = run_from((e, r), ops.drop_last(), s);
        match ops.last() {
            OpModel::Delete(_, n) => {},
            OpModel::Retain(_, n, _) => {
                assert((o + b.0) + front(b.1, n) =~= o + (b.0 + front(b.1, n)));
            },
            OpModel::Insert(_, data, _) => {
                assert((o + b.0) + news(data) =~= o + (b.0 + news(data)));
            },
        }
    }
}

/// A delta applied is its first operation at work, and then the rest
/// applied to what that operation has not reached.
pub proof fn lemma_apply_front<D: Data, T: Attributes>(
    ops: Seq<OpModel<D, T>>,
    doc: Seq<Item<D::Unit>>,
    s: OperationScope,
)
    requires
        ops.len() > 0,
    ensures
        ({
            let st = step((Seq::empty(), doc), ops[0], s);
            let rest = apply(ops.drop_first(), st.1, s);
            apply(ops, doc, s) == (st.0 + rest.0, rest.1)
        }),
{
    let st = step((Seq::<Item<D::Unit>>::empty(), doc), ops[0], s);
    lemma_run_front((Seq::<Item<D::Unit>>::empty(), doc), ops, s);
    lemma_run_out_prefix(st.0, st.1, ops.drop_first(), s);
}

/// An operation at work in two parts does what it does whole.
pub proof fn lemma_step_split<D: Data, T: Attributes>(
    st: (Seq<Item<D::Unit>>, Seq<Item<D::Unit>>),
    op: OpModel<D, T>,
    m: nat,
    s: OperationScope,
)
    requires
        m <= op.len(),
    ensures
        step(step(st, op.first(m), s), op.rest(m), s) == step(st, op, s),
{
    let mid = step(st, op.first(m), s);
    let two = step(mid, op.rest(m), s);
    let one = step(st, op, s);
    match op {
        OpModel::Delete(_, n) => {
            assert(two.1 =~= one.1);
        },
        OpModel::Retain(_, n, _) => {
            assert(two.1 =~= one.1);
            assert(two.0 =~= one.0);
        },
        OpModel::Insert(_, data, _) => {
            assert(news(data.take(m as int)) + news(data.skip(m as int)) =~= news(data));
            assert(two.0 =~= one.0);
        },
    }
}

/// Appending an operation to a delta, whatever its normal form makes of it,
/// gives a delta that does what the delta did and then what the operation
/// does.
pub proof fn lemma_apply_add<D: Data, T: Attributes>(
    acc: Seq<OpModel<D, T>>,
    op: OpModel<D, T>,
    doc: Seq<Item<D::Unit>>,
    s: OperationScope,
)
    ensures
        apply(model::add_op(acc, op), doc, s) == step(apply(acc, doc, s), op, s),
{
    let n = acc.len() as int;
    let r = model::add_op(acc, op);
    let st = apply(acc, doc, s);
    if op.len() == 0 {
        assert(r == acc);
        assert(step(st, op, s).0 =~= st.0);
        assert(step(st, op, s).1 =~= st.1);
    } else if n == 0 {
        lemma_apply_push(acc, op, doc, s);
    } else {
        let head = acc.drop_last();
        let last = acc.last();
        let before = apply(head, doc, s);
        assert(acc =~= head.push(last));
        lemma_apply_push(head, last, doc, s);
        match op {
            OpModel::Delete(sc, k) => {
                if last is Delete && last.scope() == sc {
                    let joined = OpModel::<D, T>::Delete(sc, last.len() + k);
                    lemma_apply_push(head, joined, doc, s);
                    assert(joined.first(last.len()) == last);
                    assert(joined.rest(last.len()) == op);
                    lemma_step_split(before, joined, last.len(), s);
                } else {
                    lemma_apply_push(acc, op, doc, s);
                }
            },
            OpModel::Retain(sc, k, attrs) => {
                if last is Retain && last.scope() == sc {
                    let joined = OpModel::<D, T>::Retain(sc, last.len() + k, last.attrs());
                    lemma_apply_push(head, joined, doc, s);
                    assert(joined.first(last.len()) == last);
                    lemma_step_split(before, joined, last.len(), s);
                    assert(step(st, joined.rest(last.len()), s) == step(st, op, s));
                } else {
                    lemma_apply_push(acc, op, doc, s);
                }
            },
            OpModel::Insert(sc, data, attrs) => {
                if last is Insert && last.scope() == sc {
                    let joined = OpModel::<D, T>::Insert(sc, last.data() + data, last.attrs());
                    assert(r =~= head.push(joined));
                    lemma_apply_push(head, joined, doc, s);
                    assert(news(last.data() + data) =~= news(last.data()) + news(data));
                    assert(step(before, joined, s).0 =~= step(st, op, s).0);
                } else if n >= 2 && last is Delete && acc[n - 2] is Insert && acc[n - 2].scope()
                    == sc {
                    let prev = acc[n - 2];
                    let joined = OpModel::<D, T>::Insert(sc, prev.data() + data, prev.attrs());
                    let head2 = head.drop_last();
                    let before2 = apply(head2, doc, s);
                    assert(head =~= head2.push(prev));
                    assert(r =~= head2.push(joined).push(last));
                    lemma_apply_push(head2, prev, doc, s);
                    lemma_apply_push(head2, joined, doc, s);
                    lemma_apply_push(head2.push(joined), last, doc, s);
                    assert(news(prev.data() + data) =~= news(prev.data()) + news(data));
                    assert(step(step(before2, joined, s), last, s).0 =~= step(st, op, s).0);
                } else if last is Delete {
                    lemma_apply_push(head, op, doc, s);
                    lemma_apply_push(head.push(op), last, doc, s);
                } else {
                    lemma_apply_push(acc, op, doc, s);
                }
            },
        }
    }
}

/// A delta applied is the first units of its first operation at work, and
/// then the delta behind those units applied to what they have not reached.
pub proof fn lemma_apply_advance<D: Data, T: Attributes>(
    ops: Seq<OpModel<D, T>>,
    m: nat,
    doc: Seq<Item<D::Unit>>,
    s: OperationScope,
)
    requires
        ops.len() > 0,
        m <= ops[0].len(),
    ensures
        ({
            let st = step((Seq::empty(), doc), ops[0].first(m), s);
            let rest = apply(walk::advance(ops, m), st.1, s);
            apply(ops, doc, s) == (st.0 + rest.0, rest.1)
        }),
{
    let e = Seq::<Item<D::Unit>>::empty();
    let st = step((e, doc), ops[0].first(m), s);
    let next = walk::advance(ops, m);
    lemma_apply_front(ops, doc, s);
    lemma_step_split((e, doc), ops[0], m, s);
    if m < ops[0].len() {
        assert(next[0] == ops[0].rest(m));
        assert(next.drop_first() =~= ops.drop_first());
        lemma_apply_front(next, st.1, s);
        let st2 = step((e, st.1), ops[0].rest(m), s);
        let whole = step((e, doc), ops[0], s);
        lemma_run_out_prefix(st.0, st.1, seq![ops[0].rest(m)], s);
        assert(seq![ops[0].rest(m)].drop_last() =~= Seq::<OpModel<D, T>>::empty());
        assert(whole.0 =~= st.0 + st2.0);
        assert(whole.1 == st2.1);
        let tail = apply(ops.drop_first(), whole.1, s);
        assert((st.0 + st2.0) + tail.0 =~= st.0 + (st2.0 + tail.0));
    } else {
        let zero = ops[0].rest(m);
        assert(step(st, zero, s).0 =~= st.0);
        assert(step(st, zero, s).1 =~= st.1);
    }
}

/// A delta applied to a document that is long enough for it gives as many
/// units as it produces in the scope and leaves all but those it consumes.
pub proof fn lemma_apply_len<D: Data, T: Attributes>(
    ops: Seq<OpModel<D, T>>,
    doc: Seq<Item<D::Unit>>,
    s: OperationScope,
)
    requires
        model::base_len(ops, s) <= doc.len(),
    ensures
        apply(ops, doc, s).0.len() == model::target_len(ops, s),
        apply(ops, doc, s).1.len() == doc.len() - model::base_len(ops, s),
    decreases ops.len(),
{
    if ops.len() > 0 {
        lemma_apply_len(ops.drop_last(), doc, s);
    }
}

/// Units behind those that a delta consumes stay behind, untouched.
pub proof fn lemma_apply_frame<D: Data, T: Attributes>(
    ops: Seq<OpModel<D, T>>,
    doc: Seq<Item<D::Unit>>,
    more: Seq<Item<D::Unit>>,
    s: OperationScope,
)
    requires
        model::base_len(ops, s) <= doc.len(),
    ensures
        apply(ops, doc + more, s) == (apply(ops, doc, s).0, apply(ops, doc, s).1 + more),
    decreases ops.len(),
{
    if ops.len() == 0 {
        assert(apply(ops, doc, s).1 + more =~= doc + more);
    } else {
        let dl = ops.drop_last();
        lemma_apply_frame(dl, doc, more, s);
        lemma_apply_len(dl, doc, s);
        let before = apply(dl, doc, s);
        let wide = apply(dl, doc + more, s);
        assert(wide == (before.0, before.1 + more));
        let n = ops.last().len();
        if ops.last().scope() == s && !(ops.last() is Insert) {
            assert(n <= before.1.len());
            assert(front(before.1 + more, n) =~= front(before.1, n));
            assert(behind(before.1 + more, n) =~= behind(before.1, n) + more);
        }
    }
}

/// What `b` gives when applied to what `a` gives, with the state that both
/// start from.
pub open spec fn then_apply<D: Data, T: Attributes>(
    st: (Seq<Item<D::Unit>>, Seq<Item<D::Unit>>),
    a: Seq<OpModel<D, T>>,
    b: Seq<OpModel<D, T>>,
    s: OperationScope,
) -> (Seq<Item<D::Unit>>, Seq<Item<D::Unit>>) {
    let mid = apply(a, st.1, s);
    (st.0 + apply(b, mid.0, s).0, mid.1)
}

/// The delta that `compose` builds does to the document of a scope what
/// the two deltas do one after the other: at every point of the walk, what
/// the result built so far does, followed by what is left of the two
/// deltas, is what the finished result does.
pub proof fn lemma_compose_sem<D: Data, T: Attributes>(
    a: Seq<OpModel<D, T>>,
    b: Seq<OpModel<D, T>>,
    acc: Seq<OpModel<D, T>>,
    doc: Seq<Item<D::Unit>>,
    s: OperationScope,
)
    requires
        model::base_len(a, s) <= apply(acc, doc, s).1.len(),
        walk::compose_walk(a, b, acc) is Ok,
    ensures
        apply(walk::compose_walk(a, b, acc)->Ok_0, doc, s) == then_apply(
            apply(acc, doc, s),
            a,
            b,
            s,
        ),
    decreases a.len() + b.len(),
{
    let e = Seq::<Item<D::Unit>>::empty();
    let st = apply(acc, doc, s);
    match walk::compose_step(a, b, acc) {
        walk::Step::Next((a2, b2, acc2)) => {
            let st2 = apply(acc2, doc, s);
            if a.len() > 0 && a[0] is Delete {
                lemma_apply_add(acc, a[0], doc, s);
                walk::lemma_len_front(a, s);
                lemma_compose_sem(a2, b2, acc2, doc, s);
                lemma_apply_front(a, st.1, s);
                let rest = apply(a2, st2.1, s);
                assert(e + rest.0 =~= rest.0);
            } else if b.len() > 0 && b[0] is Insert {
                lemma_apply_add(acc, b[0], doc, s);
                lemma_compose_sem(a2, b2, acc2, doc, s);
                let mid = apply(a, st.1, s);
                lemma_apply_front(b, mid.0, s);
                let sb = step((e, mid.0), b[0], s);
                let rest = apply(b2, mid.0, s);
                assert(st2.0 =~= st.0 + sb.0);
                assert((st.0 + sb.0) + rest.0 =~= st.0 + (sb.0 + rest.0));
            } else {
                let p = a[0];
                let q = b[0];
                let m = walk::min_len(p.len(), q.len());
                let out = walk::compose_pair(p, q)->Ok_0;
                walk::lemma_len_front(a, s);
                walk::lemma_advance_len(a, m, s);
                if let Some(op) = out {
                    lemma_apply_add(acc, op, doc, s);
                }
                lemma_apply_advance(a, m, st.1, s);
                let sa = step((e, st.1), p.first(m), s);
                let ra = apply(a2, sa.1, s);
                let mid = sa.0 + ra.0;
                assert(apply(a, st.1, s) == (mid, ra.1));
                assert(sa.0.len() == if p.scope() == s {
                    m
                } else {
                    0
                });
                assert(st2.1 == sa.1);
                lemma_compose_sem(a2, b2, acc2, doc, s);
                lemma_apply_advance(b, m, mid, s);
                let sb = step((e, mid), q.first(m), s);
                assert(sb.1 =~= ra.0);
                let rb = apply(b2, sb.1, s);
                if q is Retain && q.scope() == s {
                    assert(sb.0 =~= sa.0);
                    assert(st2.0 =~= st.0 + sa.0);
                    assert(st2.0 + rb.0 =~= st.0 + (sb.0 + rb.0));
                } else {
                    assert(sb.0 =~= e);
                    assert(st2.0 =~= st.0);
                    assert(st2.0 + rb.0 =~= st.0 + (sb.0 + rb.0));
                }
            }
        },
        walk::Step::Done => {
            assert(a =~= Seq::<OpModel<D, T>>::empty());
            assert(b =~= Seq::<OpModel<D, T>>::empty());
            assert(st.0 + e =~= st.0);
        },
        walk::Step::Fail(_) => {},
    }
}

/// What an operation given out, or none, adds to the document of scope `s`
/// that a delta gives once the operation is appended to it.
pub open spec fn yield_of<D: Data, T: Attributes>(
    out: Option<OpModel<D, T>>,
    taken: Seq<Item<D::Unit>>,
    s: OperationScope,
) -> Seq<Item<D::Unit>> {
    match out {
        Some(op) => step((Seq::empty(), taken), op, s).0,
        None => Seq::empty(),
    }
}

/// A delta that consumes a whole document, and then has an operation
/// appended that consumes the units `taken`, consumes the whole of the
/// document with these units behind it.
pub proof fn lemma_acc_takes<D: Data, T: Attributes>(
    x: Seq<OpModel<D, T>>,
    doc: Seq<Item<D::Unit>>,
    out: Option<OpModel<D, T>>,
    taken: Seq<Item<D::Unit>>,
    s: OperationScope,
)
    requires
        model::base_len(x, s) == doc.len(),
        match out {
            Some(op) => op.base_in(s) == taken.len(),
            None => taken.len() == 0,
        },
    ensures
        model::base_len(walk::emit(x, out), s) == (doc + taken).len(),
        apply(walk::emit(x, out), doc + taken, s).0 == apply(x, doc, s).0 + yield_of(
            out,
            taken,
            s,
        ),
{
    let e = Seq::<Item<D::Unit>>::empty();
    let wide = doc + taken;
    lemma_apply_len(x, doc, s);
    lemma_apply_frame(x, doc, taken, s);
    let st = apply(x, doc, s);
    assert(st.1 =~= e);
    assert(e + taken =~= taken);
    assert(apply(x, wide, s) == (st.0, taken));
    match out {
        Some(op) => {
            model::lemma_add_op_len(x, op, s);
            lemma_apply_add(x, op, wide, s);
            lemma_run_out_prefix(st.0, taken, seq![op], s);
            assert(seq![op].drop_last() =~= Seq::<OpModel<D, T>>::empty());
        },
        None => {
            assert(wide =~= doc);
            assert(st.0 + e =~= st.0);
        },
    }
}

/// What a delta gives is what its first operation gives over its first `m`
/// units, and then what the delta behind those units gives.
pub proof fn lemma_given_advance<D: Data, T: Attributes>(
    ops: Seq<OpModel<D, T>>,
    m: nat,
    before: Seq<Item<D::Unit>>,
    r: Seq<Item<D::Unit>>,
    s: OperationScope,
)
    requires
        ops.len() > 0,
        m <= ops[0].len(),
    ensures
        ({
            let st = step((Seq::empty(), r), ops[0].first(m), s);
            before + apply(ops, r, s).0 == (before + st.0) + apply(
                walk::advance(ops, m),
                st.1,
                s,
            ).0
        }),
{
    let st = step((Seq::<Item<D::Unit>>::empty(), r), ops[0].first(m), s);
    lemma_apply_advance(ops, m, r, s);
    let rest = apply(walk::advance(ops, m), st.1, s);
    assert(before + (st.0 + rest.0) =~= (before + st.0) + rest.0);
}

/// How many units of its first operation a step of `transform` walks over
/// in the first delta, and how many in the second: all of an insert that
/// passes, and none of the other delta then; else as many as the shorter
/// of the two first operations has.
pub open spec fn transform_reach<D: Data, T: Attributes>(
    a: Seq<OpModel<D, T>>,
    b: Seq<OpModel<D, T>>,
) -> (nat, nat) {
    if a.len() > 0 && a[0] is Insert {
        (a[0].len(), 0)
    } else if b.len() > 0 && b[0] is Insert {
        (0, b[0].len())
    } else {
        let m = walk::min_len(a[0].len(), b[0].len());
        (m, m)
    }
}

/// How the walk of `transform` moves, with a step, the two documents that
/// the deltas have given so far and the document that they have not
/// reached: each delta has given, besides, what its first operation gives
/// over the units walked over, which are reached then.
pub open spec fn transform_docs<D: Data, T: Attributes>(
    a: Seq<OpModel<D, T>>,
    b: Seq<OpModel<D, T>>,
    pa: Seq<Item<D::Unit>>,
    pb: Seq<Item<D::Unit>>,
    r: Seq<Item<D::Unit>>,
    s: OperationScope,
) -> (Seq<Item<D::Unit>>, Seq<Item<D::Unit>>, Seq<Item<D::Unit>>) {
    let (ma, mb) = transform_reach(a, b);
    let sa = if ma > 0 {
        step((Seq::empty(), r), a[0].first(ma), s)
    } else {
        (Seq::empty(), r)
    };
    let sb = if mb > 0 {
        step((Seq::empty(), r), b[0].first(mb), s)
    } else {
        (Seq::empty(), r)
    };
    (pa + sa.0, pb + sb.0, if ma > 0 {
        sa.1
    } else {
        sb.1
    })
}

/// What holds between the two results that `transform` has built so far
/// and the documents that the two deltas have given so far: each result
/// consumes the whole of what the other delta has given, and both give the
/// same document.
pub open spec fn reconciled<D: Data, T: Attributes>(
    xa: Seq<OpModel<D, T>>,
    xb: Seq<OpModel<D, T>>,
    pa: Seq<Item<D::Unit>>,
    pb: Seq<Item<D::Unit>>,
    s: OperationScope,
) -> bool {
    &&& model::base_len(xb, s) == pa.len()
    &&& model::base_len(xa, s) == pb.len()
    &&& apply(xb, pa, s).0 == apply(xa, pb, s).0
}

proof fn lemma_transform_sem_step<D: Data, T: Attributes>(
    a: Seq<OpModel<D, T>>,
    b: Seq<OpModel<D, T>>,
    xa: Seq<OpModel<D, T>>,
    xb: Seq<OpModel<D, T>>,
    pa: Seq<Item<D::Unit>>,
    pb: Seq<Item<D::Unit>>,
    r: Seq<Item<D::Unit>>,
    s: OperationScope,
)
    requires
        model::base_len(a, s) <= r.len(),
        model::base_len(b, s) <= r.len(),
        reconciled(xa, xb, pa, pb, s),
        walk::transform_step(a, b, xa, xb) is Next,
    ensures
        ({
            let (a2, b2, xa2, xb2) = walk::transform_step(a, b, xa, xb)->Next_0;
            let (pa2, pb2, r2) = transform_docs(a, b, pa, pb, r, s);
            &&& model::base_len(a2, s) <= r2.len()
            &&& model::base_len(b2, s) <= r2.len()
            &&& reconciled(xa2, xb2, pa2, pb2, s)
            &&& pa + apply(a, r, s).0 == pa2 + apply(a2, r2, s).0
            &&& pb + apply(b, r, s).0 == pb2 + apply(b2, r2, s).0
        }),
{
    let e = Seq::<Item<D::Unit>>::empty();
    let (a2, b2, xa2, xb2) = walk::transform_step(a, b, xa, xb)->Next_0;
    let (pa2, pb2, r2) = transform_docs(a, b, pa, pb, r, s);
    if a.len() > 0 && a[0] is Insert {
        let p = a[0];
        let sa = step((e, r), p.first(p.len()), s);
        assert(p.first(p.len()).data() =~= p.data());
        walk::lemma_len_front(a, s);
        lemma_acc_takes(xa, pb, Some(p), e, s);
        lemma_acc_takes(xb, pa, Some(walk::retain_over(p)), sa.0, s);
        assert(pb + e =~= pb);
        assert(e + e =~= e);
        assert(front(sa.0, sa.0.len()) =~= sa.0);
        assert(e + sa.0 =~= sa.0);
        lemma_given_advance(a, p.len(), pa, r, s);
    } else if b.len() > 0 && b[0] is Insert {
        let q = b[0];
        let sb = step((e, r), q.first(q.len()), s);
        assert(q.first(q.len()).data() =~= q.data());
        walk::lemma_len_front(b, s);
        lemma_acc_takes(xb, pa, Some(q), e, s);
        lemma_acc_takes(xa, pb, Some(walk::retain_over(q)), sb.0, s);
        assert(pa + e =~= pa);
        assert(e + e =~= e);
        assert(front(sb.0, sb.0.len()) =~= sb.0);
        assert(e + sb.0 =~= sb.0);
        lemma_given_advance(b, q.len(), pb, r, s);
    } else {
        let p = a[0];
        let q = b[0];
        let m = walk::min_len(p.len(), q.len());
        let (out_a, out_b) = walk::transform_pair(p, q)->Ok_0;
        walk::lemma_len_front(a, s);
        walk::lemma_len_front(b, s);
        walk::lemma_advance_len(a, m, s);
        walk::lemma_advance_len(b, m, s);
        let sa = step((e, r), p.first(m), s);
        let sb = step((e, r), q.first(m), s);
        if m == 0 {
            assert(sa.0 =~= e);
            assert(sb.0 =~= e);
            assert(sa.1 =~= r);
            assert(sb.1 =~= r);
        }
        assert(sa.1 == sb.1);
        lemma_acc_takes(xa, pb, out_a, sb.0, s);
        lemma_acc_takes(xb, pa, out_b, sa.0, s);
        lemma_given_advance(a, m, pa, r, s);
        lemma_given_advance(b, m, pb, r, s);
        assert(e + e =~= e);
        assert(front(sa.0, sa.0.len()) =~= sa.0);
        assert(front(sb.0, sb.0.len()) =~= sb.0);
        assert(e + sa.0 =~= sa.0);
        assert(e + sb.0 =~= sb.0);
    }
}

/// The two deltas that `transform` builds reconcile the two given: at every
/// point of the walk, where each result built so far takes what the other
/// delta has given to the same document, the finished results take what
/// the two deltas give in all to the same document.
pub proof fn lemma_transform_sem<D: Data, T: Attributes>(
    a: Seq<OpModel<D, T>>,
    b: Seq<OpModel<D, T>>,
    xa: Seq<OpModel<D, T>>,
    xb: Seq<OpModel<D, T>>,
    pa: Seq<Item<D::Unit>>,
    pb: Seq<Item<D::Unit>>,
    r: Seq<Item<D::Unit>>,
    s: OperationScope,
)
    requires
        model::base_len(a, s) <= r.len(),
        model::base_len(b, s) <= r.len(),
        reconciled(xa, xb, pa, pb, s),
        walk::transform_walk(a, b, xa, xb) is Ok,
    ensures
        ({
            let (ra, rb) = walk::transform_walk(a, b, xa, xb)->Ok_0;
            apply(rb, pa + apply(a, r, s).0, s).0 == apply(ra, pb + apply(b, r, s).0, s).0
        }),
    decreases a.len() + b.len(),
{
    let e = Seq::<Item<D::Unit>>::empty();
    match walk::transform_step(a, b, xa, xb) {
        walk::Step::Next((a2, b2, xa2, xb2)) => {
            let (pa2, pb2, r2) = transform_docs(a, b, pa, pb, r, s);
            lemma_transform_sem_step(a, b, xa, xb, pa, pb, r, s);
            lemma_transform_sem(a2, b2, xa2, xb2, pa2, pb2, r2, s);
        },
        walk::Step::Done => {
            assert(a =~= Seq::<OpModel<D, T>>::empty());
            assert(b =~= Seq::<OpModel<D, T>>::empty());
            assert(pa + e =~= pa);
            assert(pb + e =~= pb);
        },
        walk::Step::Fail(_) => {},
    }
}

/// No operation is a delete.
pub open spec fn delete_free<D: Data, T: Attributes>(ops: Seq<OpModel<D, T>>) -> bool {
    forall|i: int| 0 <= i < ops.len() ==> !((#[trigger] ops[i]) is Delete)
}

/// What the walk of `invert` needs of the documents: the result built so
/// far consumes the whole of `given`, which the change has given so far, and
/// gives back `base`, the units that the change was given for it.
pub open spec fn undone<D: Data, T: Attributes>(
    acc: Seq<OpModel<D, T>>,
    given: Seq<Item<D::Unit>>,
    base: Seq<Item<D::Unit>>,
    s: OperationScope,
) -> bool {
    &&& model::base_len(acc, s) == given.len()
    &&& apply(acc, given, s).0 == base
}

/// The delta that `invert` builds for a change that deletes nothing takes
/// what the change gives back to what the change was given.
pub proof fn lemma_invert_sem<D: Data, T: Attributes>(
    a: Seq<OpModel<D, T>>,
    o: Seq<OpModel<D, T>>,
    acc: Seq<OpModel<D, T>>,
    given: Seq<Item<D::Unit>>,
    base: Seq<Item<D::Unit>>,
    rest: Seq<Item<D::Unit>>,
    s: OperationScope,
)
    requires
        delete_free(a),
        model::base_len(a, s) == rest.len(),
        undone(acc, given, base, s),
    ensures
        apply(walk::invert_walk(a, o, acc), given + apply(a, rest, s).0, s).0 == base + rest,
    decreases a.len() + o.len(),
{
    let e = Seq::<Item<D::Unit>>::empty();
    match walk::invert_step(a, o, acc) {
        walk::Step::Next((a2, o2, acc2)) => {
            if o.len() > 0 && o[0] is Delete {
                lemma_invert_sem(a, o2, acc, given, base, rest, s);
            } else {
                let p = a[0];
                assert(!(p is Delete));
                let m = if o.len() == 0 {
                    p.len()
                } else {
                    walk::min_len(p.len(), o[0].len())
                };
                let against = if o.len() == 0 {
                    T::default_model()
                } else {
                    o[0].attrs()
                };
                let out = walk::invert_op(p, m, against);
                assert(a2 == walk::advance(a, m));
                assert(acc2 == walk::emit(acc, out));
                walk::lemma_len_front(a, s);
                walk::lemma_advance_len(a, m, s);
                assert(delete_free(a2)) by {
                    assert forall|i: int| 0 <= i < a2.len() implies !((#[trigger] a2[i])
                        is Delete) by {
                        if m < p.len() {
                            if i > 0 {
                                assert(a2[i] == a[i]);
                            }
                        } else {
                            assert(a2[i] == a[i + 1]);
                        }
                    }
                }
                let sa = step((e, rest), p.first(m), s);
                let base2 = base + yield_of(out, sa.0, s);
                lemma_acc_takes(acc, given, out, sa.0, s);
                lemma_given_advance(a, m, given, rest, s);
                assert(e + sa.0 =~= sa.0);
                assert(e + e =~= e);
                assert(front(sa.0, sa.0.len()) =~= sa.0);
                lemma_invert_sem(a2, o2, acc2, given + sa.0, base2, sa.1, s);
                assert(base2 + sa.1 =~= base + rest);
            }
        },
        _ => {
            assert(a =~= Seq::<OpModel<D, T>>::empty());
            assert(rest =~= e);
            assert(given + e =~= given);
            assert(base + rest =~= base);
        },
    }
}

} // verus!
