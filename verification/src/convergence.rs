//! Deltas of one scope and one formatting: their walks never fail where the
//! lengths fit, and what they build is canonical.

use crate::error::OTError;
use crate::laws::canonical;
use crate::model;
use crate::operation::OpModel;
use crate::scope::OperationScope;
use crate::traits::{Attributes, Data};
use crate::walk;
use vstd::prelude::*;

verus! {

/// Every operation lies in scope `s`.
pub open spec fn all_in<D: Data, T: Attributes>(ops: Seq<OpModel<D, T>>, s: OperationScope) -> bool {
    forall|i: int| 0 <= i < ops.len() ==> (#[trigger] ops[i]).scope() == s
}

/// What is left of a delta of one scope, once units of its first operation
/// are consumed, lies in that scope.
pub proof fn lemma_all_in_advance<D: Data, T: Attributes>(
    ops: Seq<OpModel<D, T>>,
    m: nat,
    s: OperationScope,
)
    requires
        all_in(ops, s),
        ops.len() > 0,
    ensures
        all_in(walk::advance(ops, m), s),
        all_in(ops.drop_first(), s),
{
    let next = walk::advance(ops, m);
    assert(ops[0].scope() == s);
    assert forall|i: int| 0 <= i < next.len() implies (#[trigger] next[i]).scope() == s by {
        if m < ops[0].len() {
            if i > 0 {
                assert(next[i] == ops[i]);
            }
        } else {
            assert(next[i] == ops[i + 1]);
        }
    }
    assert forall|i: int| 0 <= i < ops.drop_first().len() implies (
    #[trigger] ops.drop_first()[i]).scope() == s by {
        assert(ops.drop_first()[i] == ops[i + 1]);
    }
}

/// Appending an operation of scope `s` to a delta of that scope gives a
/// delta of that scope.
pub proof fn lemma_all_in_add<D: Data, T: Attributes>(
    ops: Seq<OpModel<D, T>>,
    op: OpModel<D, T>,
    s: OperationScope,
)
    requires
        all_in(ops, s),
        op.scope() == s,
    ensures
        all_in(model::add_op(ops, op), s),
{
    let r = model::add_op(ops, op);
    let n = ops.len() as int;
    assert forall|i: int| 0 <= i < r.len() implies (#[trigger] r[i]).scope() == s by {
        if i < n {
            assert(ops[i].scope() == s);
        }
        if 0 < i <= n {
            assert(ops[i - 1].scope() == s);
        }
    }
}

/// Every operation lies in scope `s`, and every retain and insert carries
/// the formatting `e`.
pub open spec fn plain<D: Data, T: Attributes>(
    ops: Seq<OpModel<D, T>>,
    s: OperationScope,
    e: T::Model,
) -> bool {
    forall|i: int|
        0 <= i < ops.len() ==> (#[trigger] ops[i]).scope() == s && (ops[i] is Delete
            || ops[i].attrs() == e)
}

/// No operation is empty.
pub open spec fn nonzero<D: Data, T: Attributes>(ops: Seq<OpModel<D, T>>) -> bool {
    forall|i: int| 0 <= i < ops.len() ==> (#[trigger] ops[i]).len() > 0
}

/// Whether `op` may stand in a plain delta of scope `s` and formatting `e`.
pub open spec fn plain_op<D: Data, T: Attributes>(
    op: OpModel<D, T>,
    s: OperationScope,
    e: T::Model,
) -> bool {
    op.scope() == s && (op is Delete || op.attrs() == e)
}

pub proof fn lemma_plain_all_in<D: Data, T: Attributes>(
    ops: Seq<OpModel<D, T>>,
    s: OperationScope,
    e: T::Model,
)
    requires
        plain(ops, s, e),
    ensures
        all_in(ops, s),
{
    assert forall|i: int| 0 <= i < ops.len() implies (#[trigger] ops[i]).scope() == s by {}
}

/// A delta of one scope has no length in any other scope.
pub proof fn lemma_lens_elsewhere<D: Data, T: Attributes>(
    ops: Seq<OpModel<D, T>>,
    s: OperationScope,
    other: OperationScope,
)
    requires
        all_in(ops, s),
        other != s,
    ensures
        model::base_len(ops, other) == 0,
        model::target_len(ops, other) == 0,
    decreases ops.len(),
{
    if ops.len() > 0 {
        let dl = ops.drop_last();
        assert(ops.last().scope() == s);
        assert forall|i: int| 0 <= i < dl.len() implies (#[trigger] dl[i]).scope() == s by {
            assert(dl[i] == ops[i]);
        }
        lemma_lens_elsewhere(dl, s, other);
    }
}

/// What is left of a plain delta without empty operations, once units of
/// its first operation are consumed, is plain and without empty operations.
pub proof fn lemma_plain_advance<D: Data, T: Attributes>(
    ops: Seq<OpModel<D, T>>,
    m: nat,
    s: OperationScope,
    e: T::Model,
)
    requires
        plain(ops, s, e),
        nonzero(ops),
        ops.len() > 0,
        m <= ops[0].len(),
    ensures
        plain(walk::advance(ops, m), s, e),
        nonzero(walk::advance(ops, m)),
        plain(ops.drop_first(), s, e),
        nonzero(ops.drop_first()),
{
    let next = walk::advance(ops, m);
    let df = ops.drop_first();
    assert(plain_op(ops[0], s, e));
    assert(ops[0].len() > 0);
    assert forall|i: int| 0 <= i < next.len() implies plain_op(#[trigger] next[i], s, e)
        && next[i].len() > 0 by {
        if m < ops[0].len() {
            if i > 0 {
                assert(next[i] == ops[i]);
            }
        } else {
            assert(next[i] == ops[i + 1]);
        }
    }
    assert forall|i: int| 0 <= i < df.len() implies plain_op(#[trigger] df[i], s, e) && df[i].len()
        > 0 by {
        assert(df[i] == ops[i + 1]);
    }
}

/// Appending an operation of scope `s` to a canonical delta of that scope
/// gives a canonical delta.
pub proof fn lemma_canonical_add_in_scope<D: Data, T: Attributes>(
    acc: Seq<OpModel<D, T>>,
    op: OpModel<D, T>,
    s: OperationScope,
)
    requires
        canonical(acc),
        all_in(acc, s),
        op.scope() == s,
    ensures
        canonical(model::add_op(acc, op)),
{
    let r = model::add_op(acc, op);
    let n = acc.len() as int;
    model::lemma_add_op_normalized(acc, op);
    assert forall|i: int| 0 < i < r.len() implies !((#[trigger] r[i - 1]) is Delete
        && r[i] is Insert) by {
        if i < n {
            assert(!(acc[i - 1] is Delete && acc[i] is Insert));
        }
        if 1 < i <= n {
            let j = i - 1;
            assert(!(acc[j - 1]).same_run(acc[j]));
            assert(acc[j - 1].scope() == s);
            assert(acc[j].scope() == s);
        }
    }
}

/// Appending a plain operation to a canonical plain delta gives a canonical
/// plain delta.
pub proof fn lemma_canonical_add<D: Data, T: Attributes>(
    acc: Seq<OpModel<D, T>>,
    op: OpModel<D, T>,
    s: OperationScope,
    e: T::Model,
)
    requires
        canonical(acc),
        plain(acc, s, e),
        plain_op(op, s, e),
    ensures
        canonical(model::add_op(acc, op)),
        plain(model::add_op(acc, op), s, e),
{
    let r = model::add_op(acc, op);
    let n = acc.len() as int;
    lemma_plain_all_in(acc, s, e);
    lemma_canonical_add_in_scope(acc, op, s);
    assert forall|i: int| 0 <= i < r.len() implies plain_op(#[trigger] r[i], s, e) by {
        if i < n {
            assert(plain_op(acc[i], s, e));
        }
        if 0 < i <= n {
            assert(plain_op(acc[i - 1], s, e));
        }
    }
}

/// The formatting `e` composed onto itself gives itself.
pub open spec fn composes_to_itself<T: Attributes>(e: T::Model) -> bool {
    T::compose_model(e, e) == Ok::<T::Model, OTError>(e)
}

/// What a walk of `compose` over plain deltas needs, and keeps from step to
/// step.
pub open spec fn compose_ready<D: Data, T: Attributes>(
    a: Seq<OpModel<D, T>>,
    b: Seq<OpModel<D, T>>,
    acc: Seq<OpModel<D, T>>,
    s: OperationScope,
    e: T::Model,
) -> bool {
    &&& plain(a, s, e)
    &&& plain(b, s, e)
    &&& nonzero(a)
    &&& nonzero(b)
    &&& canonical(acc)
    &&& plain(acc, s, e)
    &&& model::target_len(a, s) == model::base_len(b, s)
}

proof fn lemma_compose_ready_step<D: Data, T: Attributes>(
    a: Seq<OpModel<D, T>>,
    b: Seq<OpModel<D, T>>,
    acc: Seq<OpModel<D, T>>,
    s: OperationScope,
    e: T::Model,
)
    requires
        compose_ready(a, b, acc, s, e),
        composes_to_itself::<T>(e),
    ensures
        match walk::compose_step(a, b, acc) {
            walk::Step::Fail(_) => false,
            walk::Step::Done => true,
            walk::Step::Next((a2, b2, acc2)) => compose_ready(a2, b2, acc2, s, e),
        },
{
    if a.len() > 0 {
        assert(plain_op(a[0], s, e));
        assert(a[0].len() > 0);
        walk::lemma_len_front(a, s);
    }
    if b.len() > 0 {
        assert(plain_op(b[0], s, e));
        assert(b[0].len() > 0);
        walk::lemma_len_front(b, s);
    }
    if a.len() > 0 && a[0] is Delete {
        lemma_plain_advance(a, a[0].len(), s, e);
        lemma_canonical_add(acc, a[0], s, e);
    } else if b.len() > 0 && b[0] is Insert {
        lemma_plain_advance(b, b[0].len(), s, e);
        lemma_canonical_add(acc, b[0], s, e);
    } else if a.len() > 0 && b.len() > 0 {
        let m = walk::min_len(a[0].len(), b[0].len());
        lemma_plain_advance(a, m, s, e);
        lemma_plain_advance(b, m, s, e);
        walk::lemma_advance_len(a, m, s);
        walk::lemma_advance_len(b, m, s);
        match walk::compose_pair(a[0], b[0]) {
            Ok(Some(op)) => {
                lemma_canonical_add(acc, op, s, e);
            },
            _ => {},
        }
    }
}

/// `compose` never fails on plain deltas without empty operations whose
/// lengths fit, and what it builds is canonical and plain, with the base
/// length of the first delta and the target length of the second.
pub proof fn lemma_compose_plain<D: Data, T: Attributes>(
    a: Seq<OpModel<D, T>>,
    b: Seq<OpModel<D, T>>,
    acc: Seq<OpModel<D, T>>,
    s: OperationScope,
    e: T::Model,
)
    requires
        compose_ready(a, b, acc, s, e),
        composes_to_itself::<T>(e),
    ensures
        walk::compose_walk(a, b, acc) is Ok,
        canonical(walk::compose_walk(a, b, acc)->Ok_0),
        plain(walk::compose_walk(a, b, acc)->Ok_0, s, e),
        model::base_len(walk::compose_walk(a, b, acc)->Ok_0, s) == model::base_len(acc, s)
            + model::base_len(a, s),
        model::target_len(walk::compose_walk(a, b, acc)->Ok_0, s) == model::target_len(acc, s)
            + model::target_len(b, s),
    decreases a.len() + b.len(),
{
    lemma_compose_ready_step(a, b, acc, s, e);
    match walk::compose_step(a, b, acc) {
        walk::Step::Next((a2, b2, acc2)) => {
            walk::lemma_compose_step_lens(a, b, acc, s);
            lemma_compose_plain(a2, b2, acc2, s, e);
        },
        walk::Step::Done => {
            assert(a =~= Seq::<OpModel<D, T>>::empty());
            assert(b =~= Seq::<OpModel<D, T>>::empty());
        },
        walk::Step::Fail(_) => {},
    }
}

/// Transforming the formatting `e` against itself gives `e` to use on both
/// sides.
pub open spec fn transforms_to_itself<T: Attributes>(e: T::Model) -> bool {
    T::transform_model(e, e) matches Ok(pair) && pair.0 == e
}

/// What a walk of `transform` over plain deltas needs, and keeps from step
/// to step.
pub open spec fn transform_ready<D: Data, T: Attributes>(
    a: Seq<OpModel<D, T>>,
    b: Seq<OpModel<D, T>>,
    xa: Seq<OpModel<D, T>>,
    xb: Seq<OpModel<D, T>>,
    s: OperationScope,
    e: T::Model,
) -> bool {
    &&& plain(a, s, e)
    &&& plain(b, s, e)
    &&& nonzero(a)
    &&& nonzero(b)
    &&& canonical(xa)
    &&& plain(xa, s, e)
    &&& canonical(xb)
    &&& plain(xb, s, e)
    &&& model::base_len(a, s) == model::base_len(b, s)
}

proof fn lemma_transform_ready_step<D: Data, T: Attributes>(
    a: Seq<OpModel<D, T>>,
    b: Seq<OpModel<D, T>>,
    xa: Seq<OpModel<D, T>>,
    xb: Seq<OpModel<D, T>>,
    s: OperationScope,
    e: T::Model,
)
    requires
        transform_ready(a, b, xa, xb, s, e),
        transforms_to_itself::<T>(e),
    ensures
        match walk::transform_step(a, b, xa, xb) {
            walk::Step::Fail(_) => false,
            walk::Step::Done => true,
            walk::Step::Next((a2, b2, xa2, xb2)) => transform_ready(a2, b2, xa2, xb2, s, e),
        },
{
    if a.len() > 0 {
        assert(plain_op(a[0], s, e));
        assert(a[0].len() > 0);
        walk::lemma_len_front(a, s);
    }
    if b.len() > 0 {
        assert(plain_op(b[0], s, e));
        assert(b[0].len() > 0);
        walk::lemma_len_front(b, s);
    }
    if a.len() > 0 && a[0] is Insert {
        lemma_plain_advance(a, a[0].len(), s, e);
        lemma_canonical_add(xa, a[0], s, e);
        lemma_canonical_add(xb, walk::retain_over(a[0]), s, e);
    } else if b.len() > 0 && b[0] is Insert {
        lemma_plain_advance(b, b[0].len(), s, e);
        lemma_canonical_add(xb, b[0], s, e);
        lemma_canonical_add(xa, walk::retain_over(b[0]), s, e);
    } else if a.len() > 0 && b.len() > 0 {
        let m = walk::min_len(a[0].len(), b[0].len());
        lemma_plain_advance(a, m, s, e);
        lemma_plain_advance(b, m, s, e);
        walk::lemma_advance_len(a, m, s);
        walk::lemma_advance_len(b, m, s);
        match walk::transform_pair(a[0], b[0]) {
            Ok((out_a, out_b)) => {
                if let Some(op) = out_a {
                    lemma_canonical_add(xa, op, s, e);
                }
                if let Some(op) = out_b {
                    lemma_canonical_add(xb, op, s, e);
                }
            },
            _ => {},
        }
    }
}

/// `transform` never fails on plain deltas without empty operations that
/// consume the same, and the two deltas that it builds are canonical and
/// plain; each consumes what the other given delta produces.
pub proof fn lemma_transform_plain<D: Data, T: Attributes>(
    a: Seq<OpModel<D, T>>,
    b: Seq<OpModel<D, T>>,
    xa: Seq<OpModel<D, T>>,
    xb: Seq<OpModel<D, T>>,
    s: OperationScope,
    e: T::Model,
)
    requires
        transform_ready(a, b, xa, xb, s, e),
        transforms_to_itself::<T>(e),
    ensures
        walk::transform_walk(a, b, xa, xb) is Ok,
        ({
            let (ra, rb) = walk::transform_walk(a, b, xa, xb)->Ok_0;
            &&& canonical(ra)
            &&& plain(ra, s, e)
            &&& canonical(rb)
            &&& plain(rb, s, e)
            &&& model::base_len(ra, s) == model::base_len(xa, s) + model::target_len(b, s)
            &&& model::base_len(rb, s) == model::base_len(xb, s) + model::target_len(a, s)
        }),
    decreases a.len() + b.len(),
{
    lemma_transform_ready_step(a, b, xa, xb, s, e);
    match walk::transform_step(a, b, xa, xb) {
        walk::Step::Next((a2, b2, xa2, xb2)) => {
            walk::lemma_transform_step_lens(a, b, xa, xb, s);
            lemma_transform_plain(a2, b2, xa2, xb2, s, e);
        },
        walk::Step::Done => {
            assert(a =~= Seq::<OpModel<D, T>>::empty());
            assert(b =~= Seq::<OpModel<D, T>>::empty());
        },
        walk::Step::Fail(_) => {},
    }
}

/// Undoing the formatting `e` against itself gives `e`.
pub open spec fn inverts_to_itself<T: Attributes>(e: T::Model) -> bool {
    T::invert_model(e, e) == e
}

/// What a walk of `invert` over plain deltas needs, and keeps from step to
/// step: the change and the delta that it was composed into have yet to
/// produce the same.
pub open spec fn invert_ready<D: Data, T: Attributes>(
    a: Seq<OpModel<D, T>>,
    o: Seq<OpModel<D, T>>,
    acc: Seq<OpModel<D, T>>,
    s: OperationScope,
    e: T::Model,
) -> bool {
    &&& plain(a, s, e)
    &&& plain(o, s, e)
    &&& nonzero(a)
    &&& nonzero(o)
    &&& canonical(acc)
    &&& plain(acc, s, e)
    &&& model::target_len(a, s) == model::target_len(o, s)
}

/// A step of `invert` over plain deltas keeps them so, and never finds the
/// second delta at its end while the change has units left to undo.
pub proof fn lemma_invert_ready_step<D: Data, T: Attributes>(
    a: Seq<OpModel<D, T>>,
    o: Seq<OpModel<D, T>>,
    acc: Seq<OpModel<D, T>>,
    s: OperationScope,
    e: T::Model,
)
    requires
        invert_ready(a, o, acc, s, e),
        inverts_to_itself::<T>(e),
    ensures
        match walk::invert_step(a, o, acc) {
            walk::Step::Fail(_) => false,
            walk::Step::Done => a.len() == 0,
            walk::Step::Next((a2, o2, acc2)) => invert_ready(a2, o2, acc2, s, e) && (o.len() > 0
                || a[0] is Delete),
        },
{
    if a.len() > 0 {
        assert(plain_op(a[0], s, e));
        assert(a[0].len() > 0);
        walk::lemma_len_front(a, s);
    }
    if o.len() > 0 {
        assert(plain_op(o[0], s, e));
        assert(o[0].len() > 0);
        walk::lemma_len_front(o, s);
    }
    if o.len() > 0 && o[0] is Delete {
        lemma_plain_advance(o, o[0].len(), s, e);
    } else if a.len() == 0 {
    } else if a[0] is Delete {
        lemma_plain_advance(a, a[0].len(), s, e);
    } else if o.len() == 0 {
    } else {
        let m = walk::min_len(a[0].len(), o[0].len());
        lemma_plain_advance(a, m, s, e);
        lemma_plain_advance(o, m, s, e);
        walk::lemma_advance_len(a, m, s);
        walk::lemma_advance_len(o, m, s);
        lemma_canonical_add(acc, walk::invert_op(a[0], m, o[0].attrs())->Some_0, s, e);
    }
}

/// What `invert` builds from a plain change and a plain delta that produce
/// the same is canonical and plain, and consumes what the change produces.
pub proof fn lemma_invert_plain<D: Data, T: Attributes>(
    a: Seq<OpModel<D, T>>,
    o: Seq<OpModel<D, T>>,
    acc: Seq<OpModel<D, T>>,
    s: OperationScope,
    e: T::Model,
)
    requires
        invert_ready(a, o, acc, s, e),
        inverts_to_itself::<T>(e),
    ensures
        canonical(walk::invert_walk(a, o, acc)),
        plain(walk::invert_walk(a, o, acc), s, e),
        model::base_len(walk::invert_walk(a, o, acc), s) == model::base_len(acc, s)
            + model::target_len(a, s),
    decreases a.len() + o.len(),
{
    lemma_invert_ready_step(a, o, acc, s, e);
    match walk::invert_step(a, o, acc) {
        walk::Step::Next((a2, o2, acc2)) => {
            walk::lemma_invert_step_lens(a, o, acc, s);
            lemma_invert_plain(a2, o2, acc2, s, e);
        },
        walk::Step::Done => {
            assert(a =~= Seq::<OpModel<D, T>>::empty());
        },
        walk::Step::Fail(_) => {},
    }
}

} // verus!
