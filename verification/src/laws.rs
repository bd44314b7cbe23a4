//! What holds of every delta that the appending functions build, and of
//! `compose` and `transform`: identity, associativity, convergence.

use crate::convergence::{
    all_in, composes_to_itself, inverts_to_itself, lemma_all_in_add, lemma_all_in_advance,
    lemma_canonical_add_in_scope, lemma_compose_plain, lemma_invert_plain,
    lemma_lens_elsewhere, lemma_plain_all_in, lemma_transform_plain, nonzero, plain,
    transforms_to_itself,
};
use crate::error::OTError;
use crate::lengths::{lemma_compose_lengths, lemma_nonzero_advance};
use crate::model::{add_all, add_delete, add_insert, add_op, base_len, normalized, target_len};
use crate::operation::OpModel;
use crate::scope::OperationScope;
use crate::semantics::{
    apply, delete_free, lemma_apply_len, lemma_compose_sem,
    lemma_invert_sem, lemma_transform_sem, olds, Item,
};
use crate::traits::{Attributes, Data};
use crate::unique::lemma_unique;
use crate::walk::{
    advance, composable, compose_pair, compose_seq, compose_step, compose_walk, invert_seq,
    lemma_advance_len, lemma_len_front, min_len, same_base, transform_pair, transform_seq,
    transform_walk, Step,
};
use vstd::prelude::*;

verus! {

/// Whatever operations are appended to a delta in normal form, the empty
/// one for instance, and in whatever order, the delta built is in normal
/// form: it holds no empty operation and no two neighbours of the same kind
/// and scope.
pub proof fn lemma_built_is_normalized<D: Data, T: Attributes>(
    ops: Seq<OpModel<D, T>>,
    more: Seq<OpModel<D, T>>,
)
    requires
        normalized(ops),
    ensures
        normalized(add_all(ops, more)),
    decreases more.len(),
{
    if more.len() > 0 {
        crate::model::lemma_add_op_normalized(ops, more[0]);
        lemma_built_is_normalized(add_op(ops, more[0]), more.drop_first());
    }
}

/// An insert that follows a delete in the same scope is placed before that
/// delete: the delete still ends the delta, and the operation before it is
/// an insert of that scope whose content ends with what was inserted.
pub proof fn lemma_insert_goes_before_delete<D: Data, T: Attributes>(
    ops: Seq<OpModel<D, T>>,
    scope: OperationScope,
    n: nat,
    data: Seq<D::Unit>,
    attrs: T::Model,
)
    requires
        n > 0,
        data.len() > 0,
    ensures
        ({
            let deleted = add_delete(ops, scope, n);
            let r = add_insert(deleted, scope, data, attrs);
            let before = r[r.len() - 2];
            &&& r.len() >= 2
            &&& r.last() == deleted.last()
            &&& r.last() is Delete
            &&& r.last().scope() == scope
            &&& before is Insert
            &&& before.scope() == scope
            &&& before.data().len() >= data.len()
            &&& before.data().skip(before.data().len() - data.len()) == data
        }),
{
    let deleted = add_delete(ops, scope, n);
    let r = add_insert(deleted, scope, data, attrs);
    let before = r[r.len() - 2];
    assert(before.data().skip(before.data().len() - data.len()) =~= data);
}

/// A delta in normal form in which, besides, no insert directly follows a
/// delete. Appending its operations one by one to the empty delta gives the
/// delta itself.
pub open spec fn canonical<D: Data, T: Attributes>(ops: Seq<OpModel<D, T>>) -> bool {
    &&& normalized(ops)
    &&& forall|i: int|
        0 < i < ops.len() ==> !((#[trigger] ops[i - 1]) is Delete && ops[i] is Insert)
}

/// Whatever operations of one scope are appended to a canonical delta of
/// that scope, the empty one for instance, the delta built is canonical.
pub proof fn lemma_built_in_scope_is_canonical<D: Data, T: Attributes>(
    ops: Seq<OpModel<D, T>>,
    more: Seq<OpModel<D, T>>,
    s: OperationScope,
)
    requires
        canonical(ops),
        all_in(ops, s),
        all_in(more, s),
    ensures
        canonical(add_all(ops, more)),
        all_in(add_all(ops, more), s),
    decreases more.len(),
{
    if more.len() > 0 {
        assert(more[0].scope() == s);
        lemma_canonical_add_in_scope(ops, more[0], s);
        lemma_all_in_add(ops, more[0], s);
        lemma_all_in_advance(more, 0, s);
        lemma_built_in_scope_is_canonical(add_op(ops, more[0]), more.drop_first(), s);
    }
}

/// A delta of retains only, each with a formatting that changes no
/// formatting it is composed onto.
pub open spec fn is_identity<D: Data, T: Attributes>(r: Seq<OpModel<D, T>>) -> bool {
    forall|i: int|
        0 <= i < r.len() ==> (#[trigger] r[i]) is Retain && changes_nothing::<T>(r[i].attrs())
}

/// Whether composing `e` onto any formatting gives that formatting back.
pub open spec fn changes_nothing<T: Attributes>(e: T::Model) -> bool {
    forall|x: T::Model| #[trigger] T::compose_model(x, e) == Ok::<T::Model, OTError>(x)
}

/// Appending an operation in two parts gives what appending it whole gives.
pub proof fn lemma_add_split<D: Data, T: Attributes>(
    acc: Seq<OpModel<D, T>>,
    op: OpModel<D, T>,
    m: nat,
)
    requires
        m <= op.len(),
    ensures
        add_op(add_op(acc, op.first(m)), op.rest(m)) == add_op(acc, op),
{
    let n = acc.len() as int;
    let mid = add_op(acc, op.first(m));
    match op {
        OpModel::Insert(s, data, attrs) => {
            assert(data.take(m as int) + data.skip(m as int) =~= data);
            if m == 0 {
                assert(data.skip(0) =~= data);
            } else if m == data.len() {
                assert(data.take(m as int) =~= data);
            } else if n >= 1 && acc[n - 1] is Insert && acc[n - 1].scope() == s {
                assert((acc[n - 1].data() + data.take(m as int)) + data.skip(m as int)
                    =~= acc[n - 1].data() + data);
                assert(add_op(mid, op.rest(m)) =~= add_op(acc, op));
            } else if n >= 2 && acc[n - 1] is Delete && acc[n - 2] is Insert && acc[n - 2].scope()
                == s {
                assert((acc[n - 2].data() + data.take(m as int)) + data.skip(m as int)
                    =~= acc[n - 2].data() + data);
                assert(add_op(mid, op.rest(m)) =~= add_op(acc, op));
            } else if n >= 1 && acc[n - 1] is Delete {
                assert(add_op(mid, op.rest(m)) =~= add_op(acc, op));
            } else {
                assert(add_op(mid, op.rest(m)) =~= add_op(acc, op));
            }
        },
        _ => {
            assert(add_op(mid, op.rest(m)) =~= add_op(acc, op));
        },
    }
}

/// Appending the operations of a canonical delta one by one changes none
/// of them.
pub proof fn lemma_add_all_canonical<D: Data, T: Attributes>(
    acc: Seq<OpModel<D, T>>,
    more: Seq<OpModel<D, T>>,
)
    requires
        canonical(acc + more),
    ensures
        add_all(acc, more) == acc + more,
    decreases more.len(),
{
    let whole = acc + more;
    if more.len() == 0 {
        assert(acc + more =~= acc);
    } else {
        let n = acc.len() as int;
        assert(whole[n] == more[0]);
        assert(more[0].len() > 0);
        if n > 0 {
            assert(whole[n - 1] == acc[n - 1]);
            assert(!whole[n - 1].same_run(whole[n]));
        }
        assert(add_op(acc, more[0]) == acc.push(more[0]));
        assert(acc.push(more[0]) + more.drop_first() =~= whole);
        lemma_add_all_canonical(acc.push(more[0]), more.drop_first());
    }
}

/// The walk of `compose` along a delta that changes nothing appends to the
/// result what is left of the first delta, operation by operation.
proof fn lemma_walk_identity<D: Data, T: Attributes>(
    a: Seq<OpModel<D, T>>,
    r: Seq<OpModel<D, T>>,
    acc: Seq<OpModel<D, T>>,
)
    requires
        is_identity(r),
    ensures
        compose_walk(a, r, acc) matches Ok(c) ==> c == add_all(acc, a),
    decreases a.len() + r.len(),
{
    match compose_step(a, r, acc) {
        Step::Next((a2, r2, acc2)) => {
            if a.len() > 0 && a[0] is Delete {
                lemma_walk_identity(a2, r2, acc2);
            } else if r.len() > 0 && r[0] is Insert {
            } else {
                let m = min_len(a[0].len(), r[0].len());
                assert(is_identity(r2)) by {
                    assert forall|i: int| 0 <= i < r2.len() implies (#[trigger] r2[i]) is Retain
                        && changes_nothing::<T>(r2[i].attrs()) by {
                        if m < r[0].len() {
                            if i == 0 {
                                assert(r[0] is Retain);
                            } else {
                                assert(r2[i] == r[i]);
                            }
                        } else {
                            assert(r2[i] == r[i + 1]);
                        }
                    }
                }
                lemma_walk_identity(a2, r2, acc2);
                assert(r[0] is Retain && changes_nothing::<T>(r[0].attrs()));
                assert(T::compose_model(a[0].attrs(), r[0].attrs()) == Ok::<T::Model, OTError>(
                    a[0].attrs(),
                ));
                assert(compose_pair(a[0], r[0]) == Ok::<Option<OpModel<D, T>>, OTError>(
                    Some(a[0].first(m)),
                ));
                lemma_add_split(acc, a[0], m);
                if m < a[0].len() {
                    assert(a2[0] == a[0].rest(m));
                    assert(a2.drop_first() =~= a.drop_first());
                } else {
                    assert(a[0].rest(m).len() == 0);
                }
            }
        },
        _ => {},
    }
}

/// Composing a delta with one that changes nothing gives the delta back:
/// for every canonical delta `a` and every delta `r` of retains whose
/// formatting changes nothing, if `compose` has a result, it is `a`.
pub proof fn lemma_compose_identity<D: Data, T: Attributes>(
    a: Seq<OpModel<D, T>>,
    r: Seq<OpModel<D, T>>,
)
    requires
        canonical(a),
        is_identity(r),
        compose_seq(a, r) is Ok,
    ensures
        compose_seq(a, r) == Ok::<Seq<OpModel<D, T>>, OTError>(a),
{
    lemma_walk_identity(a, r, Seq::empty());
    assert(Seq::<OpModel<D, T>>::empty() + a =~= a);
    lemma_add_all_canonical(Seq::empty(), a);
}

/// The walk of `compose` along a delta that changes nothing does not fail
/// where both deltas lie in one scope and the lengths fit.
proof fn lemma_walk_identity_total<D: Data, T: Attributes>(
    a: Seq<OpModel<D, T>>,
    r: Seq<OpModel<D, T>>,
    acc: Seq<OpModel<D, T>>,
    s: OperationScope,
)
    requires
        all_in(a, s),
        all_in(r, s),
        nonzero(a),
        nonzero(r),
        is_identity(r),
        target_len(a, s) == base_len(r, s),
    ensures
        compose_walk(a, r, acc) is Ok,
    decreases a.len() + r.len(),
{
    if a.len() > 0 {
        assert(a[0].scope() == s);
        assert(a[0].len() > 0);
        lemma_len_front(a, s);
    }
    if r.len() > 0 {
        assert(r[0].scope() == s);
        assert(r[0].len() > 0);
        assert(r[0] is Retain && changes_nothing::<T>(r[0].attrs()));
        lemma_len_front(r, s);
    }
    match compose_step(a, r, acc) {
        Step::Next((a2, r2, acc2)) => {
            let m = if a[0] is Delete {
                a[0].len()
            } else {
                min_len(a[0].len(), r[0].len())
            };
            lemma_all_in_advance(a, m, s);
            lemma_advance_len(a, m, s);
            lemma_nonzero_advance(a, m);
            if !(a[0] is Delete) {
                lemma_all_in_advance(r, m, s);
                lemma_advance_len(r, m, s);
                assert forall|i: int| 0 <= i < r2.len() implies (#[trigger] r2[i]).len() > 0
                    && r2[i] is Retain && changes_nothing::<T>(r2[i].attrs()) by {
                    if m < r[0].len() {
                        if i > 0 {
                            assert(r2[i] == r[i]);
                        }
                    } else {
                        assert(r2[i] == r[i + 1]);
                    }
                }
            }
            lemma_walk_identity_total(a2, r2, acc2, s);
        },
        Step::Done => {},
        Step::Fail(_) => {
            if a.len() > 0 && r.len() > 0 {
                assert(T::compose_model(a[0].attrs(), r[0].attrs()) == Ok::<T::Model, OTError>(
                    a[0].attrs(),
                ));
            }
        },
    }
}

/// Composing a delta of one scope with retains of that scope that change
/// nothing and consume what the delta produces gives the delta back.
pub proof fn lemma_compose_identity_in_scope<D: Data, T: Attributes>(
    a: Seq<OpModel<D, T>>,
    r: Seq<OpModel<D, T>>,
    s: OperationScope,
)
    requires
        canonical(a),
        all_in(a, s),
        all_in(r, s),
        nonzero(r),
        is_identity(r),
        composable(a, r),
    ensures
        compose_seq(a, r) == Ok::<Seq<OpModel<D, T>>, OTError>(a),
{
    assert(target_len(a, s) == base_len(r, s));
    lemma_walk_identity_total(a, r, Seq::empty(), s);
    lemma_compose_identity(a, r);
}

/// Where a walk pairs two operations, the pairing itself never fails: a
/// walk pairs an operation of the first delta that is no delete, in
/// `compose`, or no insert, in `transform`, with one of the second that is
/// no insert. Such a pair fails only where the formatting does, and with
/// its error.
pub proof fn lemma_pairs_fail_with_formatting<D: Data, T: Attributes>(
    p: OpModel<D, T>,
    q: OpModel<D, T>,
)
    requires
        !(q is Insert),
    ensures
        !(p is Delete) ==> (compose_pair(p, q) matches Err(e) ==> T::compose_model(
            p.attrs(),
            q.attrs(),
        ) == Err::<T::Model, OTError>(e)),
        !(p is Insert) ==> (transform_pair(p, q) matches Err(e) ==> T::transform_model(
            p.attrs(),
            q.attrs(),
        ) == Err::<(T::Model, T::Model), OTError>(e)),
{
}

/// What `compose` builds does to the document of every scope what the two
/// deltas do one after the other: whatever the scopes and the formatting of
/// the deltas, for a document of scope `s` that holds the units that `a`
/// consumes there, the result of `compose` gives from the document what
/// `b` gives from what `a` gives.
pub proof fn lemma_compose_applies<D: Data, T: Attributes>(
    a: Seq<OpModel<D, T>>,
    b: Seq<OpModel<D, T>>,
    doc: Seq<Item<D::Unit>>,
    s: OperationScope,
)
    requires
        base_len(a, s) <= doc.len(),
        compose_seq(a, b) is Ok,
    ensures
        apply(compose_seq(a, b)->Ok_0, doc, s).0 == apply(b, apply(a, doc, s).0, s).0,
{
    let none = Seq::<Item<D::Unit>>::empty();
    lemma_compose_sem(a, b, Seq::empty(), doc, s);
    assert(none + apply(b, apply(a, doc, s).0, s).0 =~= apply(b, apply(a, doc, s).0, s).0);
}

/// What `transform` builds makes two deltas converge on the document of
/// every scope: whatever the scopes and the formatting of the deltas, for
/// a document of scope `s` that holds the units that they consume there,
/// the second result gives from what `a` gives what the first result gives
/// from what `b` gives.
pub proof fn lemma_transform_applies<D: Data, T: Attributes>(
    a: Seq<OpModel<D, T>>,
    b: Seq<OpModel<D, T>>,
    doc: Seq<Item<D::Unit>>,
    s: OperationScope,
)
    requires
        base_len(a, s) <= doc.len(),
        base_len(b, s) <= doc.len(),
        transform_seq(a, b) is Ok,
    ensures
        ({
            let (a2, b2) = transform_seq(a, b)->Ok_0;
            apply(b2, apply(a, doc, s).0, s).0 == apply(a2, apply(b, doc, s).0, s).0
        }),
{
    let em = Seq::<OpModel<D, T>>::empty();
    let none = Seq::<Item<D::Unit>>::empty();
    lemma_transform_sem(a, b, em, em, none, none, doc, s);
    assert(none + apply(a, doc, s).0 =~= apply(a, doc, s).0);
    assert(none + apply(b, doc, s).0 =~= apply(b, doc, s).0);
}

/// However three deltas are grouped to be composed, the result does the
/// same to the document of every scope: whatever the scopes and the
/// formatting, where the four compositions succeed, the two results give
/// the same from a document of scope `s` that holds the units that `a`
/// consumes there.
pub proof fn lemma_compose_associative_on_documents<D: Data, T: Attributes>(
    a: Seq<OpModel<D, T>>,
    b: Seq<OpModel<D, T>>,
    c: Seq<OpModel<D, T>>,
    doc: Seq<Item<D::Unit>>,
    s: OperationScope,
)
    requires
        base_len(a, s) <= doc.len(),
        compose_seq(a, b) is Ok,
        compose_seq(b, c) is Ok,
        compose_seq(compose_seq(a, b)->Ok_0, c) is Ok,
        compose_seq(a, compose_seq(b, c)->Ok_0) is Ok,
    ensures
        apply(compose_seq(compose_seq(a, b)->Ok_0, c)->Ok_0, doc, s).0 == apply(
            compose_seq(a, compose_seq(b, c)->Ok_0)->Ok_0,
            doc,
            s,
        ).0,
{
    let ab = compose_seq(a, b)->Ok_0;
    let bc = compose_seq(b, c)->Ok_0;
    let mid = apply(a, doc, s).0;
    assert(target_len(a, s) == base_len(b, s));
    lemma_apply_len(a, doc, s);
    lemma_compose_lengths(a, b, s);
    lemma_compose_applies(a, b, doc, s);
    lemma_compose_applies(ab, c, doc, s);
    lemma_compose_applies(b, c, mid, s);
    lemma_compose_applies(a, bc, doc, s);
}

/// Two deltas made against the same base converge on the document of every
/// scope: whatever the scopes and the formatting, where `transform` and the
/// two compositions succeed, the first delta composed with the second
/// result gives, from a document of scope `s` that holds the units that the
/// deltas consume there, what the second delta composed with the first
/// result gives.
pub proof fn lemma_transform_converges_on_documents<D: Data, T: Attributes>(
    a: Seq<OpModel<D, T>>,
    b: Seq<OpModel<D, T>>,
    doc: Seq<Item<D::Unit>>,
    s: OperationScope,
)
    requires
        base_len(a, s) <= doc.len(),
        base_len(b, s) <= doc.len(),
        transform_seq(a, b) is Ok,
        compose_seq(a, (transform_seq(a, b)->Ok_0).1) is Ok,
        compose_seq(b, (transform_seq(a, b)->Ok_0).0) is Ok,
    ensures
        apply(compose_seq(a, (transform_seq(a, b)->Ok_0).1)->Ok_0, doc, s).0 == apply(
            compose_seq(b, (transform_seq(a, b)->Ok_0).0)->Ok_0,
            doc,
            s,
        ).0,
{
    let (a2, b2) = transform_seq(a, b)->Ok_0;
    lemma_transform_applies(a, b, doc, s);
    lemma_compose_applies(a, b2, doc, s);
    lemma_compose_applies(b, a2, doc, s);
}

/// What `invert` builds for a change that deletes nothing undoes the
/// change on the document of every scope: whatever the scopes and the
/// formatting, and whatever the second delta, for a document of scope `s`
/// that holds just the units that the change consumes there, the result of
/// `invert` gives the document back from what the change gives.
pub proof fn lemma_invert_applies<D: Data, T: Attributes>(
    a: Seq<OpModel<D, T>>,
    o: Seq<OpModel<D, T>>,
    doc: Seq<Item<D::Unit>>,
    s: OperationScope,
)
    requires
        delete_free(a),
        base_len(a, s) == doc.len(),
    ensures
        apply(invert_seq(a, o), apply(a, doc, s).0, s).0 == doc,
{
    let none = Seq::<Item<D::Unit>>::empty();
    lemma_invert_sem(a, o, Seq::empty(), none, none, doc, s);
    assert(none + apply(a, doc, s).0 =~= apply(a, doc, s).0);
    assert(none + doc =~= doc);
}

/// Two plain deltas of scope `s` fit one after the other in every scope
/// where they do in `s`.
proof fn lemma_composable_in_scope<D: Data, T: Attributes>(
    a: Seq<OpModel<D, T>>,
    b: Seq<OpModel<D, T>>,
    s: OperationScope,
)
    requires
        all_in(a, s),
        all_in(b, s),
        target_len(a, s) == base_len(b, s),
    ensures
        composable(a, b),
{
    assert forall|x: OperationScope| #[trigger] target_len(a, x) == base_len(b, x) by {
        if x != s {
            lemma_lens_elsewhere(a, s, x);
            lemma_lens_elsewhere(b, s, x);
        }
    }
}

/// What `compose` builds from two plain deltas whose lengths fit: a
/// canonical plain delta that consumes what the first consumes, and gives,
/// from any document long enough, what the second gives from what the
/// first gives.
proof fn lemma_compose_does_both<D: Data, T: Attributes>(
    a: Seq<OpModel<D, T>>,
    b: Seq<OpModel<D, T>>,
    doc: Seq<Item<D::Unit>>,
    s: OperationScope,
    e: T::Model,
)
    requires
        plain(a, s, e),
        plain(b, s, e),
        nonzero(a),
        nonzero(b),
        composes_to_itself::<T>(e),
        target_len(a, s) == base_len(b, s),
        base_len(a, s) <= doc.len(),
    ensures
        compose_seq(a, b) is Ok,
        canonical(compose_seq(a, b)->Ok_0),
        plain(compose_seq(a, b)->Ok_0, s, e),
        nonzero(compose_seq(a, b)->Ok_0),
        base_len(compose_seq(a, b)->Ok_0, s) == base_len(a, s),
        target_len(compose_seq(a, b)->Ok_0, s) == target_len(b, s),
        apply(compose_seq(a, b)->Ok_0, doc, s).0 == apply(b, apply(a, doc, s).0, s).0,
{
    let em = Seq::<OpModel<D, T>>::empty();
    let none = Seq::<Item<D::Unit>>::empty();
    lemma_plain_all_in(a, s, e);
    lemma_plain_all_in(b, s, e);
    lemma_composable_in_scope(a, b, s);
    lemma_compose_plain(a, b, em, s, e);
    lemma_compose_sem(a, b, em, doc, s);
    assert(none + apply(b, apply(a, doc, s).0, s).0 =~= apply(b, apply(a, doc, s).0, s).0);
}

/// `compose` is associative on plain deltas: for deltas `a`, `b` and `c`
/// of one scope and one formatting that composes to itself, without empty
/// operations, where `a` produces what `b` consumes and `b` produces what
/// `c` consumes, composing `a` with `b` and the result with `c` gives what
/// composing `a` with the result of `b` and `c` gives; and none of the four
/// fails.
pub proof fn lemma_compose_associative<D: Data, T: Attributes>(
    a: Seq<OpModel<D, T>>,
    b: Seq<OpModel<D, T>>,
    c: Seq<OpModel<D, T>>,
    s: OperationScope,
    e: T::Model,
)
    requires
        plain(a, s, e),
        plain(b, s, e),
        plain(c, s, e),
        nonzero(a),
        nonzero(b),
        nonzero(c),
        composes_to_itself::<T>(e),
        composable(a, b),
        composable(b, c),
    ensures
        compose_seq(a, b) is Ok,
        compose_seq(b, c) is Ok,
        compose_seq(compose_seq(a, b)->Ok_0, c) is Ok,
        compose_seq(compose_seq(a, b)->Ok_0, c) == compose_seq(a, compose_seq(b, c)->Ok_0),
{
    let n = base_len(a, s);
    let doc = olds::<D::Unit>(0, n as int);
    let mid = apply(a, doc, s).0;
    assert(target_len(a, s) == base_len(b, s));
    assert(target_len(b, s) == base_len(c, s));
    lemma_plain_all_in(a, s, e);
    lemma_apply_len(a, doc, s);
    lemma_compose_does_both(a, b, doc, s, e);
    lemma_compose_does_both(b, c, mid, s, e);
    let ab = compose_seq(a, b)->Ok_0;
    let bc = compose_seq(b, c)->Ok_0;
    lemma_compose_does_both(ab, c, doc, s, e);
    lemma_compose_does_both(a, bc, doc, s, e);
    let left = compose_seq(ab, c)->Ok_0;
    let right = compose_seq(a, bc)->Ok_0;
    lemma_unique(left, right, 0, n as int, s, e);
}

/// `transform` makes two deltas converge: for plain deltas `a` and `b` of
/// one scope and one formatting that composes and transforms to itself,
/// without empty operations, that consume the same, `transform` gives a
/// pair, and `a` composed with the second of the pair is what `b` composed
/// with the first is; and neither fails.
pub proof fn lemma_transform_converges<D: Data, T: Attributes>(
    a: Seq<OpModel<D, T>>,
    b: Seq<OpModel<D, T>>,
    s: OperationScope,
    e: T::Model,
)
    requires
        plain(a, s, e),
        plain(b, s, e),
        nonzero(a),
        nonzero(b),
        composes_to_itself::<T>(e),
        transforms_to_itself::<T>(e),
        same_base(a, b),
    ensures
        transform_seq(a, b) is Ok,
        compose_seq(a, (transform_seq(a, b)->Ok_0).1) is Ok,
        compose_seq(a, (transform_seq(a, b)->Ok_0).1) == compose_seq(
            b,
            (transform_seq(a, b)->Ok_0).0,
        ),
{
    let em = Seq::<OpModel<D, T>>::empty();
    let none = Seq::<Item<D::Unit>>::empty();
    let n = base_len(a, s);
    let doc = olds::<D::Unit>(0, n as int);
    assert(base_len(a, s) == base_len(b, s));
    lemma_plain_all_in(a, s, e);
    lemma_plain_all_in(b, s, e);
    lemma_transform_plain(a, b, em, em, s, e);
    let (a2, b2) = transform_walk(a, b, em, em)->Ok_0;
    assert(transform_seq(a, b) == Ok::<(Seq<OpModel<D, T>>, Seq<OpModel<D, T>>), OTError>(
        (a2, b2),
    ));
    lemma_transform_sem(a, b, em, em, none, none, doc, s);
    assert(none + apply(a, doc, s).0 =~= apply(a, doc, s).0);
    assert(none + apply(b, doc, s).0 =~= apply(b, doc, s).0);
    lemma_compose_does_both(a, b2, doc, s, e);
    lemma_compose_does_both(b, a2, doc, s, e);
    let left = compose_seq(a, b2)->Ok_0;
    let right = compose_seq(b, a2)->Ok_0;
    lemma_unique(left, right, 0, n as int, s, e);
}

/// `invert` undoes a change that deletes nothing: for a canonical plain
/// delta `a` and a plain change `b` without deletes and without empty
/// operations, of one scope and one formatting that composes to itself and
/// is undone to itself, where `a` produces what `b` consumes: the delta
/// that `a` and `b` compose to, composed with what undoes `b` along it, is
/// `a`.
pub proof fn lemma_invert_undoes<D: Data, T: Attributes>(
    a: Seq<OpModel<D, T>>,
    b: Seq<OpModel<D, T>>,
    s: OperationScope,
    e: T::Model,
)
    requires
        canonical(a),
        plain(a, s, e),
        plain(b, s, e),
        nonzero(b),
        delete_free(b),
        composes_to_itself::<T>(e),
        inverts_to_itself::<T>(e),
        composable(a, b),
    ensures
        compose_seq(a, b) is Ok,
        compose_seq(compose_seq(a, b)->Ok_0, invert_seq(b, compose_seq(a, b)->Ok_0)) == Ok::<
            Seq<OpModel<D, T>>,
            OTError,
        >(a),
{
    let em = Seq::<OpModel<D, T>>::empty();
    let none = Seq::<Item<D::Unit>>::empty();
    let n = base_len(a, s);
    let doc = olds::<D::Unit>(0, n as int);
    let mid = apply(a, doc, s).0;
    assert(target_len(a, s) == base_len(b, s));
    lemma_plain_all_in(a, s, e);
    lemma_plain_all_in(b, s, e);
    lemma_apply_len(a, doc, s);
    lemma_compose_does_both(a, b, doc, s, e);
    let new_a = compose_seq(a, b)->Ok_0;
    let undo = invert_seq(b, new_a);
    lemma_invert_plain(b, new_a, em, s, e);
    lemma_invert_sem(b, new_a, em, none, none, mid, s);
    assert(none + apply(b, mid, s).0 =~= apply(b, mid, s).0);
    assert(none + mid =~= mid);
    lemma_compose_does_both(new_a, undo, doc, s, e);
    let back = compose_seq(new_a, undo)->Ok_0;
    lemma_unique(back, a, 0, n as int, s, e);
}

} // verus!
