//! Deltas with their formatting set aside: what a walk builds has the same
//! operations, formatting apart, whatever the formatting of the deltas it
//! walks.

use crate::convergence::{
    all_in, composes_to_itself, nonzero, plain, plain_op, transforms_to_itself,
};
use crate::error::OTError;
use crate::laws::{lemma_compose_associative, lemma_transform_converges};
use crate::model;
use crate::operation::OpModel;
use crate::scope::OperationScope;
use crate::traits::{Attributes, Data};
use crate::walk;
use vstd::prelude::*;

verus! {

/// `op` with the formatting `e` in place of its own.
pub open spec fn with_attrs<D: Data, T: Attributes>(op: OpModel<D, T>, e: T::Model) -> OpModel<
    D,
    T,
> {
    match op {
        OpModel::Delete(s, n) => OpModel::Delete(s, n),
        OpModel::Retain(s, n, _) => OpModel::Retain(s, n, e),
        OpModel::Insert(s, data, _) => OpModel::Insert(s, data, e),
    }
}

/// The delta with the formatting `e` in place of that of each operation.
pub open spec fn unformatted<D: Data, T: Attributes>(ops: Seq<OpModel<D, T>>, e: T::Model) -> Seq<
    OpModel<D, T>,
> {
    Seq::new(ops.len(), |i: int| with_attrs(ops[i], e))
}

pub open spec fn unformatted_out<D: Data, T: Attributes>(
    out: Option<OpModel<D, T>>,
    e: T::Model,
) -> Option<OpModel<D, T>> {
    match out {
        Some(op) => Some(with_attrs(op, e)),
        None => None,
    }
}

/// Setting the formatting aside changes no length.
pub proof fn lemma_unformatted_len<D: Data, T: Attributes>(
    ops: Seq<OpModel<D, T>>,
    e: T::Model,
    s: OperationScope,
)
    ensures
        model::base_len(unformatted(ops, e), s) == model::base_len(ops, s),
        model::target_len(unformatted(ops, e), s) == model::target_len(ops, s),
    decreases ops.len(),
{
    if ops.len() > 0 {
        lemma_unformatted_len(ops.drop_last(), e, s);
        assert(unformatted(ops, e).drop_last() =~= unformatted(ops.drop_last(), e));
    }
}

/// A delta of one scope without empty operations, its formatting set
/// aside, is plain and without empty operations.
pub proof fn lemma_unformatted_plain<D: Data, T: Attributes>(
    ops: Seq<OpModel<D, T>>,
    s: OperationScope,
    e: T::Model,
)
    requires
        all_in(ops, s),
        nonzero(ops),
    ensures
        plain(unformatted(ops, e), s, e),
        nonzero(unformatted(ops, e)),
{
    let u = unformatted(ops, e);
    assert forall|i: int| 0 <= i < u.len() implies plain_op(#[trigger] u[i], s, e) && u[i].len()
        > 0 by {
        assert(ops[i].scope() == s);
        assert(ops[i].len() > 0);
    }
}

/// Appending does not look at the formatting.
pub proof fn lemma_unformatted_add<D: Data, T: Attributes>(
    acc: Seq<OpModel<D, T>>,
    op: OpModel<D, T>,
    e: T::Model,
)
    ensures
        unformatted(model::add_op(acc, op), e) == model::add_op(
            unformatted(acc, e),
            with_attrs(op, e),
        ),
{
    assert(unformatted(model::add_op(acc, op), e) =~= model::add_op(
        unformatted(acc, e),
        with_attrs(op, e),
    ));
}

pub proof fn lemma_unformatted_advance<D: Data, T: Attributes>(
    ops: Seq<OpModel<D, T>>,
    m: nat,
    e: T::Model,
)
    requires
        ops.len() > 0,
    ensures
        unformatted(walk::advance(ops, m), e) == walk::advance(unformatted(ops, e), m),
        unformatted(ops.drop_first(), e) == unformatted(ops, e).drop_first(),
{
    assert(unformatted(walk::advance(ops, m), e) =~= walk::advance(unformatted(ops, e), m));
    assert(unformatted(ops.drop_first(), e) =~= unformatted(ops, e).drop_first());
}

/// Where the walk of `compose` over two deltas has a result, the walk over
/// the two with their formatting set aside has that result with its
/// formatting set aside.
pub proof fn lemma_unformatted_compose<D: Data, T: Attributes>(
    a: Seq<OpModel<D, T>>,
    b: Seq<OpModel<D, T>>,
    acc: Seq<OpModel<D, T>>,
    e: T::Model,
)
    requires
        composes_to_itself::<T>(e),
        walk::compose_walk(a, b, acc) is Ok,
    ensures
        walk::compose_walk(unformatted(a, e), unformatted(b, e), unformatted(acc, e)) == Ok::<
            Seq<OpModel<D, T>>,
            OTError,
        >(unformatted(walk::compose_walk(a, b, acc)->Ok_0, e)),
    decreases a.len() + b.len(),
{
    let ua = unformatted(a, e);
    let ub = unformatted(b, e);
    let uacc = unformatted(acc, e);
    match walk::compose_step(a, b, acc) {
        walk::Step::Next((a2, b2, acc2)) => {
            lemma_unformatted_compose(a2, b2, acc2, e);
            if a.len() > 0 && a[0] is Delete {
                lemma_unformatted_add(acc, a[0], e);
                lemma_unformatted_advance(a, 0, e);
            } else if b.len() > 0 && b[0] is Insert {
                lemma_unformatted_add(acc, b[0], e);
                lemma_unformatted_advance(b, 0, e);
            } else {
                let m = walk::min_len(a[0].len(), b[0].len());
                let out = walk::compose_pair(a[0], b[0])->Ok_0;
                lemma_unformatted_advance(a, m, e);
                lemma_unformatted_advance(b, m, e);
                if let Some(op) = out {
                    lemma_unformatted_add(acc, op, e);
                }
                assert(walk::compose_pair(ua[0], ub[0]) == Ok::<Option<OpModel<D, T>>, OTError>(
                    unformatted_out(out, e),
                ));
            }
        },
        _ => {},
    }
}

/// Where the walk of `transform` over two deltas has results, the walk
/// over the two with their formatting set aside has those results with
/// their formatting set aside.
pub proof fn lemma_unformatted_transform<D: Data, T: Attributes>(
    a: Seq<OpModel<D, T>>,
    b: Seq<OpModel<D, T>>,
    xa: Seq<OpModel<D, T>>,
    xb: Seq<OpModel<D, T>>,
    e: T::Model,
)
    requires
        transforms_to_itself::<T>(e),
        walk::transform_walk(a, b, xa, xb) is Ok,
    ensures
        ({
            let (ra, rb) = walk::transform_walk(a, b, xa, xb)->Ok_0;
            walk::transform_walk(
                unformatted(a, e),
                unformatted(b, e),
                unformatted(xa, e),
                unformatted(xb, e),
            ) == Ok::<(Seq<OpModel<D, T>>, Seq<OpModel<D, T>>), OTError>(
                (unformatted(ra, e), unformatted(rb, e)),
            )
        }),
    decreases a.len() + b.len(),
{
    let ua = unformatted(a, e);
    let ub = unformatted(b, e);
    match walk::transform_step(a, b, xa, xb) {
        walk::Step::Next((a2, b2, xa2, xb2)) => {
            lemma_unformatted_transform(a2, b2, xa2, xb2, e);
            if a.len() > 0 && a[0] is Insert {
                lemma_unformatted_add(xa, a[0], e);
                lemma_unformatted_add(xb, walk::retain_over(a[0]), e);
                lemma_unformatted_advance(a, 0, e);
            } else if b.len() > 0 && b[0] is Insert {
                lemma_unformatted_add(xa, walk::retain_over(b[0]), e);
                lemma_unformatted_add(xb, b[0], e);
                lemma_unformatted_advance(b, 0, e);
            } else {
                let m = walk::min_len(a[0].len(), b[0].len());
                let (out_a, out_b) = walk::transform_pair(a[0], b[0])->Ok_0;
                lemma_unformatted_advance(a, m, e);
                lemma_unformatted_advance(b, m, e);
                if let Some(op) = out_a {
                    lemma_unformatted_add(xa, op, e);
                }
                if let Some(op) = out_b {
                    lemma_unformatted_add(xb, op, e);
                }
                assert(walk::transform_pair(ua[0], ub[0]) == Ok::<
                    (Option<OpModel<D, T>>, Option<OpModel<D, T>>),
                    OTError,
                >((unformatted_out(out_a, e), unformatted_out(out_b, e))));
            }
        },
        _ => {},
    }
}

/// What `compose` gives for two deltas with their formatting set aside,
/// where it has a result for the two as they are.
proof fn lemma_unformatted_compose_seq<D: Data, T: Attributes>(
    a: Seq<OpModel<D, T>>,
    b: Seq<OpModel<D, T>>,
    e: T::Model,
)
    requires
        composes_to_itself::<T>(e),
        walk::compose_seq(a, b) is Ok,
    ensures
        walk::composable(unformatted(a, e), unformatted(b, e)),
        walk::compose_seq(unformatted(a, e), unformatted(b, e)) == Ok::<
            Seq<OpModel<D, T>>,
            OTError,
        >(unformatted(walk::compose_seq(a, b)->Ok_0, e)),
{
    let em = Seq::<OpModel<D, T>>::empty();
    assert forall|s: OperationScope| #[trigger]
        model::target_len(unformatted(a, e), s) == model::base_len(unformatted(b, e), s) by {
        lemma_unformatted_len(a, e, s);
        lemma_unformatted_len(b, e, s);
        assert(model::target_len(a, s) == model::base_len(b, s));
    }
    lemma_unformatted_compose(a, b, em, e);
    assert(unformatted(em, e) =~= em);
}

/// `compose` is associative, formatting apart, on deltas of one scope:
/// for deltas `a`, `b` and `c` of scope `s` without empty operations,
/// whatever their formatting, where the four compositions succeed, the two
/// results hold the same operations but for their formatting. `e` is any
/// formatting that composes to itself.
pub proof fn lemma_compose_associative_in_scope<D: Data, T: Attributes>(
    a: Seq<OpModel<D, T>>,
    b: Seq<OpModel<D, T>>,
    c: Seq<OpModel<D, T>>,
    s: OperationScope,
    e: T::Model,
)
    requires
        all_in(a, s),
        all_in(b, s),
        all_in(c, s),
        nonzero(a),
        nonzero(b),
        nonzero(c),
        composes_to_itself::<T>(e),
        walk::compose_seq(a, b) is Ok,
        walk::compose_seq(b, c) is Ok,
        walk::compose_seq(walk::compose_seq(a, b)->Ok_0, c) is Ok,
        walk::compose_seq(a, walk::compose_seq(b, c)->Ok_0) is Ok,
    ensures
        unformatted(walk::compose_seq(walk::compose_seq(a, b)->Ok_0, c)->Ok_0, e) == unformatted(
            walk::compose_seq(a, walk::compose_seq(b, c)->Ok_0)->Ok_0,
            e,
        ),
{
    let ab = walk::compose_seq(a, b)->Ok_0;
    let bc = walk::compose_seq(b, c)->Ok_0;
    lemma_unformatted_plain(a, s, e);
    lemma_unformatted_plain(b, s, e);
    lemma_unformatted_plain(c, s, e);
    lemma_unformatted_compose_seq(a, b, e);
    lemma_unformatted_compose_seq(b, c, e);
    lemma_unformatted_compose_seq(ab, c, e);
    lemma_unformatted_compose_seq(a, bc, e);
    lemma_compose_associative(unformatted(a, e), unformatted(b, e), unformatted(c, e), s, e);
}

/// `transform` makes two deltas of one scope converge, formatting apart:
/// for deltas `a` and `b` of scope `s` without empty operations, whatever
/// their formatting, where `transform` and the two compositions succeed,
/// the two compositions hold the same operations but for their formatting.
/// `e` is any formatting that composes and transforms to itself.
pub proof fn lemma_transform_converges_in_scope<D: Data, T: Attributes>(
    a: Seq<OpModel<D, T>>,
    b: Seq<OpModel<D, T>>,
    s: OperationScope,
    e: T::Model,
)
    requires
        all_in(a, s),
        all_in(b, s),
        nonzero(a),
        nonzero(b),
        composes_to_itself::<T>(e),
        transforms_to_itself::<T>(e),
        walk::transform_seq(a, b) is Ok,
        walk::compose_seq(a, (walk::transform_seq(a, b)->Ok_0).1) is Ok,
        walk::compose_seq(b, (walk::transform_seq(a, b)->Ok_0).0) is Ok,
    ensures
        unformatted(walk::compose_seq(a, (walk::transform_seq(a, b)->Ok_0).1)->Ok_0, e)
            == unformatted(walk::compose_seq(b, (walk::transform_seq(a, b)->Ok_0).0)->Ok_0, e),
{
    let em = Seq::<OpModel<D, T>>::empty();
    let (a2, b2) = walk::transform_seq(a, b)->Ok_0;
    let ua = unformatted(a, e);
    let ub = unformatted(b, e);
    lemma_unformatted_plain(a, s, e);
    lemma_unformatted_plain(b, s, e);
    assert forall|x: OperationScope| #[trigger]
        model::base_len(ua, x) == model::base_len(ub, x) by {
        lemma_unformatted_len(a, e, x);
        lemma_unformatted_len(b, e, x);
        assert(model::base_len(a, x) == model::base_len(b, x));
    }
    lemma_unformatted_transform(a, b, em, em, e);
    assert(unformatted(em, e) =~= em);
    lemma_unformatted_compose_seq(a, b2, e);
    lemma_unformatted_compose_seq(b, a2, e);
    lemma_transform_converges(ua, ub, s, e);
}

} // verus!
