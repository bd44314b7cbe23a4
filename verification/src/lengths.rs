//! The lengths of what the three operators build, and why no walk over
//! deltas whose lengths fit runs one of them out before the other.

use crate::convergence::nonzero;
use crate::error::OTError;
use crate::model;
use crate::operation::OpModel;
use crate::scope::OperationScope;
use crate::traits::{Attributes, Data};
use crate::walk;
use vstd::prelude::*;

verus! {

proof fn lemma_compose_walk_lengths<D: Data, T: Attributes>(
    a: Seq<OpModel<D, T>>,
    b: Seq<OpModel<D, T>>,
    acc: Seq<OpModel<D, T>>,
    s: OperationScope,
)
    requires
        walk::compose_walk(a, b, acc) is Ok,
    ensures
        model::base_len(walk::compose_walk(a, b, acc)->Ok_0, s) == model::base_len(acc, s)
            + model::base_len(a, s),
        model::target_len(walk::compose_walk(a, b, acc)->Ok_0, s) == model::target_len(acc, s)
            + model::target_len(b, s),
    decreases a.len() + b.len(),
{
    match walk::compose_step(a, b, acc) {
        walk::Step::Next((a2, b2, acc2)) => {
            walk::lemma_compose_step_lens(a, b, acc, s);
            lemma_compose_walk_lengths(a2, b2, acc2, s);
        },
        walk::Step::Done => {
            assert(a =~= Seq::<OpModel<D, T>>::empty());
            assert(b =~= Seq::<OpModel<D, T>>::empty());
        },
        walk::Step::Fail(_) => {},
    }
}

/// What `compose` builds consumes, in every scope, what the first delta
/// consumes, and produces what the second produces.
pub proof fn lemma_compose_lengths<D: Data, T: Attributes>(
    a: Seq<OpModel<D, T>>,
    b: Seq<OpModel<D, T>>,
    s: OperationScope,
)
    requires
        walk::compose_seq(a, b) is Ok,
    ensures
        model::base_len(walk::compose_seq(a, b)->Ok_0, s) == model::base_len(a, s),
        model::target_len(walk::compose_seq(a, b)->Ok_0, s) == model::target_len(b, s),
{
    lemma_compose_walk_lengths(a, b, Seq::empty(), s);
}

/// A step of `transform` adds the same to what its two results produce.
proof fn lemma_transform_step_targets<D: Data, T: Attributes>(
    a: Seq<OpModel<D, T>>,
    b: Seq<OpModel<D, T>>,
    xa: Seq<OpModel<D, T>>,
    xb: Seq<OpModel<D, T>>,
    s: OperationScope,
)
    requires
        walk::transform_step(a, b, xa, xb) is Next,
    ensures
        ({
            let (a2, b2, xa2, xb2) = walk::transform_step(a, b, xa, xb)->Next_0;
            model::target_len(xa2, s) - model::target_len(xa, s) == model::target_len(xb2, s)
                - model::target_len(xb, s)
        }),
{
    if a.len() > 0 && a[0] is Insert {
        model::lemma_add_op_len(xa, a[0], s);
        model::lemma_add_op_len(xb, walk::retain_over(a[0]), s);
    } else if b.len() > 0 && b[0] is Insert {
        model::lemma_add_op_len(xa, walk::retain_over(b[0]), s);
        model::lemma_add_op_len(xb, b[0], s);
    } else {
        match walk::transform_pair(a[0], b[0]) {
            Ok((out_a, out_b)) => {
                if let Some(op) = out_a {
                    model::lemma_add_op_len(xa, op, s);
                }
                if let Some(op) = out_b {
                    model::lemma_add_op_len(xb, op, s);
                }
            },
            _ => {},
        }
    }
}

proof fn lemma_transform_walk_lengths<D: Data, T: Attributes>(
    a: Seq<OpModel<D, T>>,
    b: Seq<OpModel<D, T>>,
    xa: Seq<OpModel<D, T>>,
    xb: Seq<OpModel<D, T>>,
    s: OperationScope,
)
    requires
        walk::transform_walk(a, b, xa, xb) is Ok,
    ensures
        ({
            let (ra, rb) = walk::transform_walk(a, b, xa, xb)->Ok_0;
            &&& model::base_len(ra, s) == model::base_len(xa, s) + model::target_len(b, s)
            &&& model::base_len(rb, s) == model::base_len(xb, s) + model::target_len(a, s)
            &&& model::target_len(ra, s) - model::target_len(xa, s) == model::target_len(rb, s)
                - model::target_len(xb, s)
        }),
    decreases a.len() + b.len(),
{
    match walk::transform_step(a, b, xa, xb) {
        walk::Step::Next((a2, b2, xa2, xb2)) => {
            walk::lemma_transform_step_lens(a, b, xa, xb, s);
            lemma_transform_step_targets(a, b, xa, xb, s);
            lemma_transform_walk_lengths(a2, b2, xa2, xb2, s);
        },
        walk::Step::Done => {
            assert(a =~= Seq::<OpModel<D, T>>::empty());
            assert(b =~= Seq::<OpModel<D, T>>::empty());
        },
        walk::Step::Fail(_) => {},
    }
}

/// Of the two deltas that `transform` builds, each consumes, in every
/// scope, what the other given delta produces, and the two produce the
/// same.
pub proof fn lemma_transform_lengths<D: Data, T: Attributes>(
    a: Seq<OpModel<D, T>>,
    b: Seq<OpModel<D, T>>,
    s: OperationScope,
)
    requires
        walk::transform_seq(a, b) is Ok,
    ensures
        ({
            let (a2, b2) = walk::transform_seq(a, b)->Ok_0;
            &&& model::base_len(a2, s) == model::target_len(b, s)
            &&& model::base_len(b2, s) == model::target_len(a, s)
            &&& model::target_len(a2, s) == model::target_len(b2, s)
        }),
{
    lemma_transform_walk_lengths(a, b, Seq::empty(), Seq::empty(), s);
}

proof fn lemma_invert_walk_lengths<D: Data, T: Attributes>(
    a: Seq<OpModel<D, T>>,
    o: Seq<OpModel<D, T>>,
    acc: Seq<OpModel<D, T>>,
    s: OperationScope,
)
    ensures
        model::base_len(walk::invert_walk(a, o, acc), s) == model::base_len(acc, s)
            + model::target_len(a, s),
    decreases a.len() + o.len(),
{
    match walk::invert_step(a, o, acc) {
        walk::Step::Next((a2, o2, acc2)) => {
            walk::lemma_invert_step_lens(a, o, acc, s);
            lemma_invert_walk_lengths(a2, o2, acc2, s);
        },
        _ => {
            assert(a =~= Seq::<OpModel<D, T>>::empty());
        },
    }
}

/// What `invert` builds consumes, in every scope, what the change
/// produces.
pub proof fn lemma_invert_lengths<D: Data, T: Attributes>(
    a: Seq<OpModel<D, T>>,
    o: Seq<OpModel<D, T>>,
    s: OperationScope,
)
    ensures
        model::base_len(walk::invert_seq(a, o), s) == model::target_len(a, s),
{
    lemma_invert_walk_lengths(a, o, Seq::empty(), s);
}

/// What is left of a delta without empty operations, once units of its
/// first operation are consumed, holds no empty operation.
pub proof fn lemma_nonzero_advance<D: Data, T: Attributes>(ops: Seq<OpModel<D, T>>, m: nat)
    requires
        nonzero(ops),
        ops.len() > 0,
        m <= ops[0].len(),
    ensures
        nonzero(walk::advance(ops, m)),
        nonzero(ops.drop_first()),
{
    let next = walk::advance(ops, m);
    let df = ops.drop_first();
    assert(ops[0].len() > 0);
    assert forall|i: int| 0 <= i < next.len() implies (#[trigger] next[i]).len() > 0 by {
        if m < ops[0].len() {
            if i > 0 {
                assert(next[i] == ops[i]);
            }
        } else {
            assert(next[i] == ops[i + 1]);
        }
    }
    assert forall|i: int| 0 <= i < df.len() implies (#[trigger] df[i]).len() > 0 by {
        assert(df[i] == ops[i + 1]);
    }
}

/// While the first delta has yet to produce, in every scope, what the
/// second has yet to consume, a step of `compose` never finds one of them
/// at its end before the other: it fails only on two operations of
/// different scopes, or where the pairing does. What is left after the
/// step fits again.
pub proof fn lemma_compose_never_runs_out<D: Data, T: Attributes>(
    a: Seq<OpModel<D, T>>,
    b: Seq<OpModel<D, T>>,
    acc: Seq<OpModel<D, T>>,
)
    requires
        walk::composable(a, b),
        nonzero(a),
        nonzero(b),
    ensures
        match walk::compose_step(a, b, acc) {
            walk::Step::Done => true,
            walk::Step::Next((a2, b2, _)) => walk::composable(a2, b2) && nonzero(a2) && nonzero(
                b2,
            ),
            walk::Step::Fail(e) => a.len() > 0 && b.len() > 0 && (if a[0].scope()
                != b[0].scope() {
                e == OTError::IncompatibleOperationScope(a[0].scope(), b[0].scope())
            } else {
                walk::compose_pair(a[0], b[0]) == Err::<Option<OpModel<D, T>>, OTError>(e)
            }),
        },
{
    if a.len() > 0 {
        assert(a[0].len() > 0);
        walk::lemma_len_front(a, a[0].scope());
    }
    if b.len() > 0 {
        assert(b[0].len() > 0);
        walk::lemma_len_front(b, b[0].scope());
        assert(model::target_len(a, b[0].scope()) == model::base_len(b, b[0].scope()));
    }
    if a.len() > 0 {
        assert(model::target_len(a, a[0].scope()) == model::base_len(b, a[0].scope()));
    }
    match walk::compose_step(a, b, acc) {
        walk::Step::Next((a2, b2, _)) => {
            let by_rule = (a.len() > 0 && a[0] is Delete) || (b.len() > 0 && b[0] is Insert);
            let m = if by_rule {
                0
            } else {
                walk::min_len(a[0].len(), b[0].len())
            };
            if a.len() > 0 {
                lemma_nonzero_advance(a, m);
            }
            if b.len() > 0 {
                lemma_nonzero_advance(b, m);
            }
            assert forall|s: OperationScope| #[trigger]
                model::target_len(a2, s) == model::base_len(b2, s) by {
                assert(model::target_len(a, s) == model::base_len(b, s));
                if a.len() > 0 && a[0] is Delete {
                    walk::lemma_len_front(a, s);
                } else if b.len() > 0 && b[0] is Insert {
                    walk::lemma_len_front(b, s);
                } else {
                    walk::lemma_advance_len(a, m, s);
                    walk::lemma_advance_len(b, m, s);
                }
            }
        },
        _ => {},
    }
}

/// While the two deltas have yet to consume the same in every scope, a
/// step of `transform` never finds one of them at its end before the
/// other: it fails only on two operations of different scopes, or where
/// the pairing does. What is left after the step consumes the same again.
pub proof fn lemma_transform_never_runs_out<D: Data, T: Attributes>(
    a: Seq<OpModel<D, T>>,
    b: Seq<OpModel<D, T>>,
    xa: Seq<OpModel<D, T>>,
    xb: Seq<OpModel<D, T>>,
)
    requires
        walk::same_base(a, b),
        nonzero(a),
        nonzero(b),
    ensures
        match walk::transform_step(a, b, xa, xb) {
            walk::Step::Done => true,
            walk::Step::Next((a2, b2, _, _)) => walk::same_base(a2, b2) && nonzero(a2) && nonzero(
                b2,
            ),
            walk::Step::Fail(e) => a.len() > 0 && b.len() > 0 && (if a[0].scope()
                != b[0].scope() {
                e == OTError::IncompatibleOperationScope(a[0].scope(), b[0].scope())
            } else {
                walk::transform_pair(a[0], b[0]) == Err::<
                    (Option<OpModel<D, T>>, Option<OpModel<D, T>>),
                    OTError,
                >(e)
            }),
        },
{
    if a.len() > 0 {
        assert(a[0].len() > 0);
        walk::lemma_len_front(a, a[0].scope());
        assert(model::base_len(a, a[0].scope()) == model::base_len(b, a[0].scope()));
    }
    if b.len() > 0 {
        assert(b[0].len() > 0);
        walk::lemma_len_front(b, b[0].scope());
        assert(model::base_len(a, b[0].scope()) == model::base_len(b, b[0].scope()));
    }
    match walk::transform_step(a, b, xa, xb) {
        walk::Step::Next((a2, b2, _, _)) => {
            let by_rule = (a.len() > 0 && a[0] is Insert) || (b.len() > 0 && b[0] is Insert);
            let m = if by_rule {
                0
            } else {
                walk::min_len(a[0].len(), b[0].len())
            };
            if a.len() > 0 {
                lemma_nonzero_advance(a, m);
            }
            if b.len() > 0 {
                lemma_nonzero_advance(b, m);
            }
            assert forall|s: OperationScope| #[trigger]
                model::base_len(a2, s) == model::base_len(b2, s) by {
                assert(model::base_len(a, s) == model::base_len(b, s));
                if a.len() > 0 && a[0] is Insert {
                    walk::lemma_len_front(a, s);
                } else if b.len() > 0 && b[0] is Insert {
                    walk::lemma_len_front(b, s);
                } else {
                    walk::lemma_advance_len(a, m, s);
                    walk::lemma_advance_len(b, m, s);
                }
            }
        },
        _ => {},
    }
}

} // verus!
