//! The two-cursor walks over a pair of deltas, one step at a time: what
//! `compose`, `transform` and `invert` compute.

use crate::error::OTError;
use crate::model;
use crate::operation::OpModel;
use crate::scope::OperationScope;
use crate::traits::{Attributes, Data};
use vstd::prelude::*;

verus! {

/// The outcome of one step of a walk: it ends well, it fails, or it goes on
/// from a next state.
pub ghost enum Step<S> {
    Done,
    Fail(OTError),
    Next(S),
}

pub open spec fn min_len(a: nat, b: nat) -> nat {
    if a <= b {
        a
    } else {
        b
    }
}

/// The operations still to be walked once `k` units of the first one are
/// consumed: what is left of it stays in front, unless nothing is left.
pub open spec fn advance<D: Data, T: Attributes>(ops: Seq<OpModel<D, T>>, k: nat) -> Seq<
    OpModel<D, T>,
> {
    if k < ops[0].len() {
        ops.update(0, ops[0].rest(k))
    } else {
        ops.drop_first()
    }
}

/// `acc` after what a pairing gives out, if anything, is appended.
pub open spec fn emit<D: Data, T: Attributes>(
    acc: Seq<OpModel<D, T>>,
    out: Option<OpModel<D, T>>,
) -> Seq<OpModel<D, T>> {
    match out {
        Some(op) => model::add_op(acc, op),
        None => acc,
    }
}

/// What `compose` gives out for an operation `p` of the first delta paired
/// with an operation `q` of the second, over as many units as the shorter
/// one has.
pub open spec fn compose_pair<D: Data, T: Attributes>(p: OpModel<D, T>, q: OpModel<D, T>) -> Result<
    Option<OpModel<D, T>>,
    OTError,
> {
    let m = min_len(p.len(), q.len());
    match (p, q) {
        (OpModel::Retain(s, _, a1), OpModel::Retain(_, _, a2)) => match T::compose_model(a1, a2) {
            Ok(attrs) => Ok(Some(OpModel::Retain(s, m, attrs))),
            Err(e) => Err(e),
        },
        (OpModel::Retain(s, _, _), OpModel::Delete(_, _)) => Ok(Some(OpModel::Delete(s, m))),
        (OpModel::Insert(_, _, _), OpModel::Delete(_, _)) => Ok(None),
        (OpModel::Insert(s, data, a1), OpModel::Retain(_, _, a2)) => match T::compose_model(
            a1,
            a2,
        ) {
            Ok(attrs) => Ok(Some(OpModel::Insert(s, data.take(m as int), attrs))),
            Err(e) => Err(e),
        },
        _ => Err(OTError::IncompatibleOperationType(p.kind_name(), q.kind_name())),
    }
}

/// One step of `compose`, from the operations `a` and `b` still to be walked
/// and the result `acc` built so far. A delete of `a` passes to the result;
/// else an insert of `b` does; else the two first operations are paired.
pub open spec fn compose_step<D: Data, T: Attributes>(
    a: Seq<OpModel<D, T>>,
    b: Seq<OpModel<D, T>>,
    acc: Seq<OpModel<D, T>>,
) -> Step<(Seq<OpModel<D, T>>, Seq<OpModel<D, T>>, Seq<OpModel<D, T>>)> {
    if a.len() > 0 && a[0] is Delete {
        Step::Next((a.drop_first(), b, model::add_op(acc, a[0])))
    } else if b.len() > 0 && b[0] is Insert {
        Step::Next((a, b.drop_first(), model::add_op(acc, b[0])))
    } else if a.len() == 0 && b.len() == 0 {
        Step::Done
    } else if a.len() == 0 {
        Step::Fail(OTError::IncompatibleOperationLength("first"))
    } else if b.len() == 0 {
        Step::Fail(OTError::IncompatibleOperationLength("second"))
    } else if a[0].scope() != b[0].scope() {
        Step::Fail(OTError::IncompatibleOperationScope(a[0].scope(), b[0].scope()))
    } else {
        let m = min_len(a[0].len(), b[0].len());
        match compose_pair(a[0], b[0]) {
            Ok(out) => Step::Next((advance(a, m), advance(b, m), emit(acc, out))),
            Err(e) => Step::Fail(e),
        }
    }
}

/// The walk of `compose`: steps until one ends it.
pub open spec fn compose_walk<D: Data, T: Attributes>(
    a: Seq<OpModel<D, T>>,
    b: Seq<OpModel<D, T>>,
    acc: Seq<OpModel<D, T>>,
) -> Result<Seq<OpModel<D, T>>, OTError>
    decreases a.len() + b.len(),
{
    match compose_step(a, b, acc) {
        Step::Done => Ok(acc),
        Step::Fail(e) => Err(e),
        Step::Next((a2, b2, acc2)) => compose_walk(a2, b2, acc2),
    }
}

/// Whether the first delta produces, in every scope, as many units as the
/// second one consumes.
pub open spec fn composable<D: Data, T: Attributes>(
    a: Seq<OpModel<D, T>>,
    b: Seq<OpModel<D, T>>,
) -> bool {
    forall|s: OperationScope| #[trigger] model::target_len(a, s) == model::base_len(b, s)
}

/// The delta that does what `a` and then `b` do, or why there is none.
pub open spec fn compose_seq<D: Data, T: Attributes>(
    a: Seq<OpModel<D, T>>,
    b: Seq<OpModel<D, T>>,
) -> Result<Seq<OpModel<D, T>>, OTError> {
    if !composable(a, b) {
        Err(OTError::IncompatibleDeltaLength("target", "base"))
    } else {
        compose_walk(a, b, Seq::empty())
    }
}

/// The lengths of a sequence are those of its first operation and of the
/// rest.
pub proof fn lemma_len_front<D: Data, T: Attributes>(ops: Seq<OpModel<D, T>>, s: OperationScope)
    requires
        ops.len() > 0,
    ensures
        model::base_len(ops, s) == ops[0].base_in(s) + model::base_len(ops.drop_first(), s),
        model::target_len(ops, s) == ops[0].target_in(s) + model::target_len(ops.drop_first(), s),
    decreases ops.len(),
{
    if ops.len() == 1 {
        assert(ops.drop_last() =~= ops.drop_first());
    } else {
        lemma_len_front(ops.drop_last(), s);
        assert(ops.drop_last().drop_first() =~= ops.drop_first().drop_last());
    }
}

/// Consuming `k` units of the first operation takes `k` from the lengths
/// that this operation counts in.
pub proof fn lemma_advance_len<D: Data, T: Attributes>(
    ops: Seq<OpModel<D, T>>,
    k: nat,
    s: OperationScope,
)
    requires
        ops.len() > 0,
        k <= ops[0].len(),
    ensures
        model::base_len(advance(ops, k), s) + (if ops[0].scope() == s && !(ops[0] is Insert) {
            k
        } else {
            0
        }) == model::base_len(ops, s),
        model::target_len(advance(ops, k), s) + (if ops[0].scope() == s && !(ops[0] is Delete) {
            k
        } else {
            0
        }) == model::target_len(ops, s),
{
    lemma_len_front(ops, s);
    if k < ops[0].len() {
        let next = advance(ops, k);
        lemma_len_front(next, s);
        assert(next.drop_first() =~= ops.drop_first());
    }
}

/// A step of `compose` moves units from the operations still to be walked
/// into the result: the base units of the first delta and the target units
/// of the second are each counted once, before and after.
pub proof fn lemma_compose_step_lens<D: Data, T: Attributes>(
    a: Seq<OpModel<D, T>>,
    b: Seq<OpModel<D, T>>,
    acc: Seq<OpModel<D, T>>,
    s: OperationScope,
)
    requires
        compose_step(a, b, acc) is Next,
    ensures
        ({
            let (a2, b2, acc2) = compose_step(a, b, acc)->Next_0;
            &&& model::base_len(acc2, s) + model::base_len(a2, s) == model::base_len(acc, s) + model::base_len(a, s)
            &&& model::target_len(acc2, s) + model::target_len(b2, s) == model::target_len(acc, s) + model::target_len(b, s)
        }),
{
    if a.len() > 0 && a[0] is Delete {
        lemma_len_front(a, s);
        model::lemma_add_op_len(acc, a[0], s);
    } else if b.len() > 0 && b[0] is Insert {
        lemma_len_front(b, s);
        model::lemma_add_op_len(acc, b[0], s);
    } else {
        let m = min_len(a[0].len(), b[0].len());
        lemma_advance_len(a, m, s);
        lemma_advance_len(b, m, s);
        match compose_pair(a[0], b[0]) {
            Ok(Some(op)) => {
                model::lemma_add_op_len(acc, op, s);
            },
            _ => {},
        }
    }
}

/// What holds of the lengths all through the walk of `compose` over `a0`
/// and `b0`: the result and what is still to be walked of `a0` consume
/// together what `a0` consumes, and likewise produce what `b0` produces.
pub open spec fn compose_lens<D: Data, T: Attributes>(
    a0: Seq<OpModel<D, T>>,
    b0: Seq<OpModel<D, T>>,
    a: Seq<OpModel<D, T>>,
    b: Seq<OpModel<D, T>>,
    acc: Seq<OpModel<D, T>>,
) -> bool {
    &&& forall|s: OperationScope| #[trigger]
        model::base_len(acc, s) + model::base_len(a, s) == model::base_len(a0, s)
    &&& forall|s: OperationScope| #[trigger]
        model::target_len(acc, s) + model::target_len(b, s) == model::target_len(b0, s)
}

pub proof fn lemma_compose_step_keeps_lens<D: Data, T: Attributes>(
    a0: Seq<OpModel<D, T>>,
    b0: Seq<OpModel<D, T>>,
    a: Seq<OpModel<D, T>>,
    b: Seq<OpModel<D, T>>,
    acc: Seq<OpModel<D, T>>,
)
    requires
        compose_lens(a0, b0, a, b, acc),
        compose_step(a, b, acc) is Next,
    ensures
        ({
            let (a2, b2, acc2) = compose_step(a, b, acc)->Next_0;
            compose_lens(a0, b0, a2, b2, acc2)
        }),
{
    let (a2, b2, acc2) = compose_step(a, b, acc)->Next_0;
    assert forall|s: OperationScope| #[trigger]
        model::base_len(acc2, s) + model::base_len(a2, s) == model::base_len(a0, s) by {
        lemma_compose_step_lens(a, b, acc, s);
        assert(model::base_len(acc, s) + model::base_len(a, s) == model::base_len(a0, s));
    }
    assert forall|s: OperationScope| #[trigger]
        model::target_len(acc2, s) + model::target_len(b2, s) == model::target_len(b0, s) by {
        lemma_compose_step_lens(a, b, acc, s);
        assert(model::target_len(acc, s) + model::target_len(b, s) == model::target_len(b0, s));
    }
}

/// The retain that steps over what `op` inserts, with the same formatting.
pub open spec fn retain_over<D: Data, T: Attributes>(op: OpModel<D, T>) -> OpModel<D, T> {
    OpModel::Retain(op.scope(), op.len(), op.attrs())
}

/// What `transform` gives out, to its first and to its second result, for an
/// operation `p` of the first delta paired with an operation `q` of the
/// second, over as many units as the shorter one has. What one side deletes
/// the other side's result need not touch; what only one side deletes, that
/// side's result deletes after the other.
pub open spec fn transform_pair<D: Data, T: Attributes>(
    p: OpModel<D, T>,
    q: OpModel<D, T>,
) -> Result<(Option<OpModel<D, T>>, Option<OpModel<D, T>>), OTError> {
    let m = min_len(p.len(), q.len());
    match (p, q) {
        (OpModel::Retain(s, _, a1), OpModel::Retain(_, _, a2)) => match T::transform_model(
            a1,
            a2,
        ) {
            Ok((attrs, _)) => Ok(
                (Some(OpModel::Retain(s, m, attrs)), Some(OpModel::Retain(s, m, attrs))),
            ),
            Err(e) => Err(e),
        },
        (OpModel::Delete(_, _), OpModel::Delete(_, _)) => Ok((None, None)),
        (OpModel::Delete(s, _), OpModel::Retain(_, _, _)) => Ok(
            (Some(OpModel::Delete(s, m)), None),
        ),
        (OpModel::Retain(s, _, _), OpModel::Delete(_, _)) => Ok(
            (None, Some(OpModel::Delete(s, m))),
        ),
        _ => Err(OTError::IncompatibleOperationType(p.kind_name(), q.kind_name())),
    }
}

/// One step of `transform`, from the operations `a` and `b` still to be
/// walked and the two results built so far. An insert of `a` goes first: it
/// passes to the first result, and the second steps over it; else an insert
/// of `b` passes to the second result, and the first steps over it; else the
/// two first operations are paired.
pub open spec fn transform_step<D: Data, T: Attributes>(
    a: Seq<OpModel<D, T>>,
    b: Seq<OpModel<D, T>>,
    acc_a: Seq<OpModel<D, T>>,
    acc_b: Seq<OpModel<D, T>>,
) -> Step<(Seq<OpModel<D, T>>, Seq<OpModel<D, T>>, Seq<OpModel<D, T>>, Seq<OpModel<D, T>>)> {
    if a.len() > 0 && a[0] is Insert {
        Step::Next(
            (a.drop_first(), b, model::add_op(acc_a, a[0]), model::add_op(acc_b, retain_over(a[0]))),
        )
    } else if b.len() > 0 && b[0] is Insert {
        Step::Next(
            (a, b.drop_first(), model::add_op(acc_a, retain_over(b[0])), model::add_op(acc_b, b[0])),
        )
    } else if a.len() == 0 && b.len() == 0 {
        Step::Done
    } else if a.len() == 0 {
        Step::Fail(OTError::IncompatibleOperationLength("first"))
    } else if b.len() == 0 {
        Step::Fail(OTError::IncompatibleOperationLength("second"))
    } else if a[0].scope() != b[0].scope() {
        Step::Fail(OTError::IncompatibleOperationScope(a[0].scope(), b[0].scope()))
    } else {
        let m = min_len(a[0].len(), b[0].len());
        match transform_pair(a[0], b[0]) {
            Ok((out_a, out_b)) => Step::Next(
                (advance(a, m), advance(b, m), emit(acc_a, out_a), emit(acc_b, out_b)),
            ),
            Err(e) => Step::Fail(e),
        }
    }
}

/// The walk of `transform`: steps until one ends it.
pub open spec fn transform_walk<D: Data, T: Attributes>(
    a: Seq<OpModel<D, T>>,
    b: Seq<OpModel<D, T>>,
    acc_a: Seq<OpModel<D, T>>,
    acc_b: Seq<OpModel<D, T>>,
) -> Result<(Seq<OpModel<D, T>>, Seq<OpModel<D, T>>), OTError>
    decreases a.len() + b.len(),
{
    match transform_step(a, b, acc_a, acc_b) {
        Step::Done => Ok((acc_a, acc_b)),
        Step::Fail(e) => Err(e),
        Step::Next((a2, b2, acc_a2, acc_b2)) => transform_walk(a2, b2, acc_a2, acc_b2),
    }
}

/// Whether the two deltas consume the same number of units in every scope.
pub open spec fn same_base<D: Data, T: Attributes>(
    a: Seq<OpModel<D, T>>,
    b: Seq<OpModel<D, T>>,
) -> bool {
    forall|s: OperationScope| #[trigger] model::base_len(a, s) == model::base_len(b, s)
}

/// The pair of deltas that reconciles `a` and `b`, made against the same
/// base: the first applies after `b`, the second after `a`. Or why there is
/// none.
pub open spec fn transform_seq<D: Data, T: Attributes>(
    a: Seq<OpModel<D, T>>,
    b: Seq<OpModel<D, T>>,
) -> Result<(Seq<OpModel<D, T>>, Seq<OpModel<D, T>>), OTError> {
    if !same_base(a, b) {
        Err(OTError::IncompatibleDeltaLength("base", "base"))
    } else {
        transform_walk(a, b, Seq::empty(), Seq::empty())
    }
}

/// What holds of the lengths all through the walk of `transform` over `a0`
/// and `b0`: each result consumes what the other delta has produced so far,
/// and produces no more than the two deltas together.
pub open spec fn transform_lens<D: Data, T: Attributes>(
    a0: Seq<OpModel<D, T>>,
    b0: Seq<OpModel<D, T>>,
    a: Seq<OpModel<D, T>>,
    b: Seq<OpModel<D, T>>,
    acc_a: Seq<OpModel<D, T>>,
    acc_b: Seq<OpModel<D, T>>,
) -> bool {
    &&& forall|s: OperationScope| #[trigger]
        model::base_len(acc_a, s) + model::target_len(b, s) == model::target_len(b0, s)
    &&& forall|s: OperationScope| #[trigger]
        model::base_len(acc_b, s) + model::target_len(a, s) == model::target_len(a0, s)
    &&& forall|s: OperationScope| #[trigger]
        model::target_len(acc_a, s) + model::target_len(a, s) + model::target_len(b, s)
            <= model::target_len(a0, s) + model::target_len(b0, s)
    &&& forall|s: OperationScope| #[trigger]
        model::target_len(acc_b, s) + model::target_len(a, s) + model::target_len(b, s)
            <= model::target_len(a0, s) + model::target_len(b0, s)
}

pub proof fn lemma_transform_step_lens<D: Data, T: Attributes>(
    a: Seq<OpModel<D, T>>,
    b: Seq<OpModel<D, T>>,
    acc_a: Seq<OpModel<D, T>>,
    acc_b: Seq<OpModel<D, T>>,
    s: OperationScope,
)
    requires
        transform_step(a, b, acc_a, acc_b) is Next,
    ensures
        ({
            let (a2, b2, acc_a2, acc_b2) = transform_step(a, b, acc_a, acc_b)->Next_0;
            &&& model::base_len(acc_a2, s) + model::target_len(b2, s) == model::base_len(acc_a, s)
                + model::target_len(b, s)
            &&& model::base_len(acc_b2, s) + model::target_len(a2, s) == model::base_len(acc_b, s)
                + model::target_len(a, s)
            &&& model::target_len(acc_a2, s) + model::target_len(a2, s) + model::target_len(b2, s)
                <= model::target_len(acc_a, s) + model::target_len(a, s) + model::target_len(b, s)
            &&& model::target_len(acc_b2, s) + model::target_len(a2, s) + model::target_len(b2, s)
                <= model::target_len(acc_b, s) + model::target_len(a, s) + model::target_len(b, s)
        }),
{
    if a.len() > 0 && a[0] is Insert {
        lemma_len_front(a, s);
        model::lemma_add_op_len(acc_a, a[0], s);
        model::lemma_add_op_len(acc_b, retain_over(a[0]), s);
    } else if b.len() > 0 && b[0] is Insert {
        lemma_len_front(b, s);
        model::lemma_add_op_len(acc_a, retain_over(b[0]), s);
        model::lemma_add_op_len(acc_b, b[0], s);
    } else {
        let m = min_len(a[0].len(), b[0].len());
        lemma_advance_len(a, m, s);
        lemma_advance_len(b, m, s);
        match transform_pair(a[0], b[0]) {
            Ok((out_a, out_b)) => {
                if let Some(op) = out_a {
                    model::lemma_add_op_len(acc_a, op, s);
                }
                if let Some(op) = out_b {
                    model::lemma_add_op_len(acc_b, op, s);
                }
            },
            _ => {},
        }
    }
}

pub proof fn lemma_transform_step_keeps_lens<D: Data, T: Attributes>(
    a0: Seq<OpModel<D, T>>,
    b0: Seq<OpModel<D, T>>,
    a: Seq<OpModel<D, T>>,
    b: Seq<OpModel<D, T>>,
    acc_a: Seq<OpModel<D, T>>,
    acc_b: Seq<OpModel<D, T>>,
)
    requires
        transform_lens(a0, b0, a, b, acc_a, acc_b),
        transform_step(a, b, acc_a, acc_b) is Next,
    ensures
        ({
            let (a2, b2, acc_a2, acc_b2) = transform_step(a, b, acc_a, acc_b)->Next_0;
            transform_lens(a0, b0, a2, b2, acc_a2, acc_b2)
        }),
{
    let (a2, b2, acc_a2, acc_b2) = transform_step(a, b, acc_a, acc_b)->Next_0;
    assert forall|s: OperationScope| #[trigger]
        model::base_len(acc_a2, s) + model::target_len(b2, s) == model::target_len(b0, s) by {
        lemma_transform_step_lens(a, b, acc_a, acc_b, s);
        assert(model::base_len(acc_a, s) + model::target_len(b, s) == model::target_len(b0, s));
    }
    assert forall|s: OperationScope| #[trigger]
        model::base_len(acc_b2, s) + model::target_len(a2, s) == model::target_len(a0, s) by {
        lemma_transform_step_lens(a, b, acc_a, acc_b, s);
        assert(model::base_len(acc_b, s) + model::target_len(a, s) == model::target_len(a0, s));
    }
    assert forall|s: OperationScope| #[trigger]
        model::target_len(acc_a2, s) + model::target_len(a2, s) + model::target_len(b2, s)
            <= model::target_len(a0, s) + model::target_len(b0, s) by {
        lemma_transform_step_lens(a, b, acc_a, acc_b, s);
        assert(model::target_len(acc_a, s) + model::target_len(a, s) + model::target_len(b, s)
            <= model::target_len(a0, s) + model::target_len(b0, s));
    }
    assert forall|s: OperationScope| #[trigger]
        model::target_len(acc_b2, s) + model::target_len(a2, s) + model::target_len(b2, s)
            <= model::target_len(a0, s) + model::target_len(b0, s) by {
        lemma_transform_step_lens(a, b, acc_a, acc_b, s);
        assert(model::target_len(acc_b, s) + model::target_len(a, s) + model::target_len(b, s)
            <= model::target_len(a0, s) + model::target_len(b0, s));
    }
}

/// What undoes `m` units of an operation `p` of a change, where `against`
/// is the formatting that these units have once the change is made: what
/// `p` inserted is deleted, what it retained is retained with its change of
/// formatting undone. What it deleted is held by neither delta, and stays
/// deleted.
pub open spec fn invert_op<D: Data, T: Attributes>(
    p: OpModel<D, T>,
    m: nat,
    against: T::Model,
) -> Option<OpModel<D, T>> {
    match p {
        OpModel::Delete(_, _) => None,
        OpModel::Retain(s, _, attrs) => Some(OpModel::Retain(s, m, T::invert_model(attrs, against))),
        OpModel::Insert(s, _, _) => Some(OpModel::Delete(s, m)),
    }
}

/// One step of `invert`, from the operations `a` of the change and `o` of
/// the delta that the change was composed into, both still to be walked,
/// and the result built so far. The deletes of `o` are passed over, as they
/// produce nothing; so are those of `a`. Any other operation of `a` is
/// paired with the first of `o`, which holds the units that it produced;
/// where `o` has run out, it is undone against the default formatting.
pub open spec fn invert_step<D: Data, T: Attributes>(
    a: Seq<OpModel<D, T>>,
    o: Seq<OpModel<D, T>>,
    acc: Seq<OpModel<D, T>>,
) -> Step<(Seq<OpModel<D, T>>, Seq<OpModel<D, T>>, Seq<OpModel<D, T>>)> {
    if o.len() > 0 && o[0] is Delete {
        Step::Next((a, o.drop_first(), acc))
    } else if a.len() == 0 {
        Step::Done
    } else if a[0] is Delete {
        Step::Next((a.drop_first(), o, acc))
    } else if o.len() == 0 {
        Step::Next(
            (a.drop_first(), o, emit(acc, invert_op(a[0], a[0].len(), T::default_model()))),
        )
    } else {
        let m = min_len(a[0].len(), o[0].len());
        Step::Next((advance(a, m), advance(o, m), emit(acc, invert_op(a[0], m, o[0].attrs()))))
    }
}

/// The walk of `invert`: steps until the change is walked through.
pub open spec fn invert_walk<D: Data, T: Attributes>(
    a: Seq<OpModel<D, T>>,
    o: Seq<OpModel<D, T>>,
    acc: Seq<OpModel<D, T>>,
) -> Seq<OpModel<D, T>>
    decreases a.len() + o.len(),
{
    match invert_step(a, o, acc) {
        Step::Next((a2, o2, acc2)) => invert_walk(a2, o2, acc2),
        _ => acc,
    }
}

/// The delta that undoes the change `a`, where `o` is what `a` was composed
/// into.
pub open spec fn invert_seq<D: Data, T: Attributes>(
    a: Seq<OpModel<D, T>>,
    o: Seq<OpModel<D, T>>,
) -> Seq<OpModel<D, T>> {
    invert_walk(a, o, Seq::empty())
}

/// What holds of the lengths all through the walk of `invert` over the
/// change `a0`: the result consumes what the change has produced so far, and
/// produces no more than the change has consumed.
pub open spec fn invert_lens<D: Data, T: Attributes>(
    a0: Seq<OpModel<D, T>>,
    a: Seq<OpModel<D, T>>,
    acc: Seq<OpModel<D, T>>,
) -> bool {
    &&& forall|s: OperationScope| #[trigger]
        model::base_len(acc, s) + model::target_len(a, s) == model::target_len(a0, s)
    &&& forall|s: OperationScope| #[trigger]
        model::target_len(acc, s) + model::base_len(a, s) <= model::base_len(a0, s)
}

pub proof fn lemma_invert_step_lens<D: Data, T: Attributes>(
    a: Seq<OpModel<D, T>>,
    o: Seq<OpModel<D, T>>,
    acc: Seq<OpModel<D, T>>,
    s: OperationScope,
)
    requires
        invert_step(a, o, acc) is Next,
    ensures
        ({
            let (a2, o2, acc2) = invert_step(a, o, acc)->Next_0;
            &&& model::base_len(acc2, s) + model::target_len(a2, s) == model::base_len(acc, s)
                + model::target_len(a, s)
            &&& model::target_len(acc2, s) + model::base_len(a2, s) <= model::target_len(acc, s)
                + model::base_len(a, s)
        }),
{
    if o.len() > 0 && o[0] is Delete {
    } else if a[0] is Delete {
        lemma_len_front(a, s);
    } else if o.len() == 0 {
        lemma_len_front(a, s);
        model::lemma_add_op_len(acc, invert_op(a[0], a[0].len(), T::default_model())->Some_0, s);
    } else {
        let m = min_len(a[0].len(), o[0].len());
        lemma_advance_len(a, m, s);
        model::lemma_add_op_len(acc, invert_op(a[0], m, o[0].attrs())->Some_0, s);
    }
}

pub proof fn lemma_invert_step_keeps_lens<D: Data, T: Attributes>(
    a0: Seq<OpModel<D, T>>,
    a: Seq<OpModel<D, T>>,
    o: Seq<OpModel<D, T>>,
    acc: Seq<OpModel<D, T>>,
)
    requires
        invert_lens(a0, a, acc),
        invert_step(a, o, acc) is Next,
    ensures
        ({
            let (a2, o2, acc2) = invert_step(a, o, acc)->Next_0;
            invert_lens(a0, a2, acc2)
        }),
{
    let (a2, o2, acc2) = invert_step(a, o, acc)->Next_0;
    assert forall|s: OperationScope| #[trigger]
        model::base_len(acc2, s) + model::target_len(a2, s) == model::target_len(a0, s) by {
        lemma_invert_step_lens(a, o, acc, s);
        assert(model::base_len(acc, s) + model::target_len(a, s) == model::target_len(a0, s));
    }
    assert forall|s: OperationScope| #[trigger]
        model::target_len(acc2, s) + model::base_len(a2, s) <= model::base_len(a0, s) by {
        lemma_invert_step_lens(a, o, acc, s);
        assert(model::target_len(acc, s) + model::base_len(a, s) <= model::base_len(a0, s));
    }
}

} // verus!
