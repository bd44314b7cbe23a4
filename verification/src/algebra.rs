//! The three operators on deltas.

use crate::builder::OperationBuilder;
use crate::cursor::{consume, cursor_ok, next_op, pending};
use crate::delta::{lens_equal, recorded, Delta, LengthKind};
use crate::error::OTError;
use crate::model;
use crate::operation::{OpModel, Operation};
use crate::scope::OperationScope;
use crate::traits::{Attributes, Data, OperationTransformable};
use crate::walk;
use vstd::prelude::*;

verus! {

impl<D: Data, T: Attributes> Operation<D, T> {
    /// The name of the operation's kind.
    pub fn kind_name(&self) -> (name: &'static str)
        ensures
            name == self@.kind_name(),
    {
        match self {
            Operation::Delete(_, _) => "Delete",
            Operation::Retain(_, _) => "Retain",
            Operation::Insert(_, _) => "Insert",
        }
    }
}

/// Whether the two results of `transform` on these deltas have lengths that
/// fit in `usize`: in every scope, the two deltas together produce no more
/// than that.
pub open spec fn fits_together<D: Data, T: Attributes>(
    a: Seq<OpModel<D, T>>,
    b: Seq<OpModel<D, T>>,
) -> bool {
    forall|s: OperationScope| #[trigger]
        model::target_len(a, s) + model::target_len(b, s) <= usize::MAX
}

/// The retain with which the other side steps over what `op` inserts.
fn retain_over<D: Data, T: Attributes>(op: &Operation<D, T>) -> (r: Operation<D, T>)
    ensures
        r@ == walk::retain_over(op@),
{
    OperationBuilder::retain(op.get_scope(), op.len()).attrs(op.get_attrs()).build()
}

impl<D: Data, T: Attributes> OperationTransformable for Delta<D, T> {
    type Model = Seq<OpModel<D, T>>;

    open spec fn model(&self) -> Seq<OpModel<D, T>> {
        self@
    }

    open spec fn well_formed(&self) -> bool {
        self.wf()
    }

    open spec fn transform_fits(&self, other: &Self) -> bool {
        fits_together(self@, other@)
    }

    open spec fn compose_model(a: Seq<OpModel<D, T>>, b: Seq<OpModel<D, T>>) -> Result<
        Seq<OpModel<D, T>>,
        OTError,
    > {
        walk::compose_seq(a, b)
    }

    open spec fn transform_model(a: Seq<OpModel<D, T>>, b: Seq<OpModel<D, T>>) -> Result<
        (Seq<OpModel<D, T>>, Seq<OpModel<D, T>>),
        OTError,
    > {
        walk::transform_seq(a, b)
    }

    open spec fn invert_model(a: Seq<OpModel<D, T>>, b: Seq<OpModel<D, T>>) -> Seq<OpModel<D, T>> {
        walk::invert_seq(a, b)
    }

    /// Walks `self` and `other` together and builds the delta that does
    /// what the two do one after the other. It fails where `self` does not
    /// produce, in some scope, as many units as `other` consumes, and where
    /// the walk pairs operations of different scopes.
    fn compose(&self, other: &Self) -> (r: Result<Self, OTError>)
        ensures
            match r {
                Ok(c) => c.wf() && walk::compose_seq(self@, other@) == Ok::<
                    Seq<OpModel<D, T>>,
                    OTError,
                >(c@),
                Err(e) => walk::compose_seq(self@, other@) == Err::<Seq<OpModel<D, T>>, OTError>(
                    e,
                ),
            },
    {
        proof {
            lemma_composable_by_map(self, other);
        }
        if !self.is_len_equal(other, LengthKind::Target, LengthKind::Base) {
            return Err(OTError::IncompatibleDeltaLength("target", "base"));
        }
        let mut new_delta: Delta<D, T> = Delta::default();
        let mut next1: usize = 0;
        let mut next2: usize = 0;
        let mut elem1 = next_op(self, &mut next1);
        let mut elem2 = next_op(other, &mut next2);
        proof {
            assert(self@.skip(0) =~= self@);
            assert(other@.skip(0) =~= other@);
        }
        loop
            invariant
                self.wf(),
                other.wf(),
                new_delta.wf(),
                cursor_ok(elem1, self@, next1 as int),
                cursor_ok(elem2, other@, next2 as int),
                walk::compose_seq(self@, other@) == walk::compose_walk(
                    pending(elem1, self@, next1 as int),
                    pending(elem2, other@, next2 as int),
                    new_delta@,
                ),
                walk::compose_lens(
                    self@,
                    other@,
                    pending(elem1, self@, next1 as int),
                    pending(elem2, other@, next2 as int),
                    new_delta@,
                ),
            decreases
                pending(elem1, self@, next1 as int).len() + pending(elem2, other@, next2 as int).len(),
        {
            let ghost a = pending(elem1, self@, next1 as int);
            let ghost b = pending(elem2, other@, next2 as int);
            let ghost acc = new_delta@;
            let first_deletes = match &elem1 {
                Some(Operation::Delete(_, _)) => true,
                _ => false,
            };
            let second_inserts = match &elem2 {
                Some(Operation::Insert(_, _)) => true,
                _ => false,
            };
            proof {
                if walk::compose_step(a, b, acc) is Next {
                    walk::lemma_compose_step_keeps_lens(self@, other@, a, b, acc);
                }
            }
            if first_deletes {
                let op = elem1.unwrap();
                proof {
                    lemma_compose_fits(self, other, a, b, acc, op@);
                    assert(a.drop_first() =~= self@.skip(next1 as int));
                }
                new_delta.add(&op)?;
                elem1 = next_op(self, &mut next1);
            } else if second_inserts {
                let op = elem2.unwrap();
                proof {
                    lemma_compose_fits(self, other, a, b, acc, op@);
                    assert(b.drop_first() =~= other@.skip(next2 as int));
                }
                new_delta.add(&op)?;
                elem2 = next_op(other, &mut next2);
            } else if elem1.is_none() && elem2.is_none() {
                return Ok(new_delta);
            } else if elem1.is_none() {
                return Err(OTError::IncompatibleOperationLength("first"));
            } else if elem2.is_none() {
                return Err(OTError::IncompatibleOperationLength("second"));
            } else {
                let op1 = elem1.unwrap();
                let op2 = elem2.unwrap();
                let scope1 = op1.get_scope();
                let scope2 = op2.get_scope();
                if scope1 != scope2 {
                    return Err(OTError::IncompatibleOperationScope(scope1, scope2));
                }
                let len1 = op1.len();
                let len2 = op2.len();
                let min_len = if len1 <= len2 {
                    len1
                } else {
                    len2
                };
                let attrs1 = op1.get_attrs();
                let attrs2 = op2.get_attrs();
                proof {
                    T::lemma_always_fit(&attrs1, &attrs2);
                    T::lemma_always_fit(&attrs2, &attrs1);
                }
                let out: Option<Operation<D, T>> = match (&op1, &op2) {
                    (Operation::Retain(_, _), Operation::Retain(_, _)) => {
                        match attrs1.compose(&attrs2) {
                            Ok(attrs) => Some(
                                OperationBuilder::retain(scope1, min_len).attrs(attrs).build(),
                            ),
                            Err(e) => {
                                return Err(e);
                            },
                        }
                    },
                    (Operation::Retain(_, _), Operation::Delete(_, _)) => Some(
                        OperationBuilder::delete(scope1, min_len).build(),
                    ),
                    (Operation::Insert(_, _), Operation::Delete(_, _)) => None,
                    (Operation::Insert(_, _), Operation::Retain(_, _)) => {
                        match attrs1.compose(&attrs2) {
                            Ok(attrs) => Some(
                                OperationBuilder::insert(
                                    scope1,
                                    op1.get_data().truncate_before(min_len),
                                ).attrs(attrs).build(),
                            ),
                            Err(e) => {
                                return Err(e);
                            },
                        }
                    },
                    _ => {
                        return Err(
                            OTError::IncompatibleOperationType(op1.kind_name(), op2.kind_name()),
                        );
                    },
                };
                assert(walk::compose_pair(op1@, op2@) == Ok::<Option<OpModel<D, T>>, OTError>(
                    match out {
                        Some(op) => Some(op@),
                        None => None,
                    },
                ));
                match &out {
                    Some(op) => {
                        proof {
                            lemma_compose_fits(self, other, a, b, acc, op@);
                        }
                        new_delta.add(op)?;
                    },
                    None => {},
                }
                elem1 = consume(self, op1, &mut next1, min_len);
                elem2 = consume(other, op2, &mut next2, min_len);
            }
        }
    }

    /// Walks `self` and `other`, two deltas made against the same base, and
    /// builds the pair that reconciles them: the self result applies after
    /// `other`, the other after `self`. Where both insert at one place,
    /// what `self` inserts comes self.
    fn transform(&self, other: &Self) -> (r: Result<(Self, Self), OTError>)
        ensures
            match r {
                Ok((a, b)) => a.wf() && b.wf() && walk::transform_seq(self@, other@) == Ok::<
                    (Seq<OpModel<D, T>>, Seq<OpModel<D, T>>),
                    OTError,
                >((a@, b@)),
                Err(e) => walk::transform_seq(self@, other@) == Err::<
                    (Seq<OpModel<D, T>>, Seq<OpModel<D, T>>),
                    OTError,
                >(e),
            },
    {
        let mut new_delta: Delta<D, T> = Delta::default();
        let mut new_other_delta: Delta<D, T> = Delta::default();
        proof {
            lemma_same_base_by_map(self, other);
        }
        if !self.is_len_equal(other, LengthKind::Base, LengthKind::Base) {
            return Err(OTError::IncompatibleDeltaLength("base", "base"));
        }
        let mut next1: usize = 0;
        let mut next2: usize = 0;
        let mut elem1 = next_op(self, &mut next1);
        let mut elem2 = next_op(other, &mut next2);
        proof {
            assert(self@.skip(0) =~= self@);
            assert(other@.skip(0) =~= other@);
        }
        loop
            invariant
                self.wf(),
                other.wf(),
                fits_together(self@, other@),
                new_delta.wf(),
                new_other_delta.wf(),
                cursor_ok(elem1, self@, next1 as int),
                cursor_ok(elem2, other@, next2 as int),
                walk::transform_seq(self@, other@) == walk::transform_walk(
                    pending(elem1, self@, next1 as int),
                    pending(elem2, other@, next2 as int),
                    new_delta@,
                    new_other_delta@,
                ),
                walk::transform_lens(
                    self@,
                    other@,
                    pending(elem1, self@, next1 as int),
                    pending(elem2, other@, next2 as int),
                    new_delta@,
                    new_other_delta@,
                ),
            decreases
                pending(elem1, self@, next1 as int).len() + pending(elem2, other@, next2 as int).len(),
        {
            let ghost a = pending(elem1, self@, next1 as int);
            let ghost b = pending(elem2, other@, next2 as int);
            let ghost acc_a = new_delta@;
            let ghost acc_b = new_other_delta@;
            let first_inserts = match &elem1 {
                Some(Operation::Insert(_, _)) => true,
                _ => false,
            };
            let second_inserts = match &elem2 {
                Some(Operation::Insert(_, _)) => true,
                _ => false,
            };
            proof {
                if walk::transform_step(a, b, acc_a, acc_b) is Next {
                    lemma_transform_fits(self, other, a, b, acc_a, acc_b);
                }
            }
            if first_inserts {
                let op = elem1.unwrap();
                let over = retain_over(&op);
                proof {
                    model::lemma_add_op_len(acc_a, op@, op@.scope());
                    model::lemma_add_op_len(acc_b, over@, over@.scope());
                    assert(a.drop_first() =~= self@.skip(next1 as int));
                }
                new_delta.add(&op)?;
                new_other_delta.add(&over)?;
                elem1 = next_op(self, &mut next1);
            } else if second_inserts {
                let op = elem2.unwrap();
                let over = retain_over(&op);
                proof {
                    model::lemma_add_op_len(acc_a, over@, over@.scope());
                    model::lemma_add_op_len(acc_b, op@, op@.scope());
                    assert(b.drop_first() =~= other@.skip(next2 as int));
                }
                new_delta.add(&over)?;
                new_other_delta.add(&op)?;
                elem2 = next_op(other, &mut next2);
            } else if elem1.is_none() && elem2.is_none() {
                return Ok((new_delta, new_other_delta));
            } else if elem1.is_none() {
                return Err(OTError::IncompatibleOperationLength("first"));
            } else if elem2.is_none() {
                return Err(OTError::IncompatibleOperationLength("second"));
            } else {
                let op1 = elem1.unwrap();
                let op2 = elem2.unwrap();
                let scope1 = op1.get_scope();
                let scope2 = op2.get_scope();
                if scope1 != scope2 {
                    return Err(OTError::IncompatibleOperationScope(scope1, scope2));
                }
                let len1 = op1.len();
                let len2 = op2.len();
                let min_len = if len1 <= len2 {
                    len1
                } else {
                    len2
                };
                let attrs1 = op1.get_attrs();
                let attrs2 = op2.get_attrs();
                proof {
                    T::lemma_always_fit(&attrs1, &attrs2);
                    T::lemma_always_fit(&attrs2, &attrs1);
                }
                match (&op1, &op2) {
                    (Operation::Retain(_, _), Operation::Retain(_, _)) => {
                        match attrs1.transform(&attrs2) {
                            Ok((attrs, _)) => {
                                let new_op = OperationBuilder::retain(scope1, min_len).attrs(
                                    attrs,
                                ).build();
                                proof {
                                    model::lemma_add_op_len(acc_a, new_op@, scope1);
                                    model::lemma_add_op_len(acc_b, new_op@, scope1);
                                }
                                new_delta.add(&new_op)?;
                                new_other_delta.add(&new_op)?;
                            },
                            Err(e) => {
                                return Err(e);
                            },
                        }
                    },
                    (Operation::Delete(_, _), Operation::Delete(_, _)) => {},
                    (Operation::Delete(_, _), Operation::Retain(_, _)) => {
                        let new_op = OperationBuilder::delete(scope1, min_len).build();
                        proof {
                            model::lemma_add_op_len(acc_a, new_op@, scope1);
                        }
                        new_delta.add(&new_op)?;
                    },
                    (Operation::Retain(_, _), Operation::Delete(_, _)) => {
                        let new_op = OperationBuilder::delete(scope1, min_len).build();
                        proof {
                            model::lemma_add_op_len(acc_b, new_op@, scope1);
                        }
                        new_other_delta.add(&new_op)?;
                    },
                    _ => {
                        return Err(
                            OTError::IncompatibleOperationType(op1.kind_name(), op2.kind_name()),
                        );
                    },
                }
                elem1 = consume(self, op1, &mut next1, min_len);
                elem2 = consume(other, op2, &mut next2, min_len);
            }
        }
    }

    /// Walks the self `self` along `other`, the delta that the self was
    /// other into, and builds the delta that undoes the self: it
    /// deletes what the self inserted and undoes its changes of
    /// formatting. What the self deleted is held by neither delta, and is
    /// not restored.
    fn invert(&self, other: &Self) -> (r: Self)
        ensures
            r.wf(),
            r@ == walk::invert_seq(self@, other@),
    {
        let mut new_delta: Delta<D, T> = Delta::default();
        let mut next1: usize = 0;
        let mut next2: usize = 0;
        let mut elem1 = next_op(self, &mut next1);
        let mut elem2 = next_op(other, &mut next2);
        proof {
            assert(self@.skip(0) =~= self@);
            assert(other@.skip(0) =~= other@);
        }
        loop
            invariant
                self.wf(),
                other.wf(),
                new_delta.wf(),
                cursor_ok(elem1, self@, next1 as int),
                cursor_ok(elem2, other@, next2 as int),
                walk::invert_seq(self@, other@) == walk::invert_walk(
                    pending(elem1, self@, next1 as int),
                    pending(elem2, other@, next2 as int),
                    new_delta@,
                ),
                walk::invert_lens(self@, pending(elem1, self@, next1 as int), new_delta@),
            decreases
                pending(elem1, self@, next1 as int).len() + pending(
                    elem2,
                    other@,
                    next2 as int,
                ).len(),
        {
            let ghost a = pending(elem1, self@, next1 as int);
            let ghost o = pending(elem2, other@, next2 as int);
            let ghost acc = new_delta@;
            let second_deletes = match &elem2 {
                Some(Operation::Delete(_, _)) => true,
                _ => false,
            };
            let first_deletes = match &elem1 {
                Some(Operation::Delete(_, _)) => true,
                _ => false,
            };
            proof {
                if walk::invert_step(a, o, acc) is Next {
                    walk::lemma_invert_step_keeps_lens(self@, a, o, acc);
                }
            }
            if second_deletes {
                proof {
                    assert(o.drop_first() =~= other@.skip(next2 as int));
                }
                elem2 = next_op(other, &mut next2);
            } else if elem1.is_none() {
                return new_delta;
            } else if first_deletes {
                proof {
                    assert(a.drop_first() =~= self@.skip(next1 as int));
                }
                elem1 = next_op(self, &mut next1);
            } else if elem2.is_none() {
                let op = elem1.unwrap();
                let against = T::default();
                proof {
                    T::lemma_default(&against);
                    assert(a.drop_first() =~= self@.skip(next1 as int));
                }
                let out = invert_op(&op, op.len(), &against);
                match &out {
                    Some(undo) => {
                        proof {
                            lemma_invert_fits(self, a, o, acc, undo@);
                        }
                        let added = new_delta.add(undo);
                    },
                    None => {},
                }
                elem1 = next_op(self, &mut next1);
            } else {
                let op1 = elem1.unwrap();
                let op2 = elem2.unwrap();
                let len1 = op1.len();
                let len2 = op2.len();
                let min_len = if len1 <= len2 {
                    len1
                } else {
                    len2
                };
                let against = op2.get_attrs();
                let out = invert_op(&op1, min_len, &against);
                match &out {
                    Some(undo) => {
                        proof {
                            lemma_invert_fits(self, a, o, acc, undo@);
                        }
                        let added = new_delta.add(undo);
                    },
                    None => {},
                }
                elem1 = consume(self, op1, &mut next1, min_len);
                elem2 = consume(other, op2, &mut next2, min_len);
            }
        }
    }
}

/// For two well-formed deltas, the length maps say whether the first
/// produces, in every scope, what the second consumes.
proof fn lemma_composable_by_map<D: Data, T: Attributes>(first: &Delta<D, T>, second: &Delta<D, T>)
    requires
        first.wf(),
        second.wf(),
    ensures
        lens_equal(first.len_map@, LengthKind::Target, second.len_map@, LengthKind::Base)
            == walk::composable(first@, second@),
{
    if walk::composable(first@, second@) {
        assert forall|s: OperationScope|
            #![trigger recorded(first.len_map@, s)]
            #![trigger recorded(second.len_map@, s)]
            recorded(first.len_map@, s).get(LengthKind::Target) == recorded(
                second.len_map@,
                s,
            ).get(LengthKind::Base) by {
            assert(model::target_len(first@, s) == model::base_len(second@, s));
            assert(recorded(first.len_map@, s).target_len == model::target_len(first@, s));
            assert(recorded(second.len_map@, s).base_len == model::base_len(second@, s));
        }
    }
    if lens_equal(first.len_map@, LengthKind::Target, second.len_map@, LengthKind::Base) {
        assert forall|s: OperationScope| #[trigger]
            model::target_len(first@, s) == model::base_len(second@, s) by {
            assert(recorded(first.len_map@, s).get(LengthKind::Target) == recorded(
                second.len_map@,
                s,
            ).get(LengthKind::Base));
            assert(recorded(first.len_map@, s).target_len == model::target_len(first@, s));
            assert(recorded(second.len_map@, s).base_len == model::base_len(second@, s));
        }
    }
}

/// For two well-formed deltas, the length maps say whether the two consume
/// the same in every scope.
proof fn lemma_same_base_by_map<D: Data, T: Attributes>(first: &Delta<D, T>, second: &Delta<D, T>)
    requires
        first.wf(),
        second.wf(),
    ensures
        lens_equal(first.len_map@, LengthKind::Base, second.len_map@, LengthKind::Base)
            == walk::same_base(first@, second@),
{
    if walk::same_base(first@, second@) {
        assert forall|s: OperationScope|
            #![trigger recorded(first.len_map@, s)]
            #![trigger recorded(second.len_map@, s)]
            recorded(first.len_map@, s).get(LengthKind::Base) == recorded(
                second.len_map@,
                s,
            ).get(LengthKind::Base) by {
            assert(model::base_len(first@, s) == model::base_len(second@, s));
            assert(recorded(first.len_map@, s).base_len == model::base_len(first@, s));
            assert(recorded(second.len_map@, s).base_len == model::base_len(second@, s));
        }
    }
    if lens_equal(first.len_map@, LengthKind::Base, second.len_map@, LengthKind::Base) {
        assert forall|s: OperationScope| #[trigger]
            model::base_len(first@, s) == model::base_len(second@, s) by {
            assert(recorded(first.len_map@, s).get(LengthKind::Base) == recorded(
                second.len_map@,
                s,
            ).get(LengthKind::Base));
            assert(recorded(first.len_map@, s).base_len == model::base_len(first@, s));
            assert(recorded(second.len_map@, s).base_len == model::base_len(second@, s));
        }
    }
}

/// What undoes `m` units of `op`, with formatting undone against `against`.
fn invert_op<D: Data, T: Attributes>(op: &Operation<D, T>, m: usize, against: &T) -> (r: Option<
    Operation<D, T>,
>)
    ensures
        walk::invert_op(op@, m as nat, against.model()) == (match r {
            Some(out) => Some(out@),
            None => None,
        }),
{
    match op {
        Operation::Delete(_, _) => None,
        Operation::Retain(s, retain) => {
            proof {
                T::lemma_always_fit(&retain.attrs, against);
                T::lemma_always_fit(against, &retain.attrs);
            }
            let attrs = retain.attrs.invert(against);
            Some(OperationBuilder::retain(*s, m).attrs(attrs).build())
        },
        Operation::Insert(s, _) => Some(OperationBuilder::delete(*s, m).build()),
    }
}


/// While `compose` walks two well-formed deltas, whatever a step appends to
/// the result keeps the result's lengths within those of the two deltas, and
/// so within `usize`.
proof fn lemma_compose_fits<D: Data, T: Attributes>(
    first: &Delta<D, T>,
    second: &Delta<D, T>,
    a: Seq<OpModel<D, T>>,
    b: Seq<OpModel<D, T>>,
    acc: Seq<OpModel<D, T>>,
    op: OpModel<D, T>,
)
    requires
        first.wf(),
        second.wf(),
        walk::compose_lens(first@, second@, a, b, acc),
        walk::compose_step(a, b, acc) is Next,
        (walk::compose_step(a, b, acc)->Next_0).2 == model::add_op(acc, op),
    ensures
        model::base_len(acc, op.scope()) + op.base_in(op.scope()) <= usize::MAX,
        model::target_len(acc, op.scope()) + op.target_in(op.scope()) <= usize::MAX,
{
    let s = op.scope();
    let (a2, b2, acc2) = walk::compose_step(a, b, acc)->Next_0;
    walk::lemma_compose_step_keeps_lens(first@, second@, a, b, acc);
    model::lemma_add_op_len(acc, op, s);
    assert(model::base_len(acc2, s) + model::base_len(a2, s) == model::base_len(first@, s));
    assert(model::target_len(acc2, s) + model::target_len(b2, s) == model::target_len(second@, s));
    assert(recorded(first.len_map@, s).base_len == model::base_len(first@, s));
    assert(recorded(second.len_map@, s).target_len == model::target_len(second@, s));
}


/// While `transform` walks two well-formed deltas that fit together, the
/// lengths of both results stay within `usize` after every step.
proof fn lemma_transform_fits<D: Data, T: Attributes>(
    first: &Delta<D, T>,
    second: &Delta<D, T>,
    a: Seq<OpModel<D, T>>,
    b: Seq<OpModel<D, T>>,
    acc_a: Seq<OpModel<D, T>>,
    acc_b: Seq<OpModel<D, T>>,
)
    requires
        first.wf(),
        second.wf(),
        fits_together(first@, second@),
        walk::transform_lens(first@, second@, a, b, acc_a, acc_b),
        walk::transform_step(a, b, acc_a, acc_b) is Next,
    ensures
        ({
            let (a2, b2, acc_a2, acc_b2) = walk::transform_step(a, b, acc_a, acc_b)->Next_0;
            &&& walk::transform_lens(first@, second@, a2, b2, acc_a2, acc_b2)
            &&& forall|s: OperationScope|
                #![trigger model::base_len(acc_a2, s)]
                #![trigger model::target_len(acc_a2, s)]
                model::base_len(acc_a2, s) <= usize::MAX && model::target_len(acc_a2, s)
                    <= usize::MAX
            &&& forall|s: OperationScope|
                #![trigger model::base_len(acc_b2, s)]
                #![trigger model::target_len(acc_b2, s)]
                model::base_len(acc_b2, s) <= usize::MAX && model::target_len(acc_b2, s)
                    <= usize::MAX
        }),
{
    let (a2, b2, acc_a2, acc_b2) = walk::transform_step(a, b, acc_a, acc_b)->Next_0;
    walk::lemma_transform_step_keeps_lens(first@, second@, a, b, acc_a, acc_b);
    assert forall|s: OperationScope|
        #![trigger model::base_len(acc_a2, s)]
        #![trigger model::target_len(acc_a2, s)]
        model::base_len(acc_a2, s) <= usize::MAX && model::target_len(acc_a2, s)
            <= usize::MAX by {
        assert(model::base_len(acc_a2, s) + model::target_len(b2, s) == model::target_len(
            second@,
            s,
        ));
        assert(model::target_len(acc_a2, s) + model::target_len(a2, s) + model::target_len(b2, s)
            <= model::target_len(first@, s) + model::target_len(second@, s));
        assert(recorded(second.len_map@, s).target_len == model::target_len(second@, s));
        assert(model::target_len(first@, s) + model::target_len(second@, s) <= usize::MAX);
    }
    assert forall|s: OperationScope|
        #![trigger model::base_len(acc_b2, s)]
        #![trigger model::target_len(acc_b2, s)]
        model::base_len(acc_b2, s) <= usize::MAX && model::target_len(acc_b2, s)
            <= usize::MAX by {
        assert(model::base_len(acc_b2, s) + model::target_len(a2, s) == model::target_len(
            first@,
            s,
        ));
        assert(model::target_len(acc_b2, s) + model::target_len(a2, s) + model::target_len(b2, s)
            <= model::target_len(first@, s) + model::target_len(second@, s));
        assert(recorded(first.len_map@, s).target_len == model::target_len(first@, s));
        assert(model::target_len(first@, s) + model::target_len(second@, s) <= usize::MAX);
    }
}


/// While `invert` walks a well-formed change, whatever a step appends to
/// the result keeps the result's lengths within those of the change, and so
/// within `usize`.
proof fn lemma_invert_fits<D: Data, T: Attributes>(
    change: &Delta<D, T>,
    a: Seq<OpModel<D, T>>,
    o: Seq<OpModel<D, T>>,
    acc: Seq<OpModel<D, T>>,
    op: OpModel<D, T>,
)
    requires
        change.wf(),
        walk::invert_lens(change@, a, acc),
        walk::invert_step(a, o, acc) is Next,
        (walk::invert_step(a, o, acc)->Next_0).2 == model::add_op(acc, op),
    ensures
        model::base_len(acc, op.scope()) + op.base_in(op.scope()) <= usize::MAX,
        model::target_len(acc, op.scope()) + op.target_in(op.scope()) <= usize::MAX,
{
    let s = op.scope();
    let (a2, o2, acc2) = walk::invert_step(a, o, acc)->Next_0;
    walk::lemma_invert_step_keeps_lens(change@, a, o, acc);
    model::lemma_add_op_len(acc, op, s);
    assert(model::base_len(acc2, s) + model::target_len(a2, s) == model::target_len(change@, s));
    assert(model::target_len(acc2, s) + model::base_len(a2, s) <= model::base_len(change@, s));
    assert(recorded(change.len_map@, s).base_len == model::base_len(change@, s));
    assert(recorded(change.len_map@, s).target_len == model::target_len(change@, s));
}

} // verus!
