use crate::error::OTError;
use std::fmt::Debug;
use vstd::prelude::*;

verus! {

/// The three operators of the algebra. Each type states what its values stand
/// for (`model`) and names, over those models, the result of each operator.
pub trait OperationTransformable: Sized {
    /// What a value stands for in contracts.
    type Model;

    spec fn model(&self) -> Self::Model;

    /// The invariant that the operators expect of their operands and
    /// establish for their results.
    spec fn well_formed(&self) -> bool;

    /// Whether the results of `transform` can be represented.
    spec fn transform_fits(&self, other: &Self) -> bool;

    spec fn compose_model(a: Self::Model, b: Self::Model) -> Result<Self::Model, OTError>;

    spec fn transform_model(a: Self::Model, b: Self::Model) -> Result<
        (Self::Model, Self::Model),
        OTError,
    >;

    spec fn invert_model(a: Self::Model, b: Self::Model) -> Self::Model;

    /// Merges `self` and then `other` into one value.
    fn compose(&self, other: &Self) -> (r: Result<Self, OTError>)
        requires
            self.well_formed(),
            other.well_formed(),
        ensures
            match r {
                Ok(c) => c.well_formed() && Self::compose_model(self.model(), other.model())
                    == Ok::<Self::Model, OTError>(c.model()),
                Err(e) => Self::compose_model(self.model(), other.model()) == Err::<
                    Self::Model,
                    OTError,
                >(e),
            },
    ;

    /// Reconciles two values made against the same base: the first result
    /// applies after `other`, the second after `self`.
    fn transform(&self, other: &Self) -> (r: Result<(Self, Self), OTError>)
        requires
            self.well_formed(),
            other.well_formed(),
            self.transform_fits(other),
        ensures
            match r {
                Ok((a, b)) => a.well_formed() && b.well_formed() && Self::transform_model(
                    self.model(),
                    other.model(),
                ) == Ok::<(Self::Model, Self::Model), OTError>((a.model(), b.model())),
                Err(e) => Self::transform_model(self.model(), other.model()) == Err::<
                    (Self::Model, Self::Model),
                    OTError,
                >(e),
            },
    ;

    /// The value that undoes `self` where `other` is what `self` was
    /// composed into.
    fn invert(&self, other: &Self) -> (r: Self)
        requires
            self.well_formed(),
            other.well_formed(),
        ensures
            r.well_formed(),
            r.model() == Self::invert_model(self.model(), other.model()),
    ;
}

/// Formatting metadata carried by retained and inserted spans.
pub trait Attributes: Default + Debug + Clone + OperationTransformable + PartialEq + Eq {
    spec fn is_empty_model(m: Self::Model) -> bool;

    spec fn remove_empty_model(m: Self::Model) -> Self::Model;

    spec fn extend_model(m: Self::Model, other: Self::Model) -> Self::Model;

    /// What `Default::default` stands for.
    spec fn default_model() -> Self::Model;

    fn is_empty(&self) -> (b: bool)
        ensures
            b == Self::is_empty_model(self.model()),
    ;

    fn remove_empty(&mut self)
        ensures
            final(self).model() == Self::remove_empty_model(old(self).model()),
    ;

    fn extend_other(&mut self, other: &Self)
        ensures
            final(self).model() == Self::extend_model(old(self).model(), other.model()),
    ;

    /// Every value is fit for the operators, with any other.
    proof fn lemma_always_fit(a: &Self, b: &Self)
        ensures
            a.well_formed(),
            a.transform_fits(b),
    ;

    /// A clone stands for what the cloned value stands for.
    proof fn lemma_clone(a: &Self, b: &Self)
        requires
            cloned(*a, *b),
        ensures
            a.model() == b.model(),
    ;

    /// The default value stands for `default_model`.
    proof fn lemma_default(a: &Self)
        requires
            call_ensures(Self::default, (), *a),
        ensures
            a.model() == Self::default_model(),
    ;
}

/// Content that inserts carry: a run of units that can be measured, joined
/// and split.
pub trait Data: Default + Debug + Clone + PartialEq + Eq {
    /// One unit of content.
    type Unit;

    /// The units that a value holds, in order.
    spec fn units(&self) -> Seq<Self::Unit>;

    fn len(&self) -> (n: usize)
        ensures
            n == self.units().len(),
    ;

    fn is_empty(&self) -> (b: bool)
        ensures
            b == (self.units().len() == 0),
    ;

    /// Appends the units of `other`.
    fn merge(&mut self, other: Self)
        requires
            old(self).units().len() + other.units().len() <= usize::MAX,
        ensures
            final(self).units() == old(self).units() + other.units(),
    ;

    /// The first `index` units.
    fn truncate_before(&self, index: usize) -> (r: Self)
        requires
            index <= self.units().len(),
        ensures
            r.units() == self.units().take(index as int),
    ;

    /// The units from `index` on.
    fn truncate_after(&self, index: usize) -> (r: Self)
        requires
            index <= self.units().len(),
        ensures
            r.units() == self.units().skip(index as int),
    ;

    /// A clone holds the same units.
    proof fn lemma_clone(a: &Self, b: &Self)
        requires
            cloned(*a, *b),
        ensures
            a.units() == b.units(),
    ;

    /// The default value holds no unit.
    proof fn lemma_default(a: &Self)
        requires
            call_ensures(Self::default, (), *a),
        ensures
            a.units().len() == 0,
    ;
}

} // verus!
