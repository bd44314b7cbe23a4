use crate::operation::{Delete, Insert, OpModel, Operation, Retain};
use crate::scope::OperationScope;
use crate::traits::{Attributes, Data};
use vstd::prelude::*;

verus! {

/// Builds one operation from its kind, scope, length or content, and
/// formatting. It filters nothing: an empty operation is built as asked.
pub struct OperationBuilder<D: Data, T: Attributes> {
    op: Operation<D, T>,
    attrs: T,
}

impl<D: Data, T: Attributes> OperationBuilder<D, T> {
    /// The operation that `build` will give.
    pub closed spec fn built(&self) -> OpModel<D, T> {
        match self.op@ {
            OpModel::Delete(s, n) => OpModel::Delete(s, n),
            OpModel::Retain(s, n, _) => OpModel::Retain(s, n, self.attrs.model()),
            OpModel::Insert(s, data, _) => OpModel::Insert(s, data, self.attrs.model()),
        }
    }

    fn new(op: Operation<D, T>) -> (r: Self)
        ensures
            r.op@ == op@,
            r.attrs.model() == T::default_model(),
    {
        let attrs = T::default();
        proof {
            T::lemma_default(&attrs);
        }
        Self { op, attrs }
    }

    pub fn delete(scope: OperationScope, n: usize) -> (r: Self)
        ensures
            r.built() == OpModel::<D, T>::Delete(scope, n as nat),
    {
        Self::new(Operation::Delete(scope, Delete(n)))
    }

    pub fn retain(scope: OperationScope, n: usize) -> (r: Self)
        ensures
            r.built() == OpModel::<D, T>::Retain(scope, n as nat, T::default_model()),
    {
        Self::new(Operation::Retain(scope, Retain { n, attrs: T::default() }))
    }

    pub fn insert(scope: OperationScope, data: D) -> (r: Self)
        ensures
            r.built() == OpModel::<D, T>::Insert(scope, data.units(), T::default_model()),
    {
        Self::new(Operation::Insert(scope, Insert { data, attrs: T::default() }))
    }

    /// Sets the formatting; a delete carries none, whatever is set.
    pub fn attrs(self, attrs: T) -> (r: Self)
        ensures
            r.built() == (match self.built() {
                OpModel::Delete(s, n) => OpModel::<D, T>::Delete(s, n),
                OpModel::Retain(s, n, _) => OpModel::Retain(s, n, attrs.model()),
                OpModel::Insert(s, data, _) => OpModel::Insert(s, data, attrs.model()),
            }),
    {
        Self { op: self.op, attrs }
    }

    pub fn build(self) -> (op: Operation<D, T>)
        ensures
            op@ == self.built(),
    {
        match self.op {
            Operation::Delete(s, d) => Operation::Delete(s, d),
            Operation::Retain(s, r) => Operation::Retain(s, Retain { n: r.n, attrs: self.attrs }),
            Operation::Insert(s, i) => Operation::Insert(
                s,
                Insert { data: i.data, attrs: self.attrs },
            ),
        }
    }
}

} // verus!
