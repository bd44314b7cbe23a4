use crate::scope::OperationScope;
use crate::traits::{Attributes, Data};
use vstd::prelude::*;

verus! {

/// Removes a number of units of the base document.
#[derive(Debug)]
pub struct Delete(pub usize);

/// Keeps a number of units of the base document and changes their
/// formatting by `attrs`.
#[derive(Debug)]
pub struct Retain<T: Attributes> {
    pub n: usize,
    pub attrs: T,
}

/// Adds content with its formatting.
#[derive(Debug)]
pub struct Insert<D: Data, T: Attributes> {
    pub data: D,
    pub attrs: T,
}

/// One primitive edit in one scope.
#[derive(Debug)]
pub enum Operation<D: Data, T: Attributes> {
    Delete(OperationScope, Delete),
    Retain(OperationScope, Retain<T>),
    Insert(OperationScope, Insert<D, T>),
}

/// What an operation stands for: its kind, its scope, and a length, or the
/// units inserted, with the formatting as its own model.
pub ghost enum OpModel<D: Data, T: Attributes> {
    Delete(OperationScope, nat),
    Retain(OperationScope, nat, T::Model),
    Insert(OperationScope, Seq<D::Unit>, T::Model),
}

impl<D: Data, T: Attributes> OpModel<D, T> {
    pub open spec fn scope(self) -> OperationScope {
        match self {
            OpModel::Delete(s, _) => s,
            OpModel::Retain(s, _, _) => s,
            OpModel::Insert(s, _, _) => s,
        }
    }

    /// Units deleted, retained or inserted.
    pub open spec fn len(self) -> nat {
        match self {
            OpModel::Delete(_, n) => n,
            OpModel::Retain(_, n, _) => n,
            OpModel::Insert(_, data, _) => data.len(),
        }
    }

    /// The formatting carried; a delete carries the default one.
    pub open spec fn attrs(self) -> T::Model {
        match self {
            OpModel::Delete(_, _) => T::default_model(),
            OpModel::Retain(_, _, attrs) => attrs,
            OpModel::Insert(_, _, attrs) => attrs,
        }
    }

    /// The content carried; only an insert carries any.
    pub open spec fn data(self) -> Seq<D::Unit> {
        match self {
            OpModel::Delete(_, _) => Seq::empty(),
            OpModel::Retain(_, _, _) => Seq::empty(),
            OpModel::Insert(_, data, _) => data,
        }
    }

    /// Units of the base document that the operation consumes in `scope`.
    pub open spec fn base_in(self, scope: OperationScope) -> nat {
        match self {
            OpModel::Delete(s, n) => if s == scope { n } else { 0 },
            OpModel::Retain(s, n, _) => if s == scope { n } else { 0 },
            OpModel::Insert(_, _, _) => 0,
        }
    }

    /// Units of the target document that the operation produces in `scope`.
    pub open spec fn target_in(self, scope: OperationScope) -> nat {
        match self {
            OpModel::Delete(_, _) => 0,
            OpModel::Retain(s, n, _) => if s == scope { n } else { 0 },
            OpModel::Insert(s, data, _) => if s == scope { data.len() } else { 0 },
        }
    }

    /// Same kind and same scope: two such operations never stand side by
    /// side in a delta.
    pub open spec fn same_run(self, other: Self) -> bool {
        self.scope() == other.scope() && match (self, other) {
            (OpModel::Delete(_, _), OpModel::Delete(_, _)) => true,
            (OpModel::Retain(_, _, _), OpModel::Retain(_, _, _)) => true,
            (OpModel::Insert(_, _, _), OpModel::Insert(_, _, _)) => true,
            _ => false,
        }
    }

    /// What is left of the operation once its first `k` units are consumed.
    pub open spec fn rest(self, k: nat) -> Self {
        match self {
            OpModel::Delete(s, n) => OpModel::Delete(s, (n - k) as nat),
            OpModel::Retain(s, n, attrs) => OpModel::Retain(s, (n - k) as nat, attrs),
            OpModel::Insert(s, data, attrs) => OpModel::Insert(s, data.skip(k as int), attrs),
        }
    }

    /// The first `k` units of the operation, as an operation of its own.
    pub open spec fn first(self, k: nat) -> Self {
        match self {
            OpModel::Delete(s, _) => OpModel::Delete(s, k),
            OpModel::Retain(s, _, attrs) => OpModel::Retain(s, k, attrs),
            OpModel::Insert(s, data, attrs) => OpModel::Insert(s, data.take(k as int), attrs),
        }
    }

    /// The name of the operation's kind.
    pub open spec fn kind_name(self) -> &'static str {
        match self {
            OpModel::Delete(_, _) => "Delete",
            OpModel::Retain(_, _, _) => "Retain",
            OpModel::Insert(_, _, _) => "Insert",
        }
    }
}

impl Clone for Delete {
    fn clone(&self) -> (r: Self)
        ensures
            r == *self,
    {
        Delete(self.0)
    }
}

impl<T: Attributes> Clone for Retain<T> {
    fn clone(&self) -> (r: Self)
        ensures
            r.n == self.n,
            r.attrs.model() == self.attrs.model(),
    {
        let attrs = self.attrs.clone();
        proof {
            T::lemma_clone(&self.attrs, &attrs);
        }
        Retain { n: self.n, attrs }
    }
}

impl<D: Data, T: Attributes> Clone for Insert<D, T> {
    fn clone(&self) -> (r: Self)
        ensures
            r.data.units() == self.data.units(),
            r.attrs.model() == self.attrs.model(),
    {
        let data = self.data.clone();
        let attrs = self.attrs.clone();
        proof {
            D::lemma_clone(&self.data, &data);
            T::lemma_clone(&self.attrs, &attrs);
        }
        Insert { data, attrs }
    }
}

impl<D: Data, T: Attributes> View for Operation<D, T> {
    type V = OpModel<D, T>;

    open spec fn view(&self) -> OpModel<D, T> {
        match self {
            Operation::Delete(s, d) => OpModel::Delete(*s, d.0 as nat),
            Operation::Retain(s, r) => OpModel::Retain(*s, r.n as nat, r.attrs.model()),
            Operation::Insert(s, i) => OpModel::Insert(*s, i.data.units(), i.attrs.model()),
        }
    }
}

impl<D: Data, T: Attributes> Clone for Operation<D, T> {
    fn clone(&self) -> (r: Self)
        ensures
            r@ == self@,
    {
        match self {
            Operation::Delete(s, d) => Operation::Delete(*s, d.clone()),
            Operation::Retain(s, r) => Operation::Retain(*s, r.clone()),
            Operation::Insert(s, i) => Operation::Insert(*s, i.clone()),
        }
    }
}

impl<D: Data, T: Attributes> Operation<D, T> {
    pub fn get_scope(&self) -> (scope: OperationScope)
        ensures
            scope == self@.scope(),
    {
        match self {
            Operation::Delete(scope, _) => *scope,
            Operation::Retain(scope, _) => *scope,
            Operation::Insert(scope, _) => *scope,
        }
    }

    /// The content of an insert; no content for the other kinds.
    pub fn get_data(&self) -> (data: D)
        ensures
            data.units() == self@.data(),
    {
        match self {
            Operation::Insert(_, insert) => {
                let data = insert.data.clone();
                proof {
                    D::lemma_clone(&insert.data, &data);
                }
                data
            },
            _ => {
                let data = D::default();
                proof {
                    D::lemma_default(&data);
                    assert(data.units() =~= Seq::empty());
                }
                data
            },
        }
    }

    /// The formatting of a retain or an insert; the default one for a delete.
    pub fn get_attrs(&self) -> (attrs: T)
        ensures
            attrs.model() == self@.attrs(),
    {
        match self {
            Operation::Delete(_, _) => {
                let attrs = T::default();
                proof {
                    T::lemma_default(&attrs);
                }
                attrs
            },
            Operation::Retain(_, retain) => {
                let attrs = retain.attrs.clone();
                proof {
                    T::lemma_clone(&retain.attrs, &attrs);
                }
                attrs
            },
            Operation::Insert(_, insert) => {
                let attrs = insert.attrs.clone();
                proof {
                    T::lemma_clone(&insert.attrs, &attrs);
                }
                attrs
            },
        }
    }

    pub fn has_attrs(&self) -> (b: bool)
        ensures
            b == !T::is_empty_model(self@.attrs()),
    {
        !self.get_attrs().is_empty()
    }

    pub fn len(&self) -> (n: usize)
        ensures
            n == self@.len(),
    {
        match self {
            Operation::Delete(_, delete) => delete.0,
            Operation::Retain(_, retain) => retain.n,
            Operation::Insert(_, insert) => insert.data.len(),
        }
    }
}

} // verus!
