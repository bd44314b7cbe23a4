use crate::builder::OperationBuilder;
use crate::error::OTError;
use crate::model;
use crate::operation::{Delete, Insert, OpModel, Operation, Retain};
use crate::scope::OperationScope;
use crate::traits::{Attributes, Data};
use vstd::prelude::*;

verus! {

/// The lengths of a delta in one scope: units of the base document that it
/// consumes, and units of the target document that it produces.
#[derive(Debug, Clone, Copy)]
pub struct DeltaLength {
    pub base_len: usize,
    pub target_len: usize,
}

impl Default for DeltaLength {
    fn default() -> (r: Self)
        ensures
            r.base_len == 0,
            r.target_len == 0,
    {
        DeltaLength { base_len: 0, target_len: 0 }
    }
}

/// Which of the two lengths of a scope is meant.
#[derive(Debug, Clone, Copy, PartialEq, Eq, Structural)]
pub enum LengthKind {
    Base,
    Target,
}

impl DeltaLength {
    pub open spec fn get(self, kind: LengthKind) -> nat {
        match kind {
            LengthKind::Base => self.base_len as nat,
            LengthKind::Target => self.target_len as nat,
        }
    }

    fn pick(&self, kind: LengthKind) -> (n: usize)
        ensures
            n == self.get(kind),
    {
        match kind {
            LengthKind::Base => self.base_len,
            LengthKind::Target => self.target_len,
        }
    }
}

/// Whether the length map holds an entry for `scope`.
pub open spec fn has_entry(m: Seq<(OperationScope, DeltaLength)>, scope: OperationScope) -> bool {
    exists|i: int| 0 <= i < m.len() && (#[trigger] m[i]).0 == scope
}

/// The lengths that the map records for `scope`: zero where it has no entry.
pub open spec fn recorded(m: Seq<(OperationScope, DeltaLength)>, scope: OperationScope) -> DeltaLength {
    if has_entry(m, scope) {
        m[choose|i: int| 0 <= i < m.len() && (#[trigger] m[i]).0 == scope].1
    } else {
        DeltaLength { base_len: 0, target_len: 0 }
    }
}

/// No scope has two entries.
pub open spec fn distinct_scopes(m: Seq<(OperationScope, DeltaLength)>) -> bool {
    forall|i: int, j: int| 0 <= i < j < m.len() ==> (#[trigger] m[i]).0 != (#[trigger] m[j]).0
}

/// With distinct scopes, the entry at an index is what the map records for
/// that entry's scope.
pub proof fn lemma_recorded_at(m: Seq<(OperationScope, DeltaLength)>, i: int)
    requires
        distinct_scopes(m),
        0 <= i < m.len(),
    ensures
        has_entry(m, m[i].0),
        recorded(m, m[i].0) == m[i].1,
{
    let s = m[i].0;
    let j = choose|j: int| 0 <= j < m.len() && (#[trigger] m[j]).0 == s;
    if j < i {
        assert(m[j].0 != m[i].0);
    } else if i < j {
        assert(m[i].0 != m[j].0);
    }
}

/// Replacing the lengths at an index changes what is recorded for that
/// entry's scope, and for no other.
pub proof fn lemma_recorded_update(m: Seq<(OperationScope, DeltaLength)>, i: int, v: DeltaLength)
    requires
        distinct_scopes(m),
        0 <= i < m.len(),
    ensures
        distinct_scopes(m.update(i, (m[i].0, v))),
        forall|s: OperationScope| #[trigger]
            recorded(m.update(i, (m[i].0, v)), s) == if s == m[i].0 {
                v
            } else {
                recorded(m, s)
            },
{
    let m2 = m.update(i, (m[i].0, v));
    assert(distinct_scopes(m2)) by {
        assert forall|a: int, b: int| 0 <= a < b < m2.len() implies (#[trigger] m2[a]).0 != (
        #[trigger] m2[b]).0 by {
            assert(m[a].0 != m[b].0);
        }
    }
    assert forall|s: OperationScope| #[trigger]
        recorded(m2, s) == if s == m[i].0 {
            v
        } else {
            recorded(m, s)
        } by {
        if s == m[i].0 {
            lemma_recorded_at(m2, i);
        } else if has_entry(m, s) {
            let j = choose|j: int| 0 <= j < m.len() && (#[trigger] m[j]).0 == s;
            assert(m2[j] == m[j]);
            lemma_recorded_at(m, j);
            lemma_recorded_at(m2, j);
        } else {
            if has_entry(m2, s) {
                let j = choose|j: int| 0 <= j < m2.len() && (#[trigger] m2[j]).0 == s;
                assert(m[j].0 == s);
            }
        }
    }
}

/// A new entry for a scope that had none changes what is recorded for that
/// scope, and for no other.
pub proof fn lemma_recorded_push(
    m: Seq<(OperationScope, DeltaLength)>,
    scope: OperationScope,
    v: DeltaLength,
)
    requires
        distinct_scopes(m),
        !has_entry(m, scope),
    ensures
        distinct_scopes(m.push((scope, v))),
        forall|s: OperationScope| #[trigger]
            recorded(m.push((scope, v)), s) == if s == scope {
                v
            } else {
                recorded(m, s)
            },
{
    let m2 = m.push((scope, v));
    assert(distinct_scopes(m2)) by {
        assert forall|a: int, b: int| 0 <= a < b < m2.len() implies (#[trigger] m2[a]).0 != (
        #[trigger] m2[b]).0 by {
            if b < m.len() {
                assert(m[a].0 != m[b].0);
            } else {
                assert(m2[a] == m[a]);
            }
        }
    }
    assert forall|s: OperationScope| #[trigger]
        recorded(m2, s) == if s == scope {
            v
        } else {
            recorded(m, s)
        } by {
        if s == scope {
            lemma_recorded_at(m2, m.len() as int);
        } else if has_entry(m, s) {
            let j = choose|j: int| 0 <= j < m.len() && (#[trigger] m[j]).0 == s;
            assert(m2[j] == m[j]);
            lemma_recorded_at(m, j);
            lemma_recorded_at(m2, j);
        } else {
            if has_entry(m2, s) {
                let j = choose|j: int| 0 <= j < m2.len() && (#[trigger] m2[j]).0 == s;
                assert(m[j].0 == s);
            }
        }
    }
}

/// Whether two length maps agree in every scope, on the chosen length of
/// each; a scope without an entry has length zero.
pub open spec fn lens_equal(
    m1: Seq<(OperationScope, DeltaLength)>,
    kind1: LengthKind,
    m2: Seq<(OperationScope, DeltaLength)>,
    kind2: LengthKind,
) -> bool {
    forall|s: OperationScope|
        #![trigger recorded(m1, s)]
        #![trigger recorded(m2, s)]
        recorded(m1, s).get(kind1) == recorded(m2, s).get(kind2)
}

/// A length map that follows an appended operation records the lengths of
/// the delta that the operation was appended to.
pub proof fn lemma_lengths_after_add<D: Data, T: Attributes>(
    ops: Seq<OpModel<D, T>>,
    m0: Seq<(OperationScope, DeltaLength)>,
    m1: Seq<(OperationScope, DeltaLength)>,
    op: OpModel<D, T>,
)
    requires
        forall|s: OperationScope| #[trigger] recorded(m0, s).base_len == model::base_len(ops, s),
        forall|s: OperationScope| #[trigger]
            recorded(m0, s).target_len == model::target_len(ops, s),
        forall|s: OperationScope| #[trigger]
            recorded(m1, s).base_len == recorded(m0, s).base_len + op.base_in(s),
        forall|s: OperationScope| #[trigger]
            recorded(m1, s).target_len == recorded(m0, s).target_len + op.target_in(s),
    ensures
        forall|s: OperationScope| #[trigger]
            recorded(m1, s).base_len == model::base_len(model::add_op(ops, op), s),
        forall|s: OperationScope| #[trigger]
            recorded(m1, s).target_len == model::target_len(model::add_op(ops, op), s),
{
    assert forall|s: OperationScope| #[trigger]
        recorded(m1, s).base_len == model::base_len(model::add_op(ops, op), s) by {
        model::lemma_add_op_len(ops, op, s);
        assert(recorded(m0, s).base_len == model::base_len(ops, s));
    }
    assert forall|s: OperationScope| #[trigger]
        recorded(m1, s).target_len == model::target_len(model::add_op(ops, op), s) by {
        model::lemma_add_op_len(ops, op, s);
        assert(recorded(m0, s).target_len == model::target_len(ops, s));
    }
}

fn lookup(m: &Vec<(OperationScope, DeltaLength)>, scope: OperationScope) -> (r: DeltaLength)
    requires
        distinct_scopes(m@),
    ensures
        r == recorded(m@, scope),
{
    let mut i: usize = 0;
    while i < m.len()
        invariant
            i <= m.len(),
            distinct_scopes(m@),
            forall|j: int| 0 <= j < i ==> (#[trigger] m@[j]).0 != scope,
        decreases m.len() - i,
    {
        if m[i].0 == scope {
            proof {
                lemma_recorded_at(m@, i as int);
            }
            return m[i].1;
        }
        i += 1;
    }
    DeltaLength::default()
}

/// An ordered sequence of operations, with the lengths of each scope.
#[derive(Debug)]
pub struct Delta<D: Data, T: Attributes> {
    pub ops: Vec<Operation<D, T>>,
    /// One entry for each scope that an operation was appended in.
    pub len_map: Vec<(OperationScope, DeltaLength)>,
}

impl<D: Data, T: Attributes> View for Delta<D, T> {
    type V = Seq<OpModel<D, T>>;

    open spec fn view(&self) -> Seq<OpModel<D, T>> {
        Seq::new(self.ops@.len(), |i: int| self.ops@[i]@)
    }
}

impl<D: Data, T: Attributes> Delta<D, T> {
    /// The invariant of a delta: its operations are in normal form, and its
    /// length map records, for every scope, the lengths of its operations.
    pub open spec fn wf(&self) -> bool {
        &&& model::normalized(self@)
        &&& self.lengths_recorded()
    }

    pub open spec fn lengths_recorded(&self) -> bool {
        &&& distinct_scopes(self.len_map@)
        &&& forall|scope: OperationScope| #[trigger]
            recorded(self.len_map@, scope).base_len == model::base_len(self@, scope)
        &&& forall|scope: OperationScope| #[trigger]
            recorded(self.len_map@, scope).target_len == model::target_len(self@, scope)
    }

    fn get_len_mut(&mut self, scope: OperationScope) -> (r: &mut DeltaLength)
        requires
            distinct_scopes(old(self).len_map@),
        ensures
            *r == recorded(old(self).len_map@, scope),
            final(self).ops == old(self).ops,
            distinct_scopes(final(self).len_map@),
            forall|s: OperationScope|
                #[trigger] recorded(final(self).len_map@, s) == if s == scope {
                    *final(r)
                } else {
                    recorded(old(self).len_map@, s)
                },
    {
        let mut i: usize = 0;
        while i < self.len_map.len() && self.len_map[i].0 != scope
            invariant
                i <= self.len_map.len(),
                *self == *old(self),
                forall|j: int| 0 <= j < i ==> (#[trigger] self.len_map@[j]).0 != scope,
            decreases self.len_map.len() - i,
        {
            i += 1;
        }
        if i == self.len_map.len() {
            proof {
                lemma_recorded_push(self.len_map@, scope, DeltaLength { base_len: 0, target_len: 0 });
            }
            self.len_map.push((scope, DeltaLength::default()));
        }
        let ghost before = self.len_map@;
        proof {
            lemma_recorded_at(before, i as int);
            if has_entry(old(self).len_map@, scope) {
                let j = choose|j: int|
                    0 <= j < old(self).len_map@.len() && (#[trigger] old(self).len_map@[j]).0
                        == scope;
                assert(j >= i);
            }
        }
        let r = &mut self.len_map[i].1;
        proof {
            lemma_recorded_update(before, i as int, *final(r));
        }
        r
    }

    fn add_base_len(&mut self, scope: OperationScope, n: usize)
        requires
            distinct_scopes(old(self).len_map@),
            recorded(old(self).len_map@, scope).base_len + n <= usize::MAX,
        ensures
            final(self).ops == old(self).ops,
            distinct_scopes(final(self).len_map@),
            forall|s: OperationScope|
                #[trigger] recorded(final(self).len_map@, s) == if s == scope {
                    DeltaLength {
                        base_len: (recorded(old(self).len_map@, s).base_len + n) as usize,
                        target_len: recorded(old(self).len_map@, s).target_len,
                    }
                } else {
                    recorded(old(self).len_map@, s)
                },
    {
        let val = self.get_len_mut(scope);
        val.base_len = val.base_len + n;
    }

    fn add_target_len(&mut self, scope: OperationScope, n: usize)
        requires
            distinct_scopes(old(self).len_map@),
            recorded(old(self).len_map@, scope).target_len + n <= usize::MAX,
        ensures
            final(self).ops == old(self).ops,
            distinct_scopes(final(self).len_map@),
            forall|s: OperationScope|
                #[trigger] recorded(final(self).len_map@, s) == if s == scope {
                    DeltaLength {
                        base_len: recorded(old(self).len_map@, s).base_len,
                        target_len: (recorded(old(self).len_map@, s).target_len + n) as usize,
                    }
                } else {
                    recorded(old(self).len_map@, s)
                },
    {
        let val = self.get_len_mut(scope);
        val.target_len = val.target_len + n;
    }

    /// Appends a delete of `delete.0` units in `scope`; nothing if that is
    /// zero. A delete that ends the delta in that scope grows instead.
    pub fn delete(&mut self, scope: OperationScope, delete: &Delete) -> (r: Result<
        &mut Self,
        OTError,
    >)
        requires
            old(self).wf(),
            model::base_len(old(self)@, scope) + delete.0 <= usize::MAX,
        ensures
            match r {
                Ok(d) => d@ == model::add_delete(old(self)@, scope, delete.0 as nat) && d.wf()
                    && *final(d) == *final(self),
                Err(_) => false,
            },
    {
        let n = delete.0;
        if n == 0 {
            return Ok(self);
        }
        proof {
            model::lemma_add_op_normalized(self@, OpModel::Delete(scope, n as nat));
            assert(recorded(self.len_map@, scope).base_len == model::base_len(self@, scope));
        }
        self.add_base_len(scope, n);
        let len = self.ops.len();
        let grows = len > 0 && match &self.ops[len - 1] {
            Operation::Delete(s, _) => *s == scope,
            _ => false,
        };
        if grows {
            match &mut self.ops[len - 1] {
                Operation::Delete(_, d) => {
                    d.0 = d.0 + n;
                },
                _ => {},
            }
        } else {
            let new_op = OperationBuilder::delete(scope, n).build();
            self.ops.push(new_op);
        }
        proof {
            assert(self@ =~= model::add_delete(old(self)@, scope, n as nat));
            lemma_lengths_after_add(
                old(self)@,
                old(self).len_map@,
                self.len_map@,
                OpModel::Delete(scope, n as nat),
            );
        }
        Ok(self)
    }

    /// Appends a retain of `retain.n` units in `scope`; nothing if that is
    /// zero. A retain that ends the delta in that scope grows instead, and
    /// keeps its own formatting.
    pub fn retain(&mut self, scope: OperationScope, retain: &Retain<T>) -> (r: Result<
        &mut Self,
        OTError,
    >)
        requires
            old(self).wf(),
            model::base_len(old(self)@, scope) + retain.n <= usize::MAX,
            model::target_len(old(self)@, scope) + retain.n <= usize::MAX,
        ensures
            match r {
                Ok(d) => d@ == model::add_retain(
                    old(self)@,
                    scope,
                    retain.n as nat,
                    retain.attrs.model(),
                ) && d.wf() && *final(d) == *final(self),
                Err(_) => false,
            },
    {
        let n = retain.n;
        if n == 0 {
            return Ok(self);
        }
        let ghost op = OpModel::<D, T>::Retain(scope, n as nat, retain.attrs.model());
        proof {
            model::lemma_add_op_normalized(self@, op);
            assert(recorded(self.len_map@, scope).base_len == model::base_len(self@, scope));
            assert(recorded(self.len_map@, scope).target_len == model::target_len(self@, scope));
        }
        self.add_base_len(scope, n);
        self.add_target_len(scope, n);
        let len = self.ops.len();
        let grows = len > 0 && match &self.ops[len - 1] {
            Operation::Retain(s, _) => *s == scope,
            _ => false,
        };
        if grows {
            match &mut self.ops[len - 1] {
                Operation::Retain(_, r) => {
                    r.n = r.n + n;
                },
                _ => {},
            }
        } else {
            let attrs = retain.attrs.clone();
            proof {
                T::lemma_clone(&retain.attrs, &attrs);
            }
            let new_op = OperationBuilder::retain(scope, n).attrs(attrs).build();
            self.ops.push(new_op);
        }
        proof {
            assert(self@ =~= model::add_op(old(self)@, op));
            lemma_lengths_after_add(old(self)@, old(self).len_map@, self.len_map@, op);
        }
        Ok(self)
    }

    /// Appends an insert of `insert.data` in `scope`; nothing if that is
    /// empty. The content joins an insert of that scope that ends the delta,
    /// alone or followed by one delete; failing that, the new insert goes
    /// before a delete that ends the delta.
    pub fn insert(&mut self, scope: OperationScope, insert: &Insert<D, T>) -> (r: Result<
        &mut Self,
        OTError,
    >)
        requires
            old(self).wf(),
            model::target_len(old(self)@, scope) + insert.data.units().len() <= usize::MAX,
        ensures
            match r {
                Ok(d) => d@ == model::add_insert(
                    old(self)@,
                    scope,
                    insert.data.units(),
                    insert.attrs.model(),
                ) && d.wf() && *final(d) == *final(self),
                Err(_) => false,
            },
    {
        if insert.data.is_empty() {
            return Ok(self);
        }
        let data = insert.data.clone();
        let attrs = insert.attrs.clone();
        let ghost op = OpModel::<D, T>::Insert(scope, insert.data.units(), insert.attrs.model());
        proof {
            D::lemma_clone(&insert.data, &data);
            T::lemma_clone(&insert.attrs, &attrs);
            model::lemma_add_op_normalized(self@, op);
            assert(recorded(self.len_map@, scope).target_len == model::target_len(self@, scope));
        }
        self.add_target_len(scope, insert.data.len());
        let len = self.ops.len();
        let ends_in_delete = len >= 1 && match &self.ops[len - 1] {
            Operation::Delete(_, _) => true,
            _ => false,
        };
        let mut at: usize = len;
        if len >= 1 && Self::is_insert_in(&self.ops[len - 1], scope) {
            at = len - 1;
        } else if len >= 2 && ends_in_delete && Self::is_insert_in(&self.ops[len - 2], scope) {
            at = len - 2;
        }
        if at < len {
            proof {
                model::lemma_op_len_bound(self@, at as int, scope);
            }
            match &mut self.ops[at] {
                Operation::Insert(_, i) => {
                    i.data.merge(data);
                },
                _ => {},
            }
        } else if ends_in_delete {
            let last = self.ops.pop().unwrap();
            let new_op = OperationBuilder::insert(scope, data).attrs(attrs).build();
            self.ops.push(new_op);
            self.ops.push(last);
        } else {
            let new_op = OperationBuilder::insert(scope, data).attrs(attrs).build();
            self.ops.push(new_op);
        }
        proof {
            assert(self@ =~= model::add_op(old(self)@, op));
            lemma_lengths_after_add(old(self)@, old(self).len_map@, self.len_map@, op);
        }
        Ok(self)
    }

    fn is_insert_in(op: &Operation<D, T>, scope: OperationScope) -> (b: bool)
        ensures
            b == (op@ is Insert && op@.scope() == scope),
    {
        match op {
            Operation::Insert(s, _) => *s == scope,
            _ => false,
        }
    }

    /// Appends `op` as `delete`, `retain` or `insert` would.
    pub fn add(&mut self, op: &Operation<D, T>) -> (r: Result<(), OTError>)
        requires
            old(self).wf(),
            model::base_len(old(self)@, op@.scope()) + op@.base_in(op@.scope()) <= usize::MAX,
            model::target_len(old(self)@, op@.scope()) + op@.target_in(op@.scope())
                <= usize::MAX,
        ensures
            r is Ok,
            final(self)@ == model::add_op(old(self)@, op@),
            final(self).wf(),
    {
        match op {
            Operation::Delete(s, delete) => {
                self.delete(*s, delete)?;
            },
            Operation::Retain(s, retain) => {
                self.retain(*s, retain)?;
            },
            Operation::Insert(s, insert) => {
                self.insert(*s, insert)?;
            },
        }
        Ok(())
    }
}

impl<D: Data, T: Attributes> Delta<D, T> {
    /// Whether the chosen length of `self` equals the chosen length of
    /// `other` in every scope that either of them has an entry for.
    pub(crate) fn is_len_equal(&self, other: &Self, kind: LengthKind, other_kind: LengthKind) -> (b:
        bool)
        requires
            distinct_scopes(self.len_map@),
            distinct_scopes(other.len_map@),
        ensures
            b == lens_equal(self.len_map@, kind, other.len_map@, other_kind),
    {
        let mut i: usize = 0;
        while i < self.len_map.len()
            invariant
                i <= self.len_map.len(),
                distinct_scopes(self.len_map@),
                distinct_scopes(other.len_map@),
                forall|j: int|
                    0 <= j < i ==> recorded(self.len_map@, (#[trigger] self.len_map@[j]).0).get(kind)
                        == recorded(other.len_map@, self.len_map@[j].0).get(other_kind),
            decreases self.len_map.len() - i,
        {
            let scope = self.len_map[i].0;
            let theirs = lookup(&other.len_map, scope);
            proof {
                lemma_recorded_at(self.len_map@, i as int);
            }
            if self.len_map[i].1.pick(kind) != theirs.pick(other_kind) {
                assert(recorded(self.len_map@, scope).get(kind) != recorded(
                    other.len_map@,
                    scope,
                ).get(other_kind));
                return false;
            }
            i += 1;
        }
        let mut k: usize = 0;
        while k < other.len_map.len()
            invariant
                k <= other.len_map.len(),
                distinct_scopes(self.len_map@),
                distinct_scopes(other.len_map@),
                forall|j: int|
                    0 <= j < self.len_map@.len() ==> recorded(
                        self.len_map@,
                        (#[trigger] self.len_map@[j]).0,
                    ).get(kind) == recorded(other.len_map@, self.len_map@[j].0).get(other_kind),
                forall|j: int|
                    0 <= j < k ==> recorded(self.len_map@, (#[trigger] other.len_map@[j]).0).get(
                        kind,
                    ) == recorded(other.len_map@, other.len_map@[j].0).get(other_kind),
            decreases other.len_map.len() - k,
        {
            let scope = other.len_map[k].0;
            let mine = lookup(&self.len_map, scope);
            proof {
                lemma_recorded_at(other.len_map@, k as int);
            }
            if mine.pick(kind) != other.len_map[k].1.pick(other_kind) {
                assert(recorded(self.len_map@, scope).get(kind) != recorded(
                    other.len_map@,
                    scope,
                ).get(other_kind));
                return false;
            }
            k += 1;
        }
        proof {
            assert forall|s: OperationScope|
                #![trigger recorded(self.len_map@, s)]
                #![trigger recorded(other.len_map@, s)]
                recorded(self.len_map@, s).get(kind) == recorded(other.len_map@, s).get(
                    other_kind,
                ) by {
                if has_entry(self.len_map@, s) {
                    let j = choose|j: int|
                        0 <= j < self.len_map@.len() && (#[trigger] self.len_map@[j]).0 == s;
                    assert(self.len_map@[j].0 == s);
                } else if has_entry(other.len_map@, s) {
                    let j = choose|j: int|
                        0 <= j < other.len_map@.len() && (#[trigger] other.len_map@[j]).0 == s;
                    assert(other.len_map@[j].0 == s);
                }
            }
        }
        true
    }
}

impl<D: Data, T: Attributes> Default for Delta<D, T> {
    /// The delta without operations.
    fn default() -> (r: Self)
        ensures
            r@ == Seq::<OpModel<D, T>>::empty(),
            r.len_map@.len() == 0,
            r.wf(),
    {
        let r = Delta { ops: Vec::new(), len_map: Vec::new() };
        assert(r@ =~= Seq::<OpModel<D, T>>::empty());
        r
    }
}

} // verus!
