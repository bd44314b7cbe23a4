//! Deltas as sequences of operation models: length bookkeeping, the normal
//! form, and what appending an operation does.

use crate::operation::OpModel;
use crate::scope::OperationScope;
use crate::traits::{Attributes, Data};
use vstd::prelude::*;

verus! {

/// Units of the base document that `ops` consume in `scope`.
pub open spec fn base_len<D: Data, T: Attributes>(
    ops: Seq<OpModel<D, T>>,
    scope: OperationScope,
) -> nat
    decreases ops.len(),
{
    if ops.len() == 0 {
        0
    } else {
        base_len(ops.drop_last(), scope) + ops.last().base_in(scope)
    }
}

/// Units of the target document that `ops` produce in `scope`.
pub open spec fn target_len<D: Data, T: Attributes>(
    ops: Seq<OpModel<D, T>>,
    scope: OperationScope,
) -> nat
    decreases ops.len(),
{
    if ops.len() == 0 {
        0
    } else {
        target_len(ops.drop_last(), scope) + ops.last().target_in(scope)
    }
}

/// The normal form of a delta: no operation is empty, and no two neighbours
/// have the same kind and scope.
pub open spec fn normalized<D: Data, T: Attributes>(ops: Seq<OpModel<D, T>>) -> bool {
    &&& forall|i: int| 0 <= i < ops.len() ==> (#[trigger] ops[i]).len() > 0
    &&& forall|i: int| 0 < i < ops.len() ==> !(#[trigger] ops[i - 1]).same_run(ops[i])
}

/// `ops` after a delete of `n` units in `scope` is appended.
pub open spec fn add_delete<D: Data, T: Attributes>(
    ops: Seq<OpModel<D, T>>,
    scope: OperationScope,
    n: nat,
) -> Seq<OpModel<D, T>> {
    if n == 0 {
        ops
    } else if ops.len() > 0 && ops.last() is Delete && ops.last().scope() == scope {
        ops.drop_last().push(OpModel::Delete(scope, ops.last().len() + n))
    } else {
        ops.push(OpModel::Delete(scope, n))
    }
}

/// `ops` after a retain of `n` units in `scope` is appended. A retain that
/// already ends `ops` in that scope grows and keeps its own formatting.
pub open spec fn add_retain<D: Data, T: Attributes>(
    ops: Seq<OpModel<D, T>>,
    scope: OperationScope,
    n: nat,
    attrs: T::Model,
) -> Seq<OpModel<D, T>> {
    if n == 0 {
        ops
    } else if ops.len() > 0 && ops.last() is Retain && ops.last().scope() == scope {
        ops.drop_last().push(OpModel::Retain(scope, ops.last().len() + n, ops.last().attrs()))
    } else {
        ops.push(OpModel::Retain(scope, n, attrs))
    }
}

/// `ops` after an insert of `data` in `scope` is appended. The content joins
/// an insert of that scope that ends `ops`, alone or followed by one delete;
/// failing that, the new insert goes before a delete that ends `ops`.
pub open spec fn add_insert<D: Data, T: Attributes>(
    ops: Seq<OpModel<D, T>>,
    scope: OperationScope,
    data: Seq<D::Unit>,
    attrs: T::Model,
) -> Seq<OpModel<D, T>> {
    let n = ops.len() as int;
    if data.len() == 0 {
        ops
    } else if n >= 1 && ops[n - 1] is Insert && ops[n - 1].scope() == scope {
        ops.update(n - 1, OpModel::Insert(scope, ops[n - 1].data() + data, ops[n - 1].attrs()))
    } else if n >= 2 && ops[n - 1] is Delete && ops[n - 2] is Insert && ops[n - 2].scope()
        == scope {
        ops.update(n - 2, OpModel::Insert(scope, ops[n - 2].data() + data, ops[n - 2].attrs()))
    } else if n >= 1 && ops[n - 1] is Delete {
        ops.drop_last().push(OpModel::Insert(scope, data, attrs)).push(ops[n - 1])
    } else {
        ops.push(OpModel::Insert(scope, data, attrs))
    }
}

/// `ops` after `op` is appended.
pub open spec fn add_op<D: Data, T: Attributes>(ops: Seq<OpModel<D, T>>, op: OpModel<D, T>) -> Seq<
    OpModel<D, T>,
> {
    match op {
        OpModel::Delete(scope, n) => add_delete(ops, scope, n),
        OpModel::Retain(scope, n, attrs) => add_retain(ops, scope, n, attrs),
        OpModel::Insert(scope, data, attrs) => add_insert(ops, scope, data, attrs),
    }
}

/// `ops` after all of `more` are appended, one by one.
pub open spec fn add_all<D: Data, T: Attributes>(
    ops: Seq<OpModel<D, T>>,
    more: Seq<OpModel<D, T>>,
) -> Seq<OpModel<D, T>>
    decreases more.len(),
{
    if more.len() == 0 {
        ops
    } else {
        add_all(add_op(ops, more[0]), more.drop_first())
    }
}

pub proof fn lemma_len_push<D: Data, T: Attributes>(
    ops: Seq<OpModel<D, T>>,
    op: OpModel<D, T>,
    scope: OperationScope,
)
    ensures
        base_len(ops.push(op), scope) == base_len(ops, scope) + op.base_in(scope),
        target_len(ops.push(op), scope) == target_len(ops, scope) + op.target_in(scope),
{
    assert(ops.push(op).drop_last() =~= ops);
}

/// Appending an operation adds its lengths to those of the delta, in every
/// scope.
pub proof fn lemma_add_op_len<D: Data, T: Attributes>(
    ops: Seq<OpModel<D, T>>,
    op: OpModel<D, T>,
    scope: OperationScope,
)
    ensures
        base_len(add_op(ops, op), scope) == base_len(ops, scope) + op.base_in(scope),
        target_len(add_op(ops, op), scope) == target_len(ops, scope) + op.target_in(scope),
{
    let n = ops.len() as int;
    let r = add_op(ops, op);
    if op.len() == 0 {
        assert(r == ops);
    } else if n == 0 {
        lemma_len_push(ops, op, scope);
    } else {
        let front = ops.drop_last();
        let last = ops.last();
        match op {
            OpModel::Delete(s, k) => {
                if last is Delete && last.scope() == s {
                    lemma_len_push(front, OpModel::Delete(s, last.len() + k), scope);
                } else {
                    lemma_len_push(ops, op, scope);
                }
            },
            OpModel::Retain(s, k, attrs) => {
                if last is Retain && last.scope() == s {
                    lemma_len_push(front, OpModel::Retain(s, last.len() + k, last.attrs()), scope);
                } else {
                    lemma_len_push(ops, op, scope);
                }
            },
            OpModel::Insert(s, data, attrs) => {
                if last is Insert && last.scope() == s {
                    let joined = OpModel::<D, T>::Insert(s, last.data() + data, last.attrs());
                    assert(r =~= front.push(joined));
                    lemma_len_push(front, joined, scope);
                } else if n >= 2 && last is Delete && ops[n - 2] is Insert && ops[n - 2].scope()
                    == s {
                    let before = ops[n - 2];
                    let joined = OpModel::<D, T>::Insert(s, before.data() + data, before.attrs());
                    let head = front.drop_last();
                    assert(front =~= head.push(before));
                    assert(r =~= head.push(joined).push(last));
                    lemma_len_push(head, before, scope);
                    lemma_len_push(head, joined, scope);
                    lemma_len_push(head.push(joined), last, scope);
                } else if last is Delete {
                    lemma_len_push(front, op, scope);
                    lemma_len_push(front.push(op), last, scope);
                } else {
                    lemma_len_push(ops, op, scope);
                }
            },
        }
    }
}

/// Appending an operation keeps a delta in normal form.
pub proof fn lemma_add_op_normalized<D: Data, T: Attributes>(
    ops: Seq<OpModel<D, T>>,
    op: OpModel<D, T>,
)
    requires
        normalized(ops),
    ensures
        normalized(add_op(ops, op)),
{
    let r = add_op(ops, op);
    let n = ops.len() as int;
    assert forall|i: int| 0 <= i < r.len() implies (#[trigger] r[i]).len() > 0 by {
        if i < n - 2 {
            assert(r[i] == ops[i]);
        } else if i < n {
            assert(ops[i].len() > 0);
        }
    }
    assert forall|i: int| 0 < i < r.len() implies !(#[trigger] r[i - 1]).same_run(r[i]) by {
        if i < n {
            assert(!ops[i - 1].same_run(ops[i]));
        }
    }
}

/// No operation is longer, in any scope, than the delta that holds it.
pub proof fn lemma_op_len_bound<D: Data, T: Attributes>(
    ops: Seq<OpModel<D, T>>,
    i: int,
    scope: OperationScope,
)
    requires
        0 <= i < ops.len(),
    ensures
        ops[i].base_in(scope) <= base_len(ops, scope),
        ops[i].target_in(scope) <= target_len(ops, scope),
    decreases ops.len(),
{
    if i < ops.len() - 1 {
        lemma_op_len_bound(ops.drop_last(), i, scope);
    }
}

} // verus!
