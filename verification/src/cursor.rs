//! Reading a delta one operation at a time, where the operation read may be
//! what a walk has left of one.

use crate::builder::OperationBuilder;
use crate::delta::Delta;
use crate::operation::{OpModel, Operation};
use crate::traits::{Attributes, Data};
use crate::walk;
use vstd::prelude::*;

verus! {

/// The operations that a walk has still to read: the one it holds, if any,
/// and those of the delta from `next` on.
pub open spec fn pending<D: Data, T: Attributes>(
    head: Option<Operation<D, T>>,
    ops: Seq<OpModel<D, T>>,
    next: int,
) -> Seq<OpModel<D, T>> {
    match head {
        Some(op) => seq![op@] + ops.skip(next),
        None => Seq::empty(),
    }
}

/// A cursor is sound when it points into the delta, and holds an operation
/// unless it has read them all.
pub open spec fn cursor_ok<D: Data, T: Attributes>(
    head: Option<Operation<D, T>>,
    ops: Seq<OpModel<D, T>>,
    next: int,
) -> bool {
    0 <= next <= ops.len() && (head is None ==> next == ops.len())
}

/// Reads the operation at `next`, if there is one, and moves past it.
pub(crate) fn next_op<D: Data, T: Attributes>(delta: &Delta<D, T>, next: &mut usize) -> (head:
    Option<Operation<D, T>>)
    requires
        *old(next) <= delta@.len(),
    ensures
        cursor_ok(head, delta@, *final(next) as int),
        pending(head, delta@, *final(next) as int) == delta@.skip(*old(next) as int),
{
    if *next < delta.ops.len() {
        let op = delta.ops[*next].clone();
        *next = *next + 1;
        assert(pending(Some(op), delta@, *next as int) =~= delta@.skip(*old(next) as int));
        Some(op)
    } else {
        assert(delta@.skip(*next as int) =~= Seq::empty());
        None
    }
}

/// What is left of `op` once its first `k` units are consumed.
pub(crate) fn rest_of<D: Data, T: Attributes>(op: &Operation<D, T>, k: usize) -> (r: Operation<
    D,
    T,
>)
    requires
        k <= op@.len(),
    ensures
        r@ == op@.rest(k as nat),
{
    match op {
        Operation::Delete(s, d) => OperationBuilder::delete(*s, d.0 - k).build(),
        Operation::Retain(s, r) => {
            let attrs = r.attrs.clone();
            proof {
                T::lemma_clone(&r.attrs, &attrs);
            }
            OperationBuilder::retain(*s, r.n - k).attrs(attrs).build()
        },
        Operation::Insert(s, i) => {
            let attrs = i.attrs.clone();
            proof {
                T::lemma_clone(&i.attrs, &attrs);
            }
            OperationBuilder::insert(*s, i.data.truncate_after(k)).attrs(attrs).build()
        },
    }
}

/// Moves a cursor that holds `op` past `k` of its units: it then holds what
/// is left of `op`, or reads on if nothing is left.
pub(crate) fn consume<D: Data, T: Attributes>(
    delta: &Delta<D, T>,
    op: Operation<D, T>,
    next: &mut usize,
    k: usize,
) -> (head: Option<Operation<D, T>>)
    requires
        *old(next) <= delta@.len(),
        k <= op@.len(),
    ensures
        cursor_ok(head, delta@, *final(next) as int),
        pending(head, delta@, *final(next) as int) == walk::advance(
            pending(Some(op), delta@, *old(next) as int),
            k as nat,
        ),
{
    let ghost before = pending(Some(op), delta@, *next as int);
    if k < op.len() {
        let rest = rest_of(&op, k);
        assert(pending(Some(rest), delta@, *next as int) =~= before.update(0, op@.rest(k as nat)));
        Some(rest)
    } else {
        assert(before.drop_first() =~= delta@.skip(*next as int));
        next_op(delta, next)
    }
}

} // verus!
