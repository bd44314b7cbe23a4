use crate::scope::OperationScope;
use vstd::prelude::*;

verus! {

/// Why two deltas cannot be combined. None of these can be retried: the
/// deltas handed in do not fit each other.
#[derive(Debug)]
pub enum OTError {
    /// The named length of the first delta differs from the named length of
    /// the second one in some scope.
    IncompatibleDeltaLength(&'static str, &'static str),
    /// The named delta ran out of operations before the other one.
    IncompatibleOperationLength(&'static str),
    /// Two operations that had to be paired lie in different scopes.
    IncompatibleOperationScope(OperationScope, OperationScope),
    /// No rule pairs operations of these two kinds.
    IncompatibleOperationType(&'static str, &'static str),
}

} // verus!
