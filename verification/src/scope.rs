use vstd::prelude::*;

verus! {

/// A cell coordinate.
#[derive(Debug, Copy, Clone, PartialEq, Eq, Hash, Structural)]
pub struct Position {
    pub x: usize,
    pub y: usize,
}

/// The editing lane an operation belongs to. Operations are only ever paired
/// when their scopes are equal.
#[derive(Debug, Copy, Clone, PartialEq, Eq, Hash, Structural)]
pub enum OperationScope {
    Cell(Position),
    Column,
    Row,
}

} // verus!
