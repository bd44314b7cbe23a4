//! An operational-transformation engine: edits to a shared document as deltas
//! that can be composed, transformed against each other and inverted.
//!
//! A [`Delta`] is a sequence of [`Operation`]s, each in one
//! [`OperationScope`], over content and formatting of the caller's choice
//! ([`Data`], [`Attributes`]). `operation`, `builder` and `delta` hold the
//! data and the functions that build it; `algebra` holds `compose`,
//! `transform` and `invert`. Their contracts speak of deltas as sequences of
//! operation models: `model` says what appending does, `walk` what the three
//! operators compute. `semantics` says what a delta does to a document, and
//! `laws` states what follows: the normal form, identity, associativity and
//! convergence, with `convergence` and `unique` in support; `shape` states
//! the last two with the formatting set aside, and `lengths` the lengths of
//! what the operators build.

pub mod algebra;
pub mod builder;
pub mod convergence;
pub mod cursor;
pub mod delta;
pub mod error;
pub mod laws;
pub mod lengths;
pub mod model;
pub mod operation;
pub mod scope;
pub mod semantics;
pub mod shape;
pub mod traits;
pub mod unique;
pub mod walk;

pub use builder::OperationBuilder;
pub use delta::{Delta, DeltaLength};
pub use error::OTError;
pub use operation::{Delete, Insert, Operation, Retain};
pub use scope::{OperationScope, Position};
pub use traits::{Attributes, Data, OperationTransformable};
