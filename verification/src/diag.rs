//! User diagnostics.
//!
//! Errors are collected, never thrown: a pass appends to its list and keeps
//! walking sibling nodes, and a pass that produced any error stops the
//! pipeline before the next stage.

use vstd::prelude::*;
use crate::types::{ConcreteType, InferenceSource};

verus! {

/// What went wrong, with the data a driver needs to render a message.
#[derive(Debug)]
pub enum ErrorKind {
    /// An item of this name is already declared at the top level.
    DuplicateFunction,
    /// A parameter of this name is already declared on the same function.
    DuplicateParameter,
    /// A variable of this name is already declared in the same scope.
    DuplicateVariable,
    /// A call names a function that no top-level item declares.
    UnknownFunction,
    /// Two incompatible concrete types reached one inference node.
    TypeMismatch { expected: ConcreteType, found: ConcreteType, source: InferenceSource },
    /// No concrete type reached an inference node.
    Untyped,
    /// A type annotation names no known type.
    UnknownType,
}

/// One diagnostic: the offending token's position and text, related
/// positions, and the error kind.
#[derive(Debug)]
pub struct CheckerError {
    pub pos: u32,
    pub name: String,
    pub related: Vec<u32>,
    pub kind: ErrorKind,
}

} // verus!
