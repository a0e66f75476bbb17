//! Name resolution and type inference for a small statically-typed language.
//!
//! The crate annotates an abstract syntax tree in two cooperating passes:
//! name resolution assigns every declaration a unique, scope-correct
//! [`scoped_id::ScopedId`] and resolves references to the nearest enclosing
//! declaration, and type checking builds a graph of type equations that a
//! solver reduces to one concrete type per node, or to a precise diagnostic.

pub mod ast;
pub mod check;
pub mod diag;
pub mod graph;
pub mod pipeline;
pub mod resolve;
pub mod scope;
pub mod solve;
pub mod scoped_id;
pub mod type_scope;
pub mod types;
