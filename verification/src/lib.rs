//! Compiler core for an extended loot-filter rule dialect.
//!
//! The extended dialect adds named variables, parameterized mixins and
//! arithmetic expressions on top of a flat, order-sensitive rule grammar.
//! This crate takes an already-parsed tree of extended-syntax nodes,
//! resolves every symbolic reference through a chain of lexical scopes,
//! evaluates arithmetic with strict type checking, expands mixin
//! invocations, and serializes the fully-resolved result back to plain
//! base-dialect text under a caller-selected formatting configuration.
//!
//! The parser for the extended dialect and all file I/O are external
//! collaborators; they hand this crate plain values and take plain values
//! back.

use vstd::prelude::*;

pub mod value;
pub mod scope;
pub mod expr;
pub mod arena;
pub mod render;
pub mod transform;
pub mod parse;

verus! {

/// Default line terminator used when the caller does not select one.
pub const LINE_END: &'static str = "\n";

} // verus!
