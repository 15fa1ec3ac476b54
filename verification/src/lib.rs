//! A minimal single-line pattern matcher.
//!
//! A pattern written in a small regular-expression-like notation is compiled
//! into a flat sequence of matching instructions, and an input line is then
//! walked against that sequence with limited backtracking.  The whole
//! behaviour of the compiler and of the matching engine is pinned down by the
//! spec functions in [`model`], and every executable function is verified
//! against them.

pub mod laws;
pub mod matcher;
pub mod model;
