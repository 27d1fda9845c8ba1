//! Synthesis of rewrite rules for term languages: terms and patterns as
//! s-expressions, rule sets kept in insertion order, candidate discovery by
//! signature matching, fuzz validation, and the minimizer that keeps only
//! the rules that the others do not already derive. E-graph rewriting is
//! egg's; the rest is verified here.

use vstd::prelude::*;

pub mod cvec;
pub mod egraph;
pub mod enumo;
pub mod equality;
pub mod fuzz;
pub mod minimize;
pub mod pattern;
pub mod pred;
pub mod rational;
pub mod rule;
pub mod ruleset;
pub mod sexp;
pub mod text;

verus! {

} // verus!
