//! CNF formulas, a DIMACS reader, and an exhaustive satisfiability search.
use vstd::prelude::*;

pub mod dimacs;
pub mod dimacs_lemmas;
pub mod solvers;
pub mod types;
