//! Satisfiability search engines behind one interface.
use vstd::prelude::*;

use crate::types::{formula_holds, satisfiable, total, values, Conjunction, Result};

pub mod naive;

verus! {

/// A strategy that decides whether a formula is satisfiable.
pub trait Solver {
    /// The formula the solver works on.
    spec fn problem(&self) -> Conjunction;

    /// The solver is in a state from which `solve` may run.
    spec fn ready(&self) -> bool;

    /// Searches the problem's domain: a model that satisfies the formula, or
    /// `Unsat` exactly where no assignment of the domain does.
    fn solve(&mut self) -> (r: Result)
        requires
            old(self).ready(),
        ensures
            match r {
                Result::Sat(m) => {
                    &&& *m.cnf == old(self).problem()
                    &&& m.assignments@.len() == old(self).problem().width()
                    &&& total(m.assignments@)
                    &&& formula_holds(old(self).problem().clauses(), values(m.assignments@))
                },
                Result::Unsat => !satisfiable(
                    old(self).problem().clauses(),
                    old(self).problem().width() as nat,
                ),
            },
    ;
}

} // verus!
