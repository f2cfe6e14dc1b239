//! Exhaustive two-way branching over the variables, true before false.
use vstd::prelude::*;

use std::ops::Range;

use crate::types::{formula_holds, satisfiable, total, values, Conjunction, Literal, Model, Result};

use super::Solver;

verus! {

broadcast use vstd::std_specs::range::group_range_axioms;

/// `a` is a total assignment of the slots of `m` that keeps the first `k`
/// slots of `m`.
pub open spec fn extends(a: Seq<bool>, m: Seq<Option<bool>>, k: int) -> bool {
    &&& a.len() == m.len()
    &&& forall|j: int| 0 <= j < k ==> #[trigger] m[j] == Some(a[j])
}

/// Some total assignment that keeps the first `k` slots of `m` satisfies `cs`.
pub open spec fn completable(cs: Seq<Seq<Literal>>, m: Seq<Option<bool>>, k: int) -> bool {
    exists|a: Seq<bool>| #[trigger] extends(a, m, k) && formula_holds(cs, a)
}

/// `a` comes before `b` in the search order: at the first slot where they
/// differ, `a` holds true.
pub open spec fn tried_before(a: Seq<bool>, b: Seq<bool>) -> bool {
    exists|i: int|
        0 <= i < a.len() && i < b.len() && a.subrange(0, i) == b.subrange(0, i) && a[i]
            && !#[trigger] b[i]
}

/// `a` is the first assignment that keeps the first `k` slots of `m` and
/// satisfies `cs`, in the order that tries true before false, variable by
/// variable from the lowest.
pub open spec fn first_model(cs: Seq<Seq<Literal>>, m: Seq<Option<bool>>, k: int, a: Seq<bool>) -> bool {
    forall|b: Seq<bool>|
        #[trigger] extends(b, m, k) && formula_holds(cs, b) && b != a ==> tried_before(a, b)
}

/// The reference engine: it tries every assignment of the domain.
pub struct Naive<'a> {
    formula: &'a Conjunction,
    model: Model<'a>,
}

impl<'a> Naive<'a> {
    /// The engine keeps one slot per variable of its well-formed formula.
    pub closed spec fn inv(&self) -> bool {
        &&& self.formula.wf()
        &&& self.model.cnf == self.formula
        &&& self.model.assignments@.len() == self.formula.width()
    }

    /// The engine's assignment slots, slot `v - 1` for variable `v`.
    pub closed spec fn slots(&self) -> Seq<Option<bool>> {
        self.model.assignments@
    }

    /// An engine for `cnf` whose model has one unassigned slot per variable.
    pub fn new(cnf: &'a Conjunction) -> (r: Naive<'a>)
        requires
            cnf.wf(),
        ensures
            r.ready(),
            r.problem() == *cnf,
            r.slots() == Seq::new(cnf.width() as nat, |k: int| None::<bool>),
    {
        Naive { formula: cnf, model: Model::new(cnf) }
    }

    /// Decides whether the slots of the variables `vars` can be filled so that
    /// the formula holds, the slots before them kept. On success the model
    /// holds such an assignment.
    fn solve_ith(&mut self, vars: &mut Range<usize>) -> (r: bool)
        requires
            old(self).inv(),
            1 <= old(vars).start <= old(vars).end,
            old(vars).end == old(self).formula.atom_domain.end,
            forall|k: int|
                0 <= k < old(vars).start - 1 ==> (#[trigger] old(self).model.assignments@[k]) is Some,
        ensures
            final(self).inv(),
            final(self).formula == old(self).formula,
            forall|k: int|
                0 <= k < old(vars).start - 1 ==> #[trigger] final(self).model.assignments@[k]
                    == old(self).model.assignments@[k],
            r == completable(
                old(self).formula.clauses(),
                old(self).model.assignments@,
                old(vars).start - 1,
            ),
            r ==> total(final(self).model.assignments@) && formula_holds(
                old(self).formula.clauses(),
                values(final(self).model.assignments@),
            ),
            r ==> first_model(
                old(self).formula.clauses(),
                old(self).model.assignments@,
                old(vars).start - 1,
                values(final(self).model.assignments@),
            ),
        decreases old(vars).end - old(vars).start,
    {
        let ghost cs = self.formula.clauses();
        let ghost m0 = self.model.assignments@;
        match vars.next() {
            None => {
                let r = self.model.eval();
                let ghost vs = values(m0);
                assert forall|j: int| 0 <= j < m0.len() implies #[trigger] m0[j] == Some(vs[j]) by {
                    assert(m0[j] is Some);
                }
                assert(extends(vs, m0, m0.len() as int));
                assert forall|a: Seq<bool>| #[trigger] extends(a, m0, m0.len() as int) implies a
                    == vs by {
                    assert(a =~= vs);
                }
                assert(first_model(cs, m0, m0.len() as int, vs));
                r
            },
            Some(i) => {
                let mut rest = Range { start: vars.start, end: vars.end };
                self.model.assign(i, true);
                let ghost m1 = self.model.assignments@;
                if self.solve_ith(&mut rest) {
                    let ghost vs = values(self.model.assignments@);
                    assert(extends(vs, m0, i - 1));
                    proof {
                        assert(extends(vs, m1, i as int));
                        assert forall|b: Seq<bool>| #[trigger]
                            extends(b, m0, i - 1) && formula_holds(cs, b) && b != vs implies
                            tried_before(vs, b) by {
                            if b[i - 1] {
                                assert(extends(b, m1, i as int));
                            } else {
                                assert(vs.subrange(0, i - 1) =~= b.subrange(0, i - 1));
                                assert(vs[i - 1]);
                            }
                        }
                    }
                    true
                } else {
                    self.model.assign(i, false);
                    let ghost m2 = self.model.assignments@;
                    assert forall|j: int| 0 <= j < i - 1 implies #[trigger] m2[j] == m0[j] by {
                        assert(m2[j] == m1[j]);
                    }
                    let r = self.solve_ith(vars);
                    proof {
                        if r {
                            let vs = values(self.model.assignments@);
                            assert forall|b: Seq<bool>| #[trigger]
                                extends(b, m0, i - 1) && formula_holds(cs, b) && b != vs implies
                                tried_before(vs, b) by {
                                if b[i - 1] {
                                    assert(extends(b, m1, i as int));
                                } else {
                                    assert(extends(b, m2, i as int));
                                }
                            }
                            let a = choose|a: Seq<bool>| #[trigger]
                                extends(a, m2, i as int) && formula_holds(cs, a);
                            assert forall|j: int| 0 <= j < i - 1 implies #[trigger] m0[j] == Some(
                                a[j],
                            ) by {
                                assert(m2[j] == Some(a[j]));
                            }
                            assert(extends(a, m0, i - 1));
                        } else {
                            assert forall|a: Seq<bool>| #[trigger]
                                extends(a, m0, i - 1) implies !formula_holds(cs, a) by {
                                if a[i - 1] {
                                    assert(extends(a, m1, i as int));
                                } else {
                                    assert(extends(a, m2, i as int));
                                }
                            }
                        }
                    }
                    r
                }
            },
        }
    }
}

impl<'a> Solver for Naive<'a> {
    closed spec fn problem(&self) -> Conjunction {
        *self.formula
    }

    closed spec fn ready(&self) -> bool {
        self.inv()
    }

    /// The model returned is the first satisfying assignment in the order
    /// that tries true before false, from variable 1 up.
    fn solve(&mut self) -> (r: Result)
        ensures
            r matches Result::Sat(m) ==> first_model(
                old(self).problem().clauses(),
                Seq::new(old(self).problem().width() as nat, |k: int| None::<bool>),
                0,
                values(m.assignments@),
            ),
    {
        let mut range = Range { start: self.formula.atom_domain.start, end: self.formula.atom_domain.end };
        if self.solve_ith(&mut range) {
            proof {
                let cs = self.formula.clauses();
                let m0 = old(self).model.assignments@;
                let none = Seq::new(old(self).formula.width() as nat, |k: int| None::<bool>);
                assert forall|b: Seq<bool>| #[trigger] extends(b, none, 0) implies extends(b, m0, 0) by {}
            }
            Result::Sat(&self.model)
        } else {
            proof {
                let cs = self.formula.clauses();
                let n = self.formula.width() as nat;
                if satisfiable(cs, n) {
                    let a = choose|a: Seq<bool>| a.len() == n && #[trigger] formula_holds(cs, a);
                    assert(extends(a, old(self).model.assignments@, 0));
                }
            }
            Result::Unsat
        }
    }
}

} // verus!
