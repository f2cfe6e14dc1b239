use vstd::prelude::*;
use std::ops::Range;

verus! {

/// A signed reference to a 1-based variable index.
#[derive(Debug, Clone, Copy, PartialEq, Eq, Structural)]
pub enum Literal {
    /// The variable is asserted true.
    Positive(usize),
    /// The variable is asserted false.
    Negative(usize),
}

impl Literal {
    /// The variable index the literal refers to.
    pub open spec fn index(self) -> usize {
        match self {
            Literal::Positive(v) => v,
            Literal::Negative(v) => v,
        }
    }

    /// Whether the literal asserts its variable true.
    pub open spec fn positive(self) -> bool {
        self is Positive
    }

    /// The literal a non-zero DIMACS integer stands for.
    pub open spec fn of_token(n: int) -> Literal {
        if n < 0 {
            Literal::Negative((-n) as usize)
        } else {
            Literal::Positive(n as usize)
        }
    }

    /// Holds when the literal is true under the total assignment `a`
    /// (slot `v - 1` is the value of variable `v`).
    pub open spec fn holds(self, a: Seq<bool>) -> bool {
        a[self.index() - 1] == self.positive()
    }

    pub fn from_dimacs_token(parsed: i64) -> (r: Literal)
        requires
            parsed != 0,
            -(usize::MAX as int) <= parsed as int <= usize::MAX,
        ensures
            r == Literal::of_token(parsed as int),
            r.index() >= 1,
    {
        if parsed < 0 {
            Literal::Negative((-(parsed as i128)) as usize)
        } else {
            Literal::Positive(parsed as usize)
        }
    }

    pub fn var(&self) -> (r: usize)
        ensures
            r == self.index(),
    {
        match self {
            Literal::Positive(v) => *v,
            Literal::Negative(v) => *v,
        }
    }

    pub fn as_bool(&self) -> (r: bool)
        ensures
            r == self.positive(),
    {
        match self {
            Literal::Positive(_) => true,
            Literal::Negative(_) => false,
        }
    }
}

/// Every literal of `c` names a variable in `1..=n`.
pub open spec fn clause_within(c: Seq<Literal>, n: int) -> bool {
    forall|j: int| 0 <= j < c.len() ==> 1 <= (#[trigger] c[j]).index() <= n
}

/// A clause (a disjunction) holds when one of its literals does.
pub open spec fn clause_holds(c: Seq<Literal>, a: Seq<bool>) -> bool {
    exists|j: int| 0 <= j < c.len() && (#[trigger] c[j]).holds(a)
}

/// Every literal of every clause names a variable in `1..=n`.
pub open spec fn formula_within(cs: Seq<Seq<Literal>>, n: int) -> bool {
    forall|i: int| 0 <= i < cs.len() ==> clause_within(#[trigger] cs[i], n)
}

/// A conjunction of clauses holds when every clause does.
pub open spec fn formula_holds(cs: Seq<Seq<Literal>>, a: Seq<bool>) -> bool {
    forall|i: int| 0 <= i < cs.len() ==> clause_holds(#[trigger] cs[i], a)
}

/// Some assignment of the variables `1..=n` makes every clause true.
pub open spec fn satisfiable(cs: Seq<Seq<Literal>>, n: nat) -> bool {
    exists|a: Seq<bool>| a.len() == n && #[trigger] formula_holds(cs, a)
}

/// A disjunction of literals.
#[derive(Debug, Clone, PartialEq)]
pub struct Clause(Vec<Literal>);

impl View for Clause {
    type V = Seq<Literal>;

    closed spec fn view(&self) -> Seq<Literal> {
        self.0@
    }
}

impl Clause {
    pub fn from_variables(vars: Vec<Literal>) -> (r: Clause)
        ensures
            r@ == vars@,
    {
        Clause(vars)
    }

    pub fn eval(&self, assignments: &Vec<bool>) -> (r: bool)
        requires
            clause_within(self@, assignments@.len() as int),
        ensures
            r == clause_holds(self@, assignments@),
    {
        let mut found = false;
        let mut j: usize = 0;
        while j < self.0.len()
            invariant
                j <= self.0@.len(),
                clause_within(self@, assignments@.len() as int),
                found == exists|k: int| 0 <= k < j && (#[trigger] self@[k]).holds(assignments@),
            decreases self.0@.len() - j,
        {
            let lit = &self.0[j];
            assert(lit == self@[j as int]);
            found = found || (lit.as_bool() == assignments[lit.var() - 1]);
            j += 1;
        }
        found
    }
}

/// Variable `v` occurs in some clause of `cs`.
pub open spec fn occurs(cs: Seq<Seq<Literal>>, v: int) -> bool {
    exists|i: int, j: int|
        0 <= i < cs.len() && 0 <= j < cs[i].len() && (#[trigger] cs[i][j]).index() == v
}

/// Every variable of `cs` lies in `lo..=hi`.
pub open spec fn vars_between(cs: Seq<Seq<Literal>>, lo: int, hi: int) -> bool {
    forall|i: int, j: int|
        0 <= i < cs.len() && 0 <= j < cs[i].len() ==> lo <= (#[trigger] cs[i][j]).index() <= hi
}

/// The least variable of `cs` is 1 and the greatest one is below `usize::MAX`,
/// so that the domain `1..max + 1` can be formed.
pub open spec fn densely_numbered(cs: Seq<Seq<Literal>>) -> bool {
    &&& occurs(cs, 1)
    &&& vars_between(cs, 1, usize::MAX - 1)
}

/// A conjunction of clauses over the variables `atom_domain`.
#[derive(Debug, PartialEq)]
pub struct Conjunction {
    pub disjunctions: Vec<Clause>,
    pub atom_domain: Range<usize>,
}

impl Conjunction {
    /// The clauses as sequences of literals.
    pub open spec fn clauses(&self) -> Seq<Seq<Literal>> {
        self.disjunctions@.map_values(|c: Clause| c@)
    }

    /// The number of variables of the domain.
    pub open spec fn width(&self) -> int {
        self.atom_domain.end - self.atom_domain.start
    }

    /// The domain starts at variable 1 and covers every literal.
    pub open spec fn wf(&self) -> bool {
        &&& self.atom_domain.start == 1
        &&& self.atom_domain.end >= 1
        &&& formula_within(self.clauses(), self.width())
    }

    /// Builds the formula whose domain runs from variable 1 to its greatest
    /// variable. The least variable must be 1.
    pub fn new(disjunctions: Vec<Clause>) -> (r: Conjunction)
        requires
            densely_numbered(disjunctions@.map_values(|c: Clause| c@)),
        ensures
            r.disjunctions@ == disjunctions@,
            r.atom_domain.start == 1,
            r.wf(),
            occurs(r.clauses(), r.width()),
    {
        let bounds = var_bounds(&disjunctions);
        Conjunction::from_bounds(disjunctions, bounds.1)
    }

    /// Builds the formula as `new` does, or gives `None` where the least
    /// variable is not 1 (or the greatest is `usize::MAX`).
    pub fn try_new(disjunctions: Vec<Clause>) -> (r: Option<Conjunction>)
        ensures
            r is Some <==> densely_numbered(disjunctions@.map_values(|c: Clause| c@)),
            r matches Some(f) ==> {
                &&& f.disjunctions@ == disjunctions@
                &&& f.atom_domain.start == 1
                &&& f.wf()
                &&& occurs(f.clauses(), f.width())
            },
    {
        let ghost cl = disjunctions@.map_values(|c: Clause| c@);
        let (lo, hi) = var_bounds(&disjunctions);
        if lo == 1 && hi < usize::MAX {
            Some(Conjunction::from_bounds(disjunctions, hi))
        } else {
            proof {
                if densely_numbered(cl) {
                    let (i, j) = choose|i: int, j: int|
                        0 <= i < cl.len() && 0 <= j < cl[i].len() && (#[trigger] cl[i][j]).index()
                            == 1;
                    assert(lo <= cl[i][j].index());
                }
            }
            None
        }
    }

    fn from_bounds(disjunctions: Vec<Clause>, hi: usize) -> (r: Conjunction)
        requires
            hi < usize::MAX,
            vars_between(disjunctions@.map_values(|c: Clause| c@), 1, hi as int),
            occurs(disjunctions@.map_values(|c: Clause| c@), hi as int),
        ensures
            r.disjunctions@ == disjunctions@,
            r.atom_domain.start == 1,
            r.wf(),
            occurs(r.clauses(), r.width()),
    {
        let r = Conjunction { atom_domain: Range { start: 1, end: hi + 1 }, disjunctions };
        assert forall|i: int| 0 <= i < r.clauses().len() implies clause_within(
            #[trigger] r.clauses()[i],
            r.width(),
        ) by {
            assert forall|j: int| 0 <= j < r.clauses()[i].len() implies 1 <= (
            #[trigger] r.clauses()[i][j]).index() <= r.width() by {
                assert(r.clauses()[i][j] == r.clauses()[i][j]);
            }
        }
        r
    }
}

/// The least and greatest variable of the clauses, or `(usize::MAX, 0)` where
/// there is no literal.
fn var_bounds(cs: &Vec<Clause>) -> (r: (usize, usize))
    ensures
        vars_between(cs@.map_values(|c: Clause| c@), r.0 as int, r.1 as int),
        r == (usize::MAX, 0usize) || (occurs(cs@.map_values(|c: Clause| c@), r.0 as int) && occurs(
            cs@.map_values(|c: Clause| c@),
            r.1 as int,
        )),
{
    let ghost cl = cs@.map_values(|c: Clause| c@);
    let mut lo: usize = usize::MAX;
    let mut hi: usize = 0;
    let mut i: usize = 0;
    while i < cs.len()
        invariant
            i <= cs@.len(),
            cl == cs@.map_values(|c: Clause| c@),
            forall|a: int, b: int|
                0 <= a < i && 0 <= b < cl[a].len() ==> lo <= (#[trigger] cl[a][b]).index() <= hi,
            (lo == usize::MAX && hi == 0) || (occurs(cl, lo as int) && occurs(cl, hi as int)),
        decreases cs@.len() - i,
    {
        let lits = &cs[i].0;
        assert(lits@ == cl[i as int]);
        let mut j: usize = 0;
        while j < lits.len()
            invariant
                i < cs@.len(),
                j <= lits@.len(),
                lits@ == cl[i as int],
                cl == cs@.map_values(|c: Clause| c@),
                forall|a: int, b: int|
                    (0 <= a < i && 0 <= b < cl[a].len()) || (a == i && 0 <= b < j) ==> lo <= (
                    #[trigger] cl[a][b]).index() <= hi,
                (lo == usize::MAX && hi == 0) || (occurs(cl, lo as int) && occurs(cl, hi as int)),
            decreases lits@.len() - j,
        {
            let v = lits[j].var();
            assert(cl[i as int][j as int].index() == v);
            if v < lo {
                lo = v;
            }
            if v > hi {
                hi = v;
            }
            j += 1;
        }
        i += 1;
    }
    (lo, hi)
}

/// Every slot of `m` holds a value.
pub open spec fn total(m: Seq<Option<bool>>) -> bool {
    forall|k: int| 0 <= k < m.len() ==> (#[trigger] m[k]) is Some
}

/// The values of the slots of `m`, an unassigned slot read as false.
pub open spec fn values(m: Seq<Option<bool>>) -> Seq<bool> {
    m.map_values(|o: Option<bool>| o == Some(true))
}

/// An assignment of truth values to the variables of a formula, slot `v - 1`
/// holding variable `v`.
#[derive(Clone, Debug, PartialEq)]
pub struct Model<'a> {
    pub cnf: &'a Conjunction,
    pub assignments: Vec<Option<bool>>,
}

impl<'a> Model<'a> {
    /// One unassigned slot for each variable of the formula's domain.
    pub fn new(cnf: &'a Conjunction) -> (r: Model<'a>)
        requires
            cnf.atom_domain.start <= cnf.atom_domain.end,
        ensures
            r.cnf == cnf,
            r.assignments@ == Seq::new(cnf.width() as nat, |k: int| None::<bool>),
    {
        let n = cnf.atom_domain.end - cnf.atom_domain.start;
        let mut assignments: Vec<Option<bool>> = Vec::new();
        while assignments.len() < n
            invariant
                assignments@.len() <= n,
                forall|k: int| 0 <= k < assignments@.len() ==> assignments@[k] == None::<bool>,
            decreases n - assignments@.len(),
        {
            assignments.push(None);
        }
        let r = Model { cnf, assignments };
        assert(r.assignments@ =~= Seq::new(cnf.width() as nat, |k: int| None::<bool>));
        r
    }

    /// Sets variable `variable` to `value`.
    pub fn assign(&mut self, variable: usize, value: bool)
        requires
            1 <= variable <= old(self).assignments@.len(),
        ensures
            final(self).cnf == old(self).cnf,
            final(self).assignments@ == old(self).assignments@.update(variable - 1, Some(value)),
    {
        self.assignments.set(variable - 1, Some(value));
    }

    /// Clears variable `variable`.
    pub fn unassign(&mut self, variable: usize)
        requires
            1 <= variable <= old(self).assignments@.len(),
        ensures
            final(self).cnf == old(self).cnf,
            final(self).assignments@ == old(self).assignments@.update(variable - 1, None),
    {
        self.assignments.set(variable - 1, None);
    }

    /// Whether every clause of the formula holds under the (total) assignment.
    pub fn eval(&self) -> (r: bool)
        requires
            total(self.assignments@),
            formula_within(self.cnf.clauses(), self.assignments@.len() as int),
        ensures
            r == formula_holds(self.cnf.clauses(), values(self.assignments@)),
    {
        let mut unwrapped: Vec<bool> = Vec::new();
        let mut k: usize = 0;
        while k < self.assignments.len()
            invariant
                k <= self.assignments@.len(),
                unwrapped@ == values(self.assignments@).subrange(0, k as int),
            decreases self.assignments@.len() - k,
        {
            let b = match self.assignments[k] {
                Some(b) => b,
                None => false,
            };
            unwrapped.push(b);
            k += 1;
            assert(unwrapped@ =~= values(self.assignments@).subrange(0, k as int));
        }
        assert(unwrapped@ =~= values(self.assignments@));
        let ghost cl = self.cnf.clauses();
        let mut all = true;
        let mut i: usize = 0;
        while i < self.cnf.disjunctions.len()
            invariant
                i <= cl.len(),
                cl == self.cnf.clauses(),
                unwrapped@ == values(self.assignments@),
                formula_within(cl, unwrapped@.len() as int),
                all == forall|a: int| 0 <= a < i ==> clause_holds(#[trigger] cl[a], unwrapped@),
            decreases cl.len() - i,
        {
            assert(self.cnf.disjunctions[i as int]@ == cl[i as int]);
            all = all && self.cnf.disjunctions[i].eval(&unwrapped);
            i += 1;
        }
        all
    }
}

/// The outcome of a search.
#[derive(Clone, Debug, PartialEq)]
pub enum Result<'a> {
    Sat(&'a Model<'a>),
    Unsat,
}

} // verus!
