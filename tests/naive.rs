use cnf_sat::solvers::naive::Naive;
use cnf_sat::solvers::Solver;
use cnf_sat::types::{Clause, Conjunction, Literal, Model, Result};

#[test]
fn test_trivial_sat() {
    let cnf = Conjunction{
        atom_domain: 1..2,
        disjunctions: vec![
            Clause::from_variables(vec![Literal::Positive(1)]),
            Clause::from_variables(vec![Literal::Positive(1)])],
    };

    let mut solver = Naive::new(&cnf);
    match solver.solve() {
        Result::Sat(model) => assert_eq!(model.eval(), true),
        _ => assert!(false),
    };
}

#[test]
fn test_trivial_unsat() {
    let cnf = Conjunction{
        atom_domain: 1..2,
        disjunctions: vec![
            Clause::from_variables(vec![Literal::Positive(1)]),
            Clause::from_variables(vec![Literal::Negative(1)])],
    };

    let mut solver = Naive::new(&cnf);
    match solver.solve() {
        Result::Unsat => assert!(true),
        _ => assert!(false),
    };
}

#[test]
fn trivial_sat_sets_x1_true() {
    let cnf = Conjunction::new(vec![
        Clause::from_variables(vec![Literal::Positive(1)]),
        Clause::from_variables(vec![Literal::Positive(1)]),
    ]);
    assert_eq!(cnf.atom_domain, 1..2);
    let mut solver = Naive::new(&cnf);
    match solver.solve() {
        Result::Sat(model) => assert_eq!(model.assignments, vec![Some(true)]),
        Result::Unsat => panic!("expected a model"),
    }
}

#[test]
fn literal_tokens() {
    assert_eq!(Literal::from_dimacs_token(5), Literal::Positive(5));
    assert_eq!(Literal::from_dimacs_token(-7), Literal::Negative(7));
    assert_eq!(Literal::Negative(7).var(), 7);
    assert!(Literal::Positive(2).as_bool());
    assert!(!Literal::Negative(2).as_bool());
}

fn example_formula() -> Conjunction {
    Conjunction::new(vec![
        Clause::from_variables(vec![Literal::Positive(1), Literal::Negative(3)]),
        Clause::from_variables(vec![
            Literal::Positive(2),
            Literal::Positive(3),
            Literal::Negative(1),
        ]),
    ])
}

#[test]
fn evaluation_follows_each_clause() {
    let cnf = example_formula();
    let a = vec![true, false, false];
    assert!(cnf.disjunctions[0].eval(&a));
    assert!(!cnf.disjunctions[1].eval(&a));
    let mut model = Model::new(&cnf);
    model.assign(1, true);
    model.assign(2, false);
    model.assign(3, false);
    assert!(!model.eval());
    model.assign(2, true);
    assert!(model.eval());
}

#[test]
fn model_slots() {
    let cnf = example_formula();
    let mut model = Model::new(&cnf);
    assert_eq!(model.assignments, vec![None, None, None]);
    model.assign(3, true);
    assert_eq!(model.assignments, vec![None, None, Some(true)]);
    model.unassign(3);
    assert_eq!(model.assignments, vec![None, None, None]);
}

#[test]
fn conjunction_domain() {
    let cnf = example_formula();
    assert_eq!(cnf.atom_domain, 1..4);
    assert!(Conjunction::try_new(vec![Clause::from_variables(vec![Literal::Positive(2)])]).is_none());
    assert!(Conjunction::try_new(vec![]).is_none());
    let ok = Conjunction::try_new(vec![Clause::from_variables(vec![
        Literal::Negative(1),
        Literal::Positive(4),
    ])])
    .expect("least variable is 1");
    assert_eq!(ok.atom_domain, 1..5);
}

fn holds(clauses: &[Vec<i64>], a: &[bool]) -> bool {
    clauses.iter().all(|c| {
        c.iter().any(|&l| a[(l.unsigned_abs() - 1) as usize] == (l > 0))
    })
}

fn to_formula(clauses: &[Vec<i64>]) -> Conjunction {
    Conjunction::new(
        clauses
            .iter()
            .map(|c| Clause::from_variables(c.iter().map(|&l| Literal::from_dimacs_token(l)).collect()))
            .collect(),
    )
}

#[test]
fn search_agrees_with_brute_force() {
    let mut seed: u64 = 0x2545_f491_4f6c_dd1d;
    let mut next = move || {
        seed ^= seed << 13;
        seed ^= seed >> 7;
        seed ^= seed << 17;
        seed
    };
    for round in 0..300 {
        let n = 1 + (round % 5) as i64;
        let m = 1 + (next() % 9) as usize;
        let mut clauses: Vec<Vec<i64>> = Vec::new();
        for k in 0..m {
            let len = 1 + (next() % 3) as usize;
            let mut c: Vec<i64> = Vec::new();
            for _ in 0..len {
                let v = 1 + (next() % n as u64) as i64;
                c.push(if next() % 2 == 0 { v } else { -v });
            }
            if k == 0 {
                c[0] = 1;
            }
            clauses.push(c);
        }
        let cnf = to_formula(&clauses);
        let width = cnf.atom_domain.end - 1;
        let sat = (0u32..(1u32 << width)).any(|bits| {
            let a: Vec<bool> = (0..width).map(|i| bits & (1 << i) != 0).collect();
            holds(&clauses, &a)
        });
        let mut solver = Naive::new(&cnf);
        match solver.solve() {
            Result::Sat(model) => {
                assert!(sat);
                assert!(model.eval());
                let a: Vec<bool> = model.assignments.iter().map(|o| o.unwrap()).collect();
                assert!(holds(&clauses, &a));
            }
            Result::Unsat => assert!(!sat),
        }
    }
}

#[test]
fn search_finds_assignment_needing_false_then_true() {
    // Only x1 = false, x2 = true satisfies this formula.
    let cnf = to_formula(&[vec![-1], vec![2], vec![1, 2]]);
    let mut solver = Naive::new(&cnf);
    match solver.solve() {
        Result::Sat(model) => assert_eq!(model.assignments, vec![Some(false), Some(true)]),
        Result::Unsat => panic!("expected a model"),
    }
}
