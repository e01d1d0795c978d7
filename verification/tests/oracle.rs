use pminimal::{Clause, Lit, Oracle, SolverResult, TernaryVal, Var};

#[test]
fn oracle_decides_its_clauses() {
    let x = Lit::positive(0);
    let y = Lit::positive(1);
    let mut oracle = Oracle::new();
    assert_eq!(oracle.solve(), Ok(SolverResult::Sat));
    oracle.add_clause(&Clause::from_vec(vec![x, y])).unwrap();
    oracle.add_unit(x.not()).unwrap();
    assert_eq!(oracle.solve(), Ok(SolverResult::Sat));
    let sol = oracle.solution(Var::new(1)).unwrap();
    assert_eq!(sol.len(), 2);
    assert_eq!(sol.lit_value(x), TernaryVal::False);
    assert_eq!(sol.lit_value(y), TernaryVal::True);
    oracle.add_unit(y.not()).unwrap();
    assert_eq!(oracle.solve(), Ok(SolverResult::Unsat));
}

#[test]
fn assumptions_hold_for_one_call() {
    let x = Lit::positive(0);
    let y = Lit::positive(1);
    let mut oracle = Oracle::new();
    oracle
        .add_cnf(&vec![Clause::from_vec(vec![x, y]), Clause::from_vec(vec![x.not(), y.not()])])
        .unwrap();
    assert_eq!(oracle.solve_assumps(&vec![x, y]), Ok(SolverResult::Unsat));
    assert_eq!(oracle.solve_assumps(&vec![x]), Ok(SolverResult::Sat));
    let sol = oracle.solution(Var::new(1)).unwrap();
    assert_eq!(sol.lit_value(x), TernaryVal::True);
    assert_eq!(sol.lit_value(y), TernaryVal::False);
    assert_eq!(oracle.solve_assumps(&vec![x.not()]), Ok(SolverResult::Sat));
    let sol = oracle.solution(Var::new(1)).unwrap();
    assert_eq!(sol.lit_value(y), TernaryVal::True);
}

#[test]
fn solution_covers_the_variables_asked_for() {
    let mut oracle = Oracle::new();
    oracle.reserve(Var::new(6)).unwrap();
    oracle.add_unit(Lit::positive(2)).unwrap();
    assert_eq!(oracle.solve(), Ok(SolverResult::Sat));
    assert_eq!(oracle.solution(Var::new(4)).unwrap().len(), 5);
    assert_eq!(oracle.solution(Var::new(0)).unwrap().len(), 1);
    assert_eq!(oracle.solution(Var::new(9)).unwrap().len(), 10);
}

#[test]
fn solution_needs_a_satisfiable_answer() {
    let mut oracle = Oracle::new();
    oracle.add_unit(Lit::positive(0)).unwrap();
    assert!(oracle.solution(Var::new(0)).is_err());
    oracle.add_unit(Lit::negative(0)).unwrap();
    assert_eq!(oracle.solve(), Ok(SolverResult::Unsat));
    assert!(oracle.solution(Var::new(0)).is_err());
}

#[test]
fn oracle_counts_its_calls() {
    let mut oracle = Oracle::new();
    oracle.add_unit(Lit::positive(3)).unwrap();
    oracle.solve().unwrap();
    oracle.solve_assumps(&vec![Lit::negative(3)]).unwrap();
    let stats = oracle.stats();
    assert_eq!(stats.n_sat, 1);
    assert_eq!(stats.n_unsat, 1);
    assert_eq!(stats.n_terminated, 0);
    assert_eq!(stats.max_var, Some(3));
}

#[test]
fn model_is_gone_when_a_clause_is_added() {
    let x = Lit::positive(0);
    let y = Lit::positive(1);
    let mut oracle = Oracle::new();
    assert!(oracle.solution(Var::new(0)).is_err());
    oracle.add_clause(&Clause::from_vec(vec![x, y])).unwrap();
    assert_eq!(oracle.solve(), Ok(SolverResult::Sat));
    assert!(oracle.solution(Var::new(1)).is_ok());
    // making room keeps the model
    assert_eq!(oracle.reserve(Var::new(8)), Ok(()));
    assert!(oracle.solution(Var::new(1)).is_ok());
    oracle.add_unit(x).unwrap();
    assert!(oracle.solution(Var::new(1)).is_err());
    assert_eq!(oracle.solve_assumps(&vec![y.not()]), Ok(SolverResult::Sat));
    assert!(oracle.solution(Var::new(1)).is_ok());
    // an answer other than `Sat` leaves no model
    assert_eq!(oracle.solve_assumps(&vec![x.not()]), Ok(SolverResult::Unsat));
    assert!(oracle.solution(Var::new(1)).is_err());
}

#[test]
fn solution_makes_the_clauses_true() {
    let l = |i: u32| Lit::positive(i);
    let cnf = vec![
        Clause::from_vec(vec![l(0), l(1), l(2)]),
        Clause::from_vec(vec![l(0).not(), l(1).not()]),
        Clause::from_vec(vec![l(1).not(), l(2).not()]),
        Clause::from_vec(vec![l(0).not(), l(2).not()]),
        Clause::from_vec(vec![l(3), l(0)]),
        Clause::from_vec(vec![l(3).not(), l(2)]),
    ];
    let mut oracle = Oracle::new();
    assert_eq!(oracle.add_cnf(&cnf), Ok(()));
    assert_eq!(oracle.solve_assumps(&vec![l(1).not()]), Ok(SolverResult::Sat));
    let sol = oracle.solution(Var::new(3)).unwrap();
    for clause in &cnf {
        assert!((0..clause.len()).any(|i| sol.lit_value(clause.get(i)) == TernaryVal::True));
    }
    assert_eq!(sol.lit_value(l(1)), TernaryVal::False);
}

#[test]
fn oracle_takes_every_clause() {
    let mut oracle = Oracle::new();
    assert_eq!(oracle.add_clause(&Clause::new()), Ok(()));
    assert_eq!(oracle.add_unit(Lit::positive(2)), Ok(()));
    let both = Clause::from_vec(vec![Lit::positive(0), Lit::negative(0)]);
    assert_eq!(oracle.add_clause(&both), Ok(()));
    assert_eq!(oracle.solve(), Ok(SolverResult::Unsat));
    assert_eq!(oracle.solve_assumps(&vec![Lit::positive(5)]), Ok(SolverResult::Unsat));
}

#[test]
fn repeated_answer_is_not_counted() {
    let mut oracle = Oracle::new();
    let fresh = oracle.stats();
    assert_eq!((fresh.n_sat, fresh.n_unsat, fresh.n_terminated), (0, 0, 0));
    oracle.add_unit(Lit::positive(0)).unwrap();
    assert_eq!(oracle.solve(), Ok(SolverResult::Sat));
    assert_eq!(oracle.solve(), Ok(SolverResult::Sat));
    assert_eq!(oracle.stats().n_sat, 1);
    assert_eq!(oracle.solve_assumps(&vec![]), Ok(SolverResult::Sat));
    assert_eq!(oracle.solve_assumps(&vec![Lit::negative(0)]), Ok(SolverResult::Unsat));
    assert_eq!(oracle.solve_assumps(&vec![Lit::negative(0)]), Ok(SolverResult::Unsat));
    oracle.reserve(Var::new(4)).unwrap();
    oracle.add_unit(Lit::positive(1)).unwrap();
    let stats = oracle.stats();
    assert_eq!((stats.n_sat, stats.n_unsat, stats.n_terminated), (2, 2, 0));
}
