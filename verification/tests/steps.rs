use pminimal::encodings::{ObjEncoding, VarManager};
use pminimal::types::MAX_VAR_IDX;
use pminimal::{
    Assignment, Clause, DefaultBlocking, EncodingError, EnumOptions, Instance, Limits, Lit,
    NeverTerminate, NoLog, NonDomPoint, Objective, ObjectiveError, Options, PMinimal,
    ParetoFront, SoftObjective, SolverResult, Stats, Termination, TernaryVal, Var,
};

type Solver = PMinimal<DefaultBlocking, NoLog, NeverTerminate>;

fn soft(l: Lit, w: usize) -> (Clause, usize) {
    (Clause::from_vec(vec![l.not()]), w)
}

fn constants() -> Instance {
    Instance {
        clauses: vec![],
        n_vars: 0,
        objectives: vec![
            SoftObjective { softs: vec![], offset: 3 },
            SoftObjective { softs: vec![], offset: -2 },
        ],
    }
}

fn trade_off() -> Instance {
    let x = Lit::positive(0);
    let y = Lit::positive(1);
    Instance {
        clauses: vec![Clause::from_vec(vec![x, y])],
        n_vars: 2,
        objectives: vec![
            SoftObjective { softs: vec![soft(x, 1)], offset: 0 },
            SoftObjective { softs: vec![soft(y, 1)], offset: 0 },
        ],
    }
}

#[test]
fn point_of_the_offsets_is_counted_once() {
    let mut solver: Solver = PMinimal::default_init(constants()).unwrap();
    assert_eq!(solver.solve(Limits::none()), Ok(()));
    let front = solver.pareto_front();
    assert_eq!(front.len(), 1);
    assert_eq!(front.index(0).costs(), &vec![3, -2]);
    assert_eq!(front.index(0).iter(), &vec![Assignment::empty()]);
    let stats = solver.stats();
    assert_eq!(stats.n_solutions, 1);
    assert_eq!(stats.n_pareto_points, 1);
    assert_eq!(stats.n_oracle_calls, 0);
    assert_eq!(stats.n_candidates, 0);
    // a second run counts nothing
    assert_eq!(solver.solve(Limits::none()), Ok(()));
    assert_eq!(solver.pareto_front().len(), 1);
    let again = solver.stats();
    assert_eq!(again.n_solutions, 1);
    assert_eq!(again.n_pareto_points, 1);
    assert_eq!(again.n_solve_calls, 2);
    assert_eq!(solver.oracle_stats().n_sat + solver.oracle_stats().n_unsat, 0);
}

#[test]
fn limit_keeps_the_point_of_the_offsets() {
    let mut solver: Solver = PMinimal::default_init(constants()).unwrap();
    let limits = Limits { sols: Some(1), ..Limits::none() };
    assert_eq!(solver.solve(limits), Err(Termination::SolsLimit));
    let front = solver.pareto_front();
    assert_eq!(front.len(), 1);
    assert_eq!(front.index(0).costs(), &vec![3, -2]);
    assert_eq!(front.index(0).iter(), &vec![Assignment::empty()]);
    assert_eq!(solver.stats().n_solutions, 1);
    // the next run finds the point in place
    assert_eq!(solver.solve(Limits::none()), Ok(()));
    assert_eq!(solver.pareto_front().len(), 1);
    assert_eq!(solver.stats().n_solutions, 1);

    let mut solver: Solver = PMinimal::default_init(constants()).unwrap();
    let limits = Limits { pps: Some(1), ..Limits::none() };
    assert_eq!(solver.solve(limits), Err(Termination::PPLimit));
    assert_eq!(solver.pareto_front().len(), 1);
}

#[test]
fn heavy_weights_are_refused() {
    let half = (isize::MAX as usize) / 2 + 1;
    let lits = vec![(Lit::positive(0), half), (Lit::positive(1), half)];
    assert_eq!(Objective::new(lits.clone(), 0).err(), Some(ObjectiveError::Overflow));
    // the weights alone do not fit, whatever the offset takes back
    assert_eq!(Objective::new(lits, isize::MIN).err(), Some(ObjectiveError::Overflow));
    let fits = vec![(Lit::positive(0), half - 1), (Lit::positive(1), half)];
    assert!(Objective::new(fits.clone(), 0).is_ok());
    assert_eq!(Objective::new(fits, 1).err(), Some(ObjectiveError::Overflow));
}

#[test]
fn encoder_is_not_built_without_room_for_its_variables() {
    let lits: Vec<Lit> = (0..4).map(Lit::positive).collect();
    let mut vm = VarManager::from_next_free(MAX_VAR_IDX - 255);
    assert_eq!(
        ObjEncoding::new_unweighted(&lits, true, &mut vm).err(),
        Some(EncodingError::OutOfVariables)
    );
    assert_eq!(vm.n_used(), MAX_VAR_IDX - 255);
    let mut vm = VarManager::from_next_free(MAX_VAR_IDX - 256);
    assert!(ObjEncoding::new_unweighted(&lits, true, &mut vm).is_ok());
    // without reserving nothing is taken, and nothing is asked
    let mut vm = VarManager::from_next_free(MAX_VAR_IDX);
    assert!(ObjEncoding::new_unweighted(&lits, false, &mut vm).is_ok());

    let weights = vec![(Lit::positive(0), 2), (Lit::positive(1), 3), (Lit::positive(2), 7)];
    let mut vm = VarManager::from_next_free(MAX_VAR_IDX - 35);
    assert_eq!(
        ObjEncoding::new_weighted(&weights, true, &mut vm).err(),
        Some(EncodingError::OutOfVariables)
    );
    let mut vm = VarManager::from_next_free(MAX_VAR_IDX - 36);
    assert!(ObjEncoding::new_weighted(&weights, true, &mut vm).is_ok());
}

#[test]
fn bounds_are_not_encoded_without_room_for_variables() {
    let mut solver: Solver = PMinimal::default_init(trade_off()).unwrap();
    solver.var_manager = VarManager::from_next_free(MAX_VAR_IDX - 10);
    let before = solver.oracle_stats();
    assert_eq!(
        solver.enforce_dominating(&vec![0, 1]),
        Err(Termination::EncodingError(EncodingError::OutOfVariables))
    );
    assert_eq!(solver.oracle_stats(), before);
    assert_eq!(solver.var_manager.n_used(), MAX_VAR_IDX - 10);
    // costs that need no encoding need no room
    assert_eq!(solver.enforce_dominating(&vec![1, 1]), Ok(vec![]));
}

#[test]
fn main_routine_follows_the_answer_of_the_oracle() {
    let mut solver: Solver = PMinimal::default_init(trade_off()).unwrap();
    assert_eq!(solver.start_from(SolverResult::Unsat), Ok(true));
    assert_eq!(solver.start_from(SolverResult::Interrupted), Err(Termination::Callback));
    assert_eq!(solver.stats().n_oracle_calls, 2);
    assert_eq!(solver.pareto_front().len(), 0);
    assert_eq!(solver.oracle_stats().n_sat, 0);
    assert_eq!(solver.oracle.solve(), Ok(SolverResult::Sat));
    assert_eq!(solver.start_from(SolverResult::Sat), Ok(false));
    assert_eq!(solver.pareto_front().len(), 1);
    assert_eq!(solver.oracle.solve(), Ok(SolverResult::Sat));
    assert_eq!(solver.start_from(SolverResult::Sat), Ok(false));
    assert_eq!(solver.pareto_front().len(), 2);
    assert_eq!(solver.oracle.solve(), Ok(SolverResult::Unsat));
    assert_eq!(solver.start_from(SolverResult::Unsat), Ok(true));
    assert_eq!(solver.pareto_front().len(), 2);
}

#[test]
fn descent_follows_the_answer_of_the_oracle() {
    let mut solver: Solver = PMinimal::default_init(trade_off()).unwrap();
    let fresh = solver.stats();
    assert_eq!(solver.descend_from(SolverResult::Interrupted, &vec![1, 1]), Err(Termination::Callback));
    assert_eq!(solver.stats(), fresh);
    assert_eq!(solver.descend_from(SolverResult::Unsat, &vec![1, 1]), Ok(None));
    assert_eq!(solver.stats().n_oracle_calls, 1);
    assert_eq!(solver.stats().n_candidates, 0);
    // a solution that costs less is the next candidate
    assert_eq!(
        solver.oracle.solve_assumps(&vec![Lit::negative(0)]),
        Ok(SolverResult::Sat)
    );
    let next = solver.descend_from(SolverResult::Sat, &vec![1, 1]).unwrap().unwrap();
    assert_eq!(next.0, vec![0, 1]);
    assert_eq!(next.1.lit_value(Lit::positive(0)), TernaryVal::False);
    assert_eq!(solver.stats().n_candidates, 1);
    // one that does not is not
    assert_eq!(
        solver.oracle.solve_assumps(&vec![Lit::negative(0)]),
        Ok(SolverResult::Sat)
    );
    assert_eq!(
        solver.descend_from(SolverResult::Sat, &vec![0, 1]),
        Err(Termination::OracleInconsistent)
    );
    let limits = Limits { oracle_calls: Some(1), ..Limits::none() };
    solver.lims = limits;
    assert_eq!(
        solver.descend_from(SolverResult::Unsat, &vec![0, 1]),
        Err(Termination::OracleCallsLimit)
    );
}

#[test]
fn enumeration_follows_the_answer_of_the_oracle() {
    let mut opts = Options::default();
    opts.enumeration = EnumOptions::Solutions(None);
    let inst = Instance {
        clauses: vec![],
        n_vars: 2,
        objectives: vec![SoftObjective { softs: vec![soft(Lit::positive(0), 1)], offset: 0 }],
    };
    let mut solver: Solver = PMinimal::default_init_with_options(inst, opts).unwrap();
    assert_eq!(solver.next_at_point(SolverResult::Interrupted, &vec![0]), Err(Termination::Callback));
    assert_eq!(solver.stats(), {
        let mut fresh = Stats::default();
        fresh.n_objs = 1;
        fresh
    });
    assert_eq!(solver.next_at_point(SolverResult::Unsat, &vec![0]), Ok(None));
    assert_eq!(
        solver.oracle.solve_assumps(&vec![Lit::negative(0), Lit::positive(1)]),
        Ok(SolverResult::Sat)
    );
    let sol = solver.next_at_point(SolverResult::Sat, &vec![0]).unwrap().unwrap();
    assert_eq!(sol.len(), 2);
    assert_eq!(sol.lit_value(Lit::positive(0)), TernaryVal::False);
    assert_eq!(sol.lit_value(Lit::positive(1)), TernaryVal::True);
    // the solution of the oracle does not cost one
    assert_eq!(
        solver.next_at_point(SolverResult::Sat, &vec![1]),
        Err(Termination::OracleInconsistent)
    );
}

#[test]
fn solution_is_blocked_as_the_options_say() {
    let sol = Assignment::from_vec(vec![TernaryVal::True, TernaryVal::False]);
    let mut solver: Solver = PMinimal::default_init(trade_off()).unwrap();
    let held = solver.oracle_stats().n_clauses;
    assert!(!solver.block_solution(sol.duplicate()));
    assert_eq!(solver.oracle_stats().n_clauses, held);

    let mut opts = Options::default();
    opts.enumeration = EnumOptions::PMCSs(None);
    let mut solver: Solver = PMinimal::default_init_with_options(trade_off(), opts).unwrap();
    assert!(solver.block_solution(sol.duplicate()));
    // the clause is the negation of the one objective literal that is true
    assert_eq!(solver.oracle.solve_assumps(&vec![Lit::positive(0)]), Ok(SolverResult::Unsat));
    assert_eq!(solver.oracle.solve_assumps(&vec![Lit::negative(0)]), Ok(SolverResult::Sat));

    opts.enumeration = EnumOptions::Solutions(None);
    let mut solver: Solver = PMinimal::default_init_with_options(trade_off(), opts).unwrap();
    assert!(solver.block_solution(sol));
    let both = vec![Lit::positive(0), Lit::negative(1)];
    assert_eq!(solver.oracle.solve_assumps(&both), Ok(SolverResult::Unsat));
    assert_eq!(solver.oracle.solve_assumps(&vec![Lit::positive(0)]), Ok(SolverResult::Sat));
}

#[test]
fn blocking_clause_has_the_assumption_of_each_objective() {
    let mut solver: Solver = PMinimal::default_init(trade_off()).unwrap();
    let clause = solver.dominated_block_clause(&vec![1, 0]).unwrap();
    assert_eq!(clause.len(), 1);
    assert_eq!(solver.obj_encs[0].enforce_ub(0), Ok(vec![clause.get(0)]));
    assert_eq!(clause.get(0), Lit::negative(0));
    let clause = solver.dominated_block_clause(&vec![1, 1]).unwrap();
    assert_eq!(clause.len(), 2);
    assert_eq!(solver.obj_encs[0].enforce_ub(0), Ok(vec![clause.get(0)]));
    assert_eq!(solver.obj_encs[1].enforce_ub(0), Ok(vec![clause.get(1)]));

    let n_clauses = |s: &Solver| s.oracle_stats().n_sat + s.oracle_stats().n_unsat;
    assert_eq!(n_clauses(&solver), 0);
    assert_eq!(solver.block_dominated(&vec![1, 0]), Ok(()));
    // x is false from now on
    assert_eq!(solver.oracle.solve_assumps(&vec![Lit::positive(0)]), Ok(SolverResult::Unsat));
    assert_eq!(solver.oracle.solve(), Ok(SolverResult::Sat));
    let switch = solver.tmp_block_dominated(&vec![0, 1]).unwrap();
    assert!(switch.is_neg());
    assert!(switch.vidx() >= 2);
    assert_eq!(solver.oracle.solve_assumps(&vec![switch]), Ok(SolverResult::Unsat));
    assert_eq!(solver.oracle.solve(), Ok(SolverResult::Sat));
}

#[test]
fn assumptions_come_in_the_order_of_the_objectives() {
    let mut solver: Solver = PMinimal::default_init(trade_off()).unwrap();
    let assumps = solver.enforce_dominating(&vec![0, 0]).unwrap();
    assert_eq!(assumps.len(), 2);
    assert_eq!(solver.obj_encs[0].enforce_ub(0), Ok(vec![assumps[0]]));
    assert_eq!(solver.obj_encs[1].enforce_ub(0), Ok(vec![assumps[1]]));
    assert_eq!(assumps, vec![Lit::negative(0), Lit::negative(1)]);
}

#[test]
fn incomparable_points_are_all_appended() {
    let mut front: ParetoFront = ParetoFront::new();
    let point = |costs: Vec<isize>| {
        let mut p = NonDomPoint::new(costs);
        p.add_sol(Assignment::empty());
        p
    };
    assert!(front.extend(vec![point(vec![0, 3]), point(vec![1, 2])]).is_empty());
    assert!(front.extend(vec![point(vec![3, 0]), point(vec![2, 1])]).is_empty());
    assert_eq!(front.len(), 4);
    let costs: Vec<Vec<isize>> = front.iter().iter().map(|p| p.costs().clone()).collect();
    assert_eq!(costs, vec![vec![0, 3], vec![1, 2], vec![3, 0], vec![2, 1]]);
}

#[test]
fn highest_variable_in_use_bounds_the_solutions() {
    let solver: Solver = PMinimal::default_init(trade_off()).unwrap();
    assert_eq!(solver.max_orig_var, Some(Var::new(1)));
    assert_eq!(solver.max_orig_var, solver.var_manager.max_var());
    let x = Lit::positive(0);
    let y = Lit::positive(1);
    let relaxed = Instance {
        clauses: vec![],
        n_vars: 2,
        objectives: vec![SoftObjective {
            softs: vec![(Clause::from_vec(vec![x, y]), 1), (Clause::from_vec(vec![x.not()]), 2)],
            offset: 0,
        }],
    };
    let mut solver: Solver = PMinimal::default_init(relaxed).unwrap();
    assert_eq!(solver.max_orig_var, Some(Var::new(2)));
    assert!(matches!(solver.objs[0], Objective::Weighted { .. }));
    assert_eq!(solver.solve(Limits::none()), Ok(()));
    for p in solver.pareto_front().iter() {
        for s in p.iter() {
            assert!(s.len() <= 3);
        }
    }
}

#[test]
fn no_more_is_counted_than_the_limits_admit() {
    let mut opts = Options::default();
    opts.enumeration = EnumOptions::Solutions(None);
    let inst = || Instance {
        clauses: vec![],
        n_vars: 3,
        objectives: vec![SoftObjective { softs: vec![soft(Lit::positive(0), 1)], offset: 0 }],
    };
    for k in 1..5 {
        let mut solver: Solver = PMinimal::default_init_with_options(inst(), opts).unwrap();
        let limits = Limits { sols: Some(k), ..Limits::none() };
        assert_eq!(solver.solve(limits), Err(Termination::SolsLimit));
        assert_eq!(solver.stats().n_solutions, k);
        assert_eq!(solver.pareto_front().index(0).n_sols(), k);
    }
    let mut solver: Solver = PMinimal::default_init_with_options(inst(), opts).unwrap();
    let limits = Limits { oracle_calls: Some(3), ..Limits::none() };
    assert_eq!(solver.solve(limits), Err(Termination::OracleCallsLimit));
    assert_eq!(solver.stats().n_oracle_calls, 3);
    // a limit of nothing lets one event pass
    let mut solver: Solver = PMinimal::default_init_with_options(inst(), opts).unwrap();
    let limits = Limits { candidates: Some(0), ..Limits::none() };
    assert_eq!(solver.solve(limits), Err(Termination::CandidatesLimit));
    assert_eq!(solver.stats().n_candidates, 1);
}

#[test]
fn solutions_satisfy_the_hard_clauses() {
    let l = |i: u32| Lit::positive(i);
    let hard = vec![
        Clause::from_vec(vec![l(0), l(1), l(2)]),
        Clause::from_vec(vec![l(0).not(), l(3)]),
        Clause::from_vec(vec![l(1).not(), l(2).not()]),
    ];
    let inst = Instance {
        clauses: hard.clone(),
        n_vars: 4,
        objectives: vec![
            SoftObjective { softs: vec![soft(l(0), 2), soft(l(1), 1)], offset: 1 },
            SoftObjective { softs: vec![soft(l(2), 1), soft(l(3), 1)], offset: -1 },
        ],
    };
    let mut opts = Options::default();
    opts.enumeration = EnumOptions::Solutions(None);
    let mut solver: Solver = PMinimal::default_init_with_options(inst, opts).unwrap();
    assert_eq!(solver.solve(Limits::none()), Ok(()));
    let front = solver.pareto_front();
    assert!(front.len() >= 2);
    for p in front.iter() {
        assert!(p.n_sols() >= 1);
        for s in p.iter() {
            assert_eq!(s.len(), 4);
            for c in &hard {
                assert!((0..c.len()).any(|i| s.lit_value(c.get(i)) == TernaryVal::True));
            }
        }
    }
    // the run is through: nothing satisfies what the oracle holds
    assert_eq!(solver.oracle.solve(), Ok(SolverResult::Unsat));
}
