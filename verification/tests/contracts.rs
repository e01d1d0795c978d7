use pminimal::encodings::{ObjEncoding, VarManager};
use pminimal::types::MAX_VAR_IDX;
use pminimal::{
    Assignment, Clause, DefaultBlocking, EncodingError, EnumOptions, HeurImprOptions,
    HeurImprWhen, Instance, Lit, LoggerError, NeverTerminate, NoLog, NonDomPoint,
    Options, PMinimal, Phase, SoftObjective, SolverResult, Termination, TernaryVal,
    WriteSolverLog,
};

type Solver = PMinimal<DefaultBlocking, NoLog, NeverTerminate>;

fn soft(l: Lit, w: usize) -> (Clause, usize) {
    (Clause::from_vec(vec![l.not()]), w)
}

fn trade_off() -> Instance {
    let x = Lit::positive(0);
    let y = Lit::positive(1);
    Instance {
        clauses: vec![Clause::from_vec(vec![x, y])],
        n_vars: 2,
        objectives: vec![
            SoftObjective { softs: vec![soft(x, 1)], offset: 0 },
            SoftObjective { softs: vec![soft(y, 1)], offset: 0 },
        ],
    }
}

#[derive(Default)]
struct Improvements {
    seen: Vec<(usize, usize, usize, usize)>,
}

impl WriteSolverLog for Improvements {
    fn log_candidate(&mut self, _: &Vec<usize>, _: Phase) -> Result<(), LoggerError> {
        Ok(())
    }

    fn log_oracle_call(&mut self, _: SolverResult, _: Phase) -> Result<(), LoggerError> {
        Ok(())
    }

    fn log_solution(&mut self) -> Result<(), LoggerError> {
        Ok(())
    }

    fn log_pareto_point(&mut self, _: &NonDomPoint) -> Result<(), LoggerError> {
        Ok(())
    }

    fn log_heuristic_obj_improvement(
        &mut self,
        obj_idx: usize,
        apparent_cost: usize,
        improved_cost: usize,
        learned_clauses: usize,
    ) -> Result<(), LoggerError> {
        self.seen.push((obj_idx, apparent_cost, improved_cost, learned_clauses));
        Ok(())
    }
}

#[test]
fn literal_counted_before_its_flip_is_not_in_the_cost() {
    // the objective holds x, z, x; the clause x or not z keeps the first x as long as z is true
    let x = Lit::positive(0);
    let z = Lit::positive(1);
    let inst = Instance {
        clauses: vec![Clause::from_vec(vec![x, z.not()])],
        n_vars: 2,
        objectives: vec![SoftObjective {
            softs: vec![soft(x, 1), soft(z, 1), soft(x, 1)],
            offset: 0,
        }],
    };
    let mut opts = Options::default();
    opts.heuristic_improvements = HeurImprOptions {
        solution_tightening: HeurImprWhen::Always,
        tightening_clauses: HeurImprWhen::Never,
    };
    let mut solver: PMinimal<DefaultBlocking, Improvements, NeverTerminate> =
        PMinimal::default_init_with_options(inst, opts).unwrap();
    solver.attach_logger(Improvements::default());
    let mut sol = Assignment::from_vec(vec![TernaryVal::True, TernaryVal::True]);
    let cost = solver.get_cost_with_heuristic_improvements(0, &mut sol, true, false);
    assert_eq!(sol.lit_value(x), TernaryVal::False);
    assert_eq!(sol.lit_value(z), TernaryVal::False);
    assert_eq!(cost, Ok(0));
    assert_eq!(solver.objs[0].eval_internal(&sol), 0);
    // the loggers are told the cost before and the cost after
    assert_eq!(solver.detach_logger(0).unwrap().seen, vec![(0, 3, 0, 0)]);
}

#[test]
fn reserving_succeeds_where_there_is_room() {
    let mut opts = Options::default();
    opts.reserve_enc_vars = true;
    let solver: Solver = PMinimal::default_init_with_options(trade_off(), opts).unwrap();
    assert!(solver.var_manager.n_used() >= 2);
    let x = Lit::positive(0);
    let weighted = Instance {
        clauses: vec![],
        n_vars: 2,
        objectives: vec![SoftObjective {
            softs: vec![soft(x, 2), soft(Lit::positive(1), 5)],
            offset: 0,
        }],
    };
    let solver: Solver = PMinimal::default_init_with_options(weighted, opts).unwrap();
    assert!(solver.var_manager.n_used() > 2);
    // where there is no room for what the encoder can take, it is not built
    let lits: Vec<Lit> = (0..3).map(Lit::positive).collect();
    let mut vm = VarManager::from_next_free(MAX_VAR_IDX - 192);
    assert!(ObjEncoding::new_unweighted(&lits, true, &mut vm).is_ok());
    let mut vm = VarManager::from_next_free(MAX_VAR_IDX - 191);
    assert_eq!(
        ObjEncoding::new_unweighted(&lits, true, &mut vm).err(),
        Some(EncodingError::OutOfVariables)
    );
}

#[test]
fn encoders_that_reserved_take_no_more() {
    let mut opts = Options::default();
    opts.reserve_enc_vars = true;
    let inst = Instance {
        clauses: vec![],
        n_vars: 4,
        objectives: vec![
            SoftObjective {
                softs: (0..4).map(|i| soft(Lit::positive(i), 1)).collect(),
                offset: 0,
            },
            SoftObjective {
                softs: vec![soft(Lit::positive(0), 2), soft(Lit::positive(1), 3)],
                offset: 0,
            },
        ],
    };
    let mut solver: Solver = PMinimal::default_init_with_options(inst, opts).unwrap();
    // no variable is left, and none is needed
    solver.var_manager = VarManager::from_next_free(MAX_VAR_IDX);
    let assumps = solver.enforce_dominating(&vec![2, 3]).unwrap();
    assert!(assumps.len() >= 2);
    assert!(solver.enforce_dominating(&vec![0, 0]).is_ok());
    assert!(solver.enforce_dominating(&vec![3, 4]).is_ok());
    assert_eq!(solver.var_manager.n_used(), MAX_VAR_IDX);
    for stats in solver.encoding_stats() {
        assert_eq!(stats.n_vars, 0);
    }
}

#[test]
fn bounds_that_are_encoded_are_not_encoded_again() {
    let mut solver: Solver = PMinimal::default_init(trade_off()).unwrap();
    let first = solver.enforce_dominating(&vec![0, 0]).unwrap();
    let n_vars = solver.var_manager.n_used();
    let stats = solver.encoding_stats();
    let held = solver.oracle_stats();
    let second = solver.enforce_dominating(&vec![0, 0]).unwrap();
    assert_eq!(first, second);
    assert_eq!(solver.var_manager.n_used(), n_vars);
    assert_eq!(solver.encoding_stats(), stats);
    assert_eq!(solver.oracle_stats(), held);

    let lits: Vec<Lit> = (0..6).map(Lit::positive).collect();
    let mut vm = VarManager::from_next_free(6);
    let mut enc = ObjEncoding::new_unweighted(&lits, false, &mut vm).unwrap();
    let mut collector: Vec<Clause> = Vec::new();
    enc.encode_ub_change(1..5, &mut collector, &mut vm).unwrap();
    let emitted = collector.len();
    let used = vm.n_used();
    for (start, end) in [(1, 5), (1, 2), (2, 4), (4, 5), (3, 3)] {
        assert_eq!(enc.encode_ub_change(start..end, &mut collector, &mut vm), Ok(()));
        assert_eq!(collector.len(), emitted);
        assert_eq!(vm.n_used(), used);
    }
    let weights = vec![(Lit::positive(0), 2), (Lit::positive(1), 3), (Lit::positive(2), 7)];
    let mut vm = VarManager::from_next_free(3);
    let mut enc = ObjEncoding::new_weighted(&weights, false, &mut vm).unwrap();
    let mut collector: Vec<Clause> = Vec::new();
    enc.encode_ub_change(2..9, &mut collector, &mut vm).unwrap();
    let emitted = collector.len();
    let used = vm.n_used();
    for (start, end) in [(2, 9), (2, 3), (4, 8), (8, 9)] {
        assert_eq!(enc.encode_ub_change(start..end, &mut collector, &mut vm), Ok(()));
        assert_eq!(collector.len(), emitted);
        assert_eq!(vm.n_used(), used);
    }
}

#[test]
fn first_objective_without_room_ends_the_bounds() {
    let mut solver: Solver = PMinimal::default_init(trade_off()).unwrap();
    solver.var_manager = VarManager::from_next_free(MAX_VAR_IDX - 63);
    let refused = Err(Termination::EncodingError(EncodingError::OutOfVariables));
    assert_eq!(solver.enforce_dominating(&vec![0, 1]), refused);
    assert_eq!(solver.enforce_dominating(&vec![1, 0]), refused);
    assert_eq!(solver.dominated_block_clause(&vec![1, 0]).err(), refused.clone().err());
    assert_eq!(solver.var_manager.n_used(), MAX_VAR_IDX - 63);
    solver.var_manager = VarManager::from_next_free(MAX_VAR_IDX - 64);
    assert!(solver.enforce_dominating(&vec![0, 1]).is_ok());
}

#[test]
fn question_blocks_what_the_candidate_dominates() {
    let mut solver: Solver = PMinimal::default_init(trade_off()).unwrap();
    // nothing costs less than nothing in both objectives
    assert_eq!(solver.ask_below(&vec![1, 0], None), Ok((SolverResult::Unsat, None)));
    assert_eq!(solver.oracle.solve_assumps(&vec![Lit::positive(0)]), Ok(SolverResult::Unsat));

    let mut opts = Options::default();
    opts.enumeration = EnumOptions::Solutions(None);
    let mut solver: Solver = PMinimal::default_init_with_options(trade_off(), opts).unwrap();
    let (res, switch) = solver.ask_below(&vec![1, 1], None).unwrap();
    assert_eq!(res, SolverResult::Sat);
    let first = switch.unwrap();
    assert!(first.is_neg());
    // the block holds only under its switch
    assert_eq!(
        solver.oracle.solve_assumps(&vec![Lit::positive(0), Lit::positive(1)]),
        Ok(SolverResult::Sat)
    );
    let (_, switch) = solver.ask_below(&vec![1, 0], Some(first)).unwrap();
    let second = switch.unwrap();
    assert!(second.vidx() > first.vidx());
    // the earlier block is permanent now
    assert_eq!(
        solver.oracle.solve_assumps(&vec![Lit::positive(0), Lit::positive(1)]),
        Ok(SolverResult::Unsat)
    );
    assert_eq!(solver.oracle.solve_assumps(&vec![first.not()]), Ok(SolverResult::Unsat));
    assert_eq!(solver.oracle.solve_assumps(&vec![second.not()]), Ok(SolverResult::Sat));
}

#[test]
fn first_solution_that_uses_up_the_limit_is_the_only_one() {
    let mut opts = Options::default();
    opts.enumeration = EnumOptions::Solutions(None);
    let inst = Instance {
        clauses: vec![],
        n_vars: 3,
        objectives: vec![SoftObjective { softs: vec![soft(Lit::positive(0), 1)], offset: 0 }],
    };
    let mut solver: Solver = PMinimal::default_init_with_options(inst, opts).unwrap();
    solver.lims.sols = Some(1);
    let asked = solver.oracle_stats();
    let sol = Assignment::from_vec(vec![TernaryVal::False, TernaryVal::True, TernaryVal::True]);
    assert_eq!(solver.enumerate_at_pareto_point(vec![0], sol), Err(Termination::SolsLimit));
    let front = solver.pareto_front();
    assert_eq!(front.len(), 1);
    assert_eq!(front.index(0).n_sols(), 1);
    assert_eq!(solver.stats().n_pareto_points, 1);
    assert_eq!(solver.stats().n_solutions, 1);
    let now = solver.oracle_stats();
    assert_eq!((now.n_sat, now.n_unsat), (asked.n_sat, asked.n_unsat));
}

#[test]
fn point_without_enumeration_leaves_the_oracle_unasked() {
    let mut solver: Solver = PMinimal::default_init(trade_off()).unwrap();
    let sol = Assignment::from_vec(vec![TernaryVal::True, TernaryVal::False]);
    assert_eq!(solver.enumerate_at_pareto_point(vec![1, 0], sol), Ok(()));
    let stats = solver.oracle_stats();
    assert_eq!((stats.n_sat, stats.n_unsat, stats.n_terminated), (0, 0, 0));
    assert_eq!(solver.pareto_front().index(0).n_sols(), 1);
    assert_eq!(solver.stats().n_pareto_points, 1);
}

#[test]
fn point_with_encoded_bounds_leaves_the_oracle_as_it_is() {
    let mut solver: Solver = PMinimal::default_init(trade_off()).unwrap();
    solver.enforce_dominating(&vec![1, 0]).unwrap();
    let held = solver.oracle_stats();
    let used = solver.var_manager.n_used();
    let sol = Assignment::from_vec(vec![TernaryVal::True, TernaryVal::False]);
    assert_eq!(solver.enumerate_at_pareto_point(vec![1, 0], sol), Ok(()));
    assert_eq!(solver.oracle_stats(), held);
    assert_eq!(solver.var_manager.n_used(), used);
    assert_eq!(solver.pareto_front().index(0).costs(), &vec![1, 0]);
}

#[test]
fn solution_below_a_candidate_costs_less() {
    let mut opts = Options::default();
    opts.enumeration = EnumOptions::Solutions(None);
    let inst = Instance {
        clauses: vec![Clause::from_vec(vec![Lit::positive(0), Lit::positive(1), Lit::positive(2)])],
        n_vars: 3,
        objectives: vec![
            SoftObjective {
                softs: vec![soft(Lit::positive(0), 2), soft(Lit::positive(1), 3)],
                offset: 0,
            },
            SoftObjective { softs: vec![soft(Lit::positive(2), 1)], offset: 0 },
        ],
    };
    let mut solver: Solver = PMinimal::default_init_with_options(inst, opts).unwrap();
    let (res, _) = solver.ask_below(&vec![5, 1], None).unwrap();
    assert_eq!(res, SolverResult::Sat);
    let model = solver.oracle.solution(solver.var_manager.max_var().unwrap()).unwrap();
    let first = solver.objs[0].eval_internal(&model);
    let second = solver.objs[1].eval_internal(&model);
    assert!(first <= 5 && second <= 1);
    assert!(first < 5 || second < 1);
    let next = solver.descend_from(SolverResult::Sat, &vec![5, 1]).unwrap().unwrap();
    assert!(next.0[0] <= first && next.0[1] <= second);
}
