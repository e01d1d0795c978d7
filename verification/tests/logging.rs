use pminimal::logging::Loggers;
use pminimal::{
    Assignment, BlockingClauseGen, Clause, ControlSignal, DefaultBlocking, EnumOptions, Instance,
    Limits, Lit, LoggerError, NeverTerminate, NoLog, NonDomPoint, Options, PMinimal, Phase,
    SoftObjective, SolverResult, Stats, Termination, Terminator, TernaryVal, WriteSolverLog,
};

#[derive(Debug, Default, PartialEq)]
struct Recorder {
    candidates: Vec<(Vec<usize>, Phase)>,
    oracle_calls: Vec<(SolverResult, Phase)>,
    solutions: usize,
    points: Vec<Vec<isize>>,
    improvements: Vec<(usize, usize, usize, usize)>,
    fail_on_solution: bool,
}

impl WriteSolverLog for Recorder {
    fn log_candidate(&mut self, costs: &Vec<usize>, phase: Phase) -> Result<(), LoggerError> {
        self.candidates.push((costs.clone(), phase));
        Ok(())
    }

    fn log_oracle_call(&mut self, result: SolverResult, phase: Phase) -> Result<(), LoggerError> {
        self.oracle_calls.push((result, phase));
        Ok(())
    }

    fn log_solution(&mut self) -> Result<(), LoggerError> {
        self.solutions += 1;
        if self.fail_on_solution {
            return Err(LoggerError { message: "no room".to_string() });
        }
        Ok(())
    }

    fn log_pareto_point(&mut self, pareto_point: &NonDomPoint) -> Result<(), LoggerError> {
        self.points.push(pareto_point.costs().clone());
        Ok(())
    }

    fn log_heuristic_obj_improvement(
        &mut self,
        obj_idx: usize,
        apparent_cost: usize,
        improved_cost: usize,
        learned_clauses: usize,
    ) -> Result<(), LoggerError> {
        self.improvements.push((obj_idx, apparent_cost, improved_cost, learned_clauses));
        Ok(())
    }
}

struct StopAfter {
    polls_left: usize,
}

impl Terminator for StopAfter {
    fn poll(&mut self) -> ControlSignal {
        if self.polls_left == 0 {
            ControlSignal::Terminate
        } else {
            self.polls_left -= 1;
            ControlSignal::Continue
        }
    }
}

fn soft_lit(l: Lit, w: usize) -> (Clause, usize) {
    (Clause::from_vec(vec![l.not()]), w)
}

fn trade_off() -> Instance {
    let x = Lit::positive(0);
    let y = Lit::positive(1);
    Instance {
        clauses: vec![Clause::from_vec(vec![x, y])],
        n_vars: 2,
        objectives: vec![
            SoftObjective { softs: vec![soft_lit(x, 1)], offset: 0 },
            SoftObjective { softs: vec![soft_lit(y, 1)], offset: 0 },
        ],
    }
}

#[test]
fn slots_are_reused() {
    let mut loggers: Loggers<Recorder> = Loggers::new();
    assert_eq!(loggers.attach(Recorder::default()), 0);
    assert_eq!(loggers.attach(Recorder { solutions: 7, ..Recorder::default() }), 1);
    assert_eq!(loggers.attach(Recorder::default()), 2);
    assert_eq!(loggers.detach(1).map(|l| l.solutions), Some(7));
    assert_eq!(loggers.detach(1), None);
    assert_eq!(loggers.detach(5), None);
    assert_eq!(loggers.attach(Recorder::default()), 1);
    assert_eq!(loggers.detach(0), Some(Recorder::default()));
    assert_eq!(loggers.attach(Recorder::default()), 0);
    assert_eq!(loggers.attach(Recorder::default()), 3);
}

#[test]
fn every_attached_logger_is_told() {
    let mut loggers: Loggers<Recorder> = Loggers::new();
    loggers.attach(Recorder::default());
    loggers.attach(Recorder::default());
    loggers.detach(0);
    loggers.attach(Recorder::default());
    assert_eq!(loggers.log_solution(), Ok(()));
    assert_eq!(loggers.log_candidate(&vec![1, 2], Phase::OuterLoop), Ok(()));
    assert_eq!(loggers.log_oracle_call(SolverResult::Unsat, Phase::Minimization), Ok(()));
    assert_eq!(loggers.log_pareto_point(&NonDomPoint::new(vec![3])), Ok(()));
    assert_eq!(loggers.log_heuristic_obj_improvement(1, 5, 4, 2), Ok(()));
    for id in 0..2 {
        let l = loggers.detach(id).unwrap();
        assert_eq!(l.solutions, 1);
        assert_eq!(l.candidates, vec![(vec![1, 2], Phase::OuterLoop)]);
        assert_eq!(l.oracle_calls, vec![(SolverResult::Unsat, Phase::Minimization)]);
        assert_eq!(l.points, vec![vec![3]]);
        assert_eq!(l.improvements, vec![(1, 5, 4, 2)]);
    }
}

#[test]
fn first_failing_logger_ends_the_round() {
    let mut loggers: Loggers<Recorder> = Loggers::new();
    loggers.attach(Recorder { fail_on_solution: true, ..Recorder::default() });
    loggers.attach(Recorder::default());
    assert_eq!(loggers.log_solution(), Err(LoggerError { message: "no room".to_string() }));
    assert_eq!(loggers.detach(0).unwrap().solutions, 1);
    assert_eq!(loggers.detach(1).unwrap().solutions, 0);
}

#[test]
fn loggers_see_the_run() {
    let mut solver: PMinimal<DefaultBlocking, Recorder, NeverTerminate> =
        PMinimal::default_init(trade_off()).unwrap();
    assert_eq!(solver.attach_logger(Recorder::default()), 0);
    assert_eq!(solver.solve(Limits::none()), Ok(()));
    let log = solver.detach_logger(0).unwrap();
    assert_eq!(solver.detach_logger(0), None);
    let stats = solver.stats();
    assert_eq!(log.solutions, stats.n_solutions);
    assert_eq!(log.candidates.len(), stats.n_candidates);
    assert_eq!(log.oracle_calls.len(), stats.n_oracle_calls);
    assert_eq!(log.points.len(), stats.n_pareto_points);
    let mut points = log.points.clone();
    points.sort();
    assert_eq!(points, vec![vec![0, 1], vec![1, 0]]);
    assert_eq!(log.oracle_calls.last(), Some(&(SolverResult::Unsat, Phase::OuterLoop)));
    assert_eq!(log.oracle_calls[0], (SolverResult::Sat, Phase::OuterLoop));
    assert_eq!(log.candidates[0].1, Phase::OuterLoop);
    assert!(log.improvements.is_empty());
}

#[test]
fn failing_logger_ends_the_run() {
    let mut solver: PMinimal<DefaultBlocking, Recorder, NeverTerminate> =
        PMinimal::default_init(trade_off()).unwrap();
    solver.attach_logger(Recorder { fail_on_solution: true, ..Recorder::default() });
    assert_eq!(
        solver.solve(Limits::none()),
        Err(Termination::LoggerError(LoggerError { message: "no room".to_string() }))
    );
    // the point whose solution could not be logged is kept
    assert_eq!(solver.pareto_front().len(), 1);
    assert_eq!(solver.pareto_front().index(0).n_sols(), 1);
    assert_eq!(solver.detach_logger(0).unwrap().points.len(), 1);
}

#[test]
fn terminator_ends_the_run() {
    let mut solver: PMinimal<DefaultBlocking, NoLog, StopAfter> =
        PMinimal::default_init(trade_off()).unwrap();
    solver.attach_terminator(StopAfter { polls_left: 0 });
    assert_eq!(solver.solve(Limits::none()), Err(Termination::Callback));
    assert_eq!(solver.pareto_front().len(), 0);
    assert_eq!(solver.stats().n_oracle_calls, 1);
    // without the terminator the run goes through
    solver.detach_terminator();
    assert_eq!(solver.solve(Limits::none()), Ok(()));
    assert_eq!(solver.pareto_front().len(), 2);
    assert_eq!(solver.stats().n_solve_calls, 2);
}

#[test]
fn terminator_during_enumeration_keeps_the_point() {
    let x = Lit::positive(0);
    let inst = Instance {
        clauses: vec![],
        n_vars: 3,
        objectives: vec![SoftObjective { softs: vec![soft_lit(x, 1)], offset: 0 }],
    };
    let mut opts = Options::default();
    opts.enumeration = EnumOptions::Solutions(None);
    let mut solver: PMinimal<DefaultBlocking, NoLog, StopAfter> =
        PMinimal::default_init_with_options(inst, opts).unwrap();
    // two polls in the outer loop, one after the call of the minimization that fails
    solver.attach_terminator(StopAfter { polls_left: 2 });
    assert_eq!(solver.solve(Limits::none()), Err(Termination::Callback));
    assert_eq!(solver.pareto_front().len(), 1);
    assert_eq!(solver.pareto_front().index(0).costs(), &vec![0]);
    assert_eq!(solver.pareto_front().index(0).n_sols(), 1);
}

#[test]
fn limit_on_points() {
    let mut solver: PMinimal = PMinimal::default_init(trade_off()).unwrap();
    let limits = Limits { pps: Some(1), ..Limits::none() };
    assert_eq!(solver.solve(limits), Err(Termination::PPLimit));
    assert_eq!(solver.pareto_front().len(), 1);
    assert_eq!(solver.stats().n_pareto_points, 1);
    // a fresh run with room for one more point finds the other one
    assert_eq!(solver.solve(Limits { pps: Some(2), ..Limits::none() }), Ok(()));
    assert_eq!(solver.pareto_front().len(), 2);
}

#[test]
fn limit_on_candidates() {
    let mut solver: PMinimal = PMinimal::default_init(trade_off()).unwrap();
    let limits = Limits { candidates: Some(1), ..Limits::none() };
    assert_eq!(solver.solve(limits), Err(Termination::CandidatesLimit));
    assert_eq!(solver.stats().n_candidates, 1);
    assert_eq!(solver.pareto_front().len(), 0);
}

#[test]
fn limit_on_oracle_calls() {
    let mut solver: PMinimal = PMinimal::default_init(trade_off()).unwrap();
    let limits = Limits { oracle_calls: Some(2), ..Limits::none() };
    assert_eq!(solver.solve(limits), Err(Termination::OracleCallsLimit));
    assert_eq!(solver.stats().n_oracle_calls, 2);
    let mut solver: PMinimal = PMinimal::default_init(trade_off()).unwrap();
    let limits = Limits { oracle_calls: Some(0), ..Limits::none() };
    assert_eq!(solver.solve(limits), Err(Termination::OracleCallsLimit));
    assert_eq!(solver.stats().n_oracle_calls, 1);
}

#[test]
fn fresh_solver_has_counted_nothing() {
    let solver: PMinimal = PMinimal::default_init(trade_off()).unwrap();
    assert_eq!(
        solver.stats(),
        Stats { n_objs: 2, n_orig_clauses: 1, ..Stats::default() }
    );
    assert_eq!(Stats::default().n_solve_calls, 0);
    assert!(solver.pareto_front().is_empty());
    assert_eq!(Limits::none(), Limits { pps: None, sols: None, candidates: None, oracle_calls: None });
}

struct BlockFirstVariable;

impl BlockingClauseGen for BlockFirstVariable {
    fn blocking_clause(&mut self, sol: Assignment) -> Clause {
        let x = Lit::positive(0);
        match sol.lit_value(x) {
            TernaryVal::True => Clause::from_vec(vec![x.not()]),
            _ => Clause::from_vec(vec![x]),
        }
    }
}

#[test]
fn blocking_clauses_of_the_caller_are_used() {
    let z = Lit::positive(2);
    let inst = Instance {
        clauses: vec![],
        n_vars: 3,
        objectives: vec![SoftObjective { softs: vec![soft_lit(z, 1)], offset: 0 }],
    };
    let mut opts = Options::default();
    opts.enumeration = EnumOptions::Solutions(None);
    let mut solver: PMinimal<BlockFirstVariable, NoLog, NeverTerminate> =
        PMinimal::init_with_options(inst, opts, BlockFirstVariable).unwrap();
    assert_eq!(solver.solve(Limits::none()), Ok(()));
    // each solution blocks its value of the first variable: there are two
    assert_eq!(solver.pareto_front().len(), 1);
    assert_eq!(solver.pareto_front().index(0).n_sols(), 2);
}

#[test]
fn terminator_is_asked_once_for_each_check() {
    let mut solver: PMinimal<DefaultBlocking, NoLog, StopAfter> =
        PMinimal::default_init(trade_off()).unwrap();
    assert_eq!(solver.check_terminator(), Ok(()));
    solver.attach_terminator(StopAfter { polls_left: 2 });
    assert_eq!(solver.check_terminator(), Ok(()));
    assert_eq!(solver.check_terminator(), Ok(()));
    assert_eq!(solver.check_terminator(), Err(Termination::Callback));
    assert_eq!(solver.check_terminator(), Err(Termination::Callback));
    solver.detach_terminator();
    assert_eq!(solver.check_terminator(), Ok(()));
    assert_eq!(solver.stats().n_oracle_calls, 0);
}

#[test]
fn solver_tells_its_loggers_of_an_improvement() {
    let mut solver: PMinimal<DefaultBlocking, Recorder, NeverTerminate> =
        PMinimal::default_init(trade_off()).unwrap();
    assert_eq!(solver.log_heuristic_obj_improvement(0, 3, 2, 1), Ok(()));
    solver.attach_logger(Recorder::default());
    solver.attach_logger(Recorder::default());
    assert_eq!(solver.log_heuristic_obj_improvement(1, 9, 4, 2), Ok(()));
    assert_eq!(solver.log_heuristic_obj_improvement(0, 4, 4, 0), Ok(()));
    for id in 0..2 {
        let log = solver.detach_logger(id).unwrap();
        assert_eq!(log.improvements, vec![(1, 9, 4, 2), (0, 4, 4, 0)]);
        assert!(log.candidates.is_empty());
    }
    assert_eq!(solver.stats(), {
        let mut fresh = Stats::default();
        fresh.n_objs = 2;
        fresh.n_orig_clauses = 1;
        fresh
    });
}

#[test]
fn loggers_behind_a_failing_one_are_not_told() {
    let mut loggers: Loggers<Recorder> = Loggers::new();
    loggers.attach(Recorder::default());
    loggers.attach(Recorder { fail_on_solution: true, ..Recorder::default() });
    loggers.attach(Recorder::default());
    assert_eq!(loggers.log_solution(), Err(LoggerError { message: "no room".to_string() }));
    assert_eq!(loggers.log_candidate(&vec![2], Phase::Enumeration), Ok(()));
    assert_eq!(loggers.detach(0).unwrap().solutions, 1);
    assert_eq!(loggers.detach(1).unwrap().solutions, 1);
    let last = loggers.detach(2).unwrap();
    assert_eq!(last.solutions, 0);
    assert_eq!(last.candidates, vec![(vec![2], Phase::Enumeration)]);
}
