use pminimal::{
    Assignment, Clause, EnumOptions, Instance, Limits, Lit, NonDomPoint, Options, PMinimal,
    SoftObjective, TernaryVal, Termination,
};

fn soft_lit(l: Lit, w: usize) -> (Clause, usize) {
    (Clause::from_vec(vec![l.not()]), w)
}

fn assignment(vals: &[bool]) -> Assignment {
    Assignment::from_vec(
        vals.iter()
            .map(|b| if *b { TernaryVal::True } else { TernaryVal::False })
            .collect(),
    )
}

fn sorted_points(solver: &PMinimal) -> Vec<NonDomPoint> {
    let mut points: Vec<NonDomPoint> = solver.pareto_front().iter().clone();
    points.sort_by(|a, b| a.costs().cmp(b.costs()));
    points
}

fn trade_off() -> Instance {
    let x = Lit::positive(0);
    let y = Lit::positive(1);
    Instance {
        clauses: vec![Clause::from_vec(vec![x, y])],
        n_vars: 2,
        objectives: vec![
            SoftObjective { softs: vec![soft_lit(x, 1)], offset: 0 },
            SoftObjective { softs: vec![soft_lit(y, 1)], offset: 0 },
        ],
    }
}

#[test]
fn two_independent_objectives() {
    let x = Lit::positive(0);
    let y = Lit::positive(1);
    let inst = Instance {
        clauses: vec![],
        n_vars: 2,
        objectives: vec![
            SoftObjective { softs: vec![soft_lit(x, 1)], offset: 0 },
            SoftObjective { softs: vec![soft_lit(y, 1)], offset: 0 },
        ],
    };
    let mut solver: PMinimal = PMinimal::default_init(inst).unwrap();
    assert_eq!(solver.solve(Limits::none()), Ok(()));
    let front = solver.pareto_front();
    assert_eq!(front.len(), 1);
    assert_eq!(front.index(0).costs(), &vec![0, 0]);
    assert_eq!(front.index(0).n_sols(), 1);
    assert_eq!(front.index(0).iter()[0], assignment(&[false, false]));
}

#[test]
fn trade_off_between_two_objectives() {
    let mut solver: PMinimal = PMinimal::default_init(trade_off()).unwrap();
    assert_eq!(solver.solve(Limits::none()), Ok(()));
    let points = sorted_points(&solver);
    assert_eq!(points.len(), 2);
    assert_eq!(points[0].costs(), &vec![0, 1]);
    assert_eq!(points[0].iter(), &vec![assignment(&[false, true])]);
    assert_eq!(points[1].costs(), &vec![1, 0]);
    assert_eq!(points[1].iter(), &vec![assignment(&[true, false])]);
    let stats = solver.stats();
    assert_eq!(stats.n_objs, 2);
    assert_eq!(stats.n_orig_clauses, 1);
    assert_eq!(stats.n_solve_calls, 1);
    assert_eq!(stats.n_pareto_points, 2);
    assert_eq!(stats.n_solutions, 2);
}

#[test]
fn offsets_and_weights() {
    let x = Lit::positive(0);
    let y = Lit::positive(1);
    let z = Lit::positive(2);
    let inst = Instance {
        clauses: vec![Clause::from_vec(vec![x, y, z])],
        n_vars: 3,
        objectives: vec![
            SoftObjective { softs: vec![soft_lit(x, 2), soft_lit(y, 3)], offset: 5 },
            SoftObjective { softs: vec![soft_lit(z, 1)], offset: 0 },
        ],
    };
    let mut solver: PMinimal = PMinimal::default_init(inst).unwrap();
    assert_eq!(solver.solve(Limits::none()), Ok(()));
    let points = sorted_points(&solver);
    assert_eq!(points.len(), 2);
    assert_eq!(points[0].costs(), &vec![5, 1]);
    assert_eq!(points[0].iter(), &vec![assignment(&[false, false, true])]);
    assert_eq!(points[1].costs(), &vec![7, 0]);
    assert_eq!(points[1].iter(), &vec![assignment(&[true, false, false])]);
}

#[test]
fn constant_objective() {
    let x = Lit::positive(0);
    let inst = Instance {
        clauses: vec![],
        n_vars: 1,
        objectives: vec![
            SoftObjective { softs: vec![], offset: 4 },
            SoftObjective { softs: vec![soft_lit(x, 1)], offset: 0 },
        ],
    };
    let mut solver: PMinimal = PMinimal::default_init(inst).unwrap();
    assert_eq!(solver.solve(Limits::none()), Ok(()));
    let front = solver.pareto_front();
    assert_eq!(front.len(), 1);
    assert_eq!(front.index(0).costs(), &vec![4, 0]);
    assert_eq!(front.index(0).iter(), &vec![assignment(&[false])]);
}

#[test]
fn pmcs_enumeration_finds_one_solution_per_point() {
    let mut opts = Options::default();
    opts.enumeration = EnumOptions::PMCSs(Some(2));
    let mut solver: PMinimal = PMinimal::default_init_with_options(trade_off(), opts).unwrap();
    assert_eq!(solver.solve(Limits::none()), Ok(()));
    let points = sorted_points(&solver);
    assert_eq!(points.len(), 2);
    assert_eq!(points[1].costs(), &vec![1, 0]);
    assert_eq!(points[1].n_sols(), 1);
    assert_eq!(points[1].iter(), &vec![assignment(&[true, false])]);
    assert_eq!(points[0].n_sols(), 1);
}

#[test]
fn solution_limit_ends_the_run() {
    let mut solver: PMinimal = PMinimal::default_init(trade_off()).unwrap();
    let limits = Limits { sols: Some(1), ..Limits::none() };
    assert_eq!(solver.solve(limits), Err(Termination::SolsLimit));
    let front = solver.pareto_front();
    assert_eq!(front.len(), 1);
    assert_eq!(front.index(0).n_sols(), 1);
    assert_eq!(solver.stats().n_solutions, 1);
}

#[test]
fn empty_encoding_has_the_point_of_the_offsets() {
    let inst = Instance {
        clauses: vec![],
        n_vars: 0,
        objectives: vec![
            SoftObjective { softs: vec![], offset: 3 },
            SoftObjective { softs: vec![], offset: -7 },
        ],
    };
    let mut solver: PMinimal = PMinimal::default_init(inst).unwrap();
    assert_eq!(solver.solve(Limits::none()), Ok(()));
    let front = solver.pareto_front();
    assert_eq!(front.len(), 1);
    assert_eq!(front.index(0).costs(), &vec![3, -7]);
    assert_eq!(front.index(0).iter(), &vec![Assignment::empty()]);
    // a second run adds nothing
    assert_eq!(solver.solve(Limits::none()), Ok(()));
    assert_eq!(solver.pareto_front().len(), 1);
    assert_eq!(solver.stats().n_solve_calls, 2);
}

#[test]
fn limit_that_is_met_by_the_last_solution_ends_the_run() {
    // x is forced: there is one solution and one point
    let x = Lit::positive(0);
    let inst = Instance {
        clauses: vec![Clause::from_vec(vec![x])],
        n_vars: 1,
        objectives: vec![SoftObjective { softs: vec![soft_lit(x, 1)], offset: 0 }],
    };
    let mut solver: PMinimal = PMinimal::default_init(inst).unwrap();
    let limits = Limits { sols: Some(1), ..Limits::none() };
    assert_eq!(solver.solve(limits), Err(Termination::SolsLimit));
    assert_eq!(solver.pareto_front().len(), 1);
    assert_eq!(solver.pareto_front().index(0).costs(), &vec![1]);
    // nothing is left to find
    assert_eq!(solver.solve(Limits::none()), Ok(()));
    assert_eq!(solver.pareto_front().len(), 1);
}

#[test]
fn point_that_the_front_holds_is_not_taken_again() {
    let mut solver: PMinimal = PMinimal::default_init(trade_off()).unwrap();
    assert_eq!(solver.solve(Limits::none()), Ok(()));
    assert_eq!(solver.pareto_front().len(), 2);
    let r = solver.enumerate_at_pareto_point(vec![1, 0], assignment(&[true, false]));
    assert_eq!(r, Err(Termination::OracleInconsistent));
    let r = solver.enumerate_at_pareto_point(vec![1, 1], assignment(&[true, true]));
    assert_eq!(r, Err(Termination::OracleInconsistent));
    assert_eq!(solver.pareto_front().len(), 2);
}

#[test]
fn costs_of_reported_solutions_add_up() {
    let x = Lit::positive(0);
    let y = Lit::positive(1);
    let z = Lit::positive(2);
    let inst = Instance {
        clauses: vec![Clause::from_vec(vec![x, y, z])],
        n_vars: 3,
        objectives: vec![
            SoftObjective { softs: vec![soft_lit(x, 2), soft_lit(y, 3)], offset: 5 },
            SoftObjective { softs: vec![soft_lit(z, 1)], offset: 0 },
        ],
    };
    let mut opts = Options::default();
    opts.enumeration = EnumOptions::Solutions(None);
    let mut solver: PMinimal = PMinimal::default_init_with_options(inst, opts).unwrap();
    assert_eq!(solver.solve(Limits::none()), Ok(()));
    let value = |sol: &Assignment, l: Lit| (sol.lit_value(l) == TernaryVal::True) as isize;
    for point in solver.pareto_front().iter() {
        for sol in point.iter() {
            assert_eq!(point.costs()[0], 5 + 2 * value(sol, x) + 3 * value(sol, y));
            assert_eq!(point.costs()[1], value(sol, z));
        }
    }
}
