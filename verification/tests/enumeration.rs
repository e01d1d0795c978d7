use pminimal::dominance::{lit_impl_cube, make_block_literal};
use pminimal::encodings::VarManager;
use pminimal::types::MAX_VAR_IDX;
use pminimal::{
    default_blocking_clause, Assignment, Clause, EncodingError, EnumOptions, Instance, Limits, Lit,
    Options, PMinimal, SoftObjective, TernaryVal,
};

fn soft_lit(l: Lit, w: usize) -> (Clause, usize) {
    (Clause::from_vec(vec![l.not()]), w)
}

fn assignment(vals: &[bool]) -> Assignment {
    Assignment::from_vec(
        vals.iter()
            .map(|b| if *b { TernaryVal::True } else { TernaryVal::False })
            .collect(),
    )
}

fn enumerating(enumeration: EnumOptions) -> Options {
    let mut opts = Options::default();
    opts.enumeration = enumeration;
    opts
}

fn one_objective_three_variables() -> Instance {
    Instance {
        clauses: vec![],
        n_vars: 3,
        objectives: vec![SoftObjective { softs: vec![soft_lit(Lit::positive(0), 1)], offset: 0 }],
    }
}

#[test]
fn implication_of_a_cube() {
    let a = Lit::positive(5);
    let b = vec![Lit::negative(1), Lit::positive(2)];
    assert_eq!(
        lit_impl_cube(a, &b),
        vec![
            Clause::from_vec(vec![a.not(), Lit::negative(1)]),
            Clause::from_vec(vec![a.not(), Lit::positive(2)]),
        ]
    );
    assert!(lit_impl_cube(a, &vec![]).is_empty());
}

#[test]
fn single_assumption_stands_for_itself() {
    let mut vm = VarManager::from_next_free(8);
    let r = make_block_literal(&vec![Lit::negative(3)], &mut vm);
    assert_eq!(r, Ok((Lit::negative(3), vec![])));
    assert_eq!(vm.n_used(), 8);
}

#[test]
fn several_assumptions_get_a_fresh_variable() {
    let mut vm = VarManager::from_next_free(8);
    let assumps = vec![Lit::negative(3), Lit::negative(5)];
    let t = Lit::positive(8);
    let r = make_block_literal(&assumps, &mut vm);
    assert_eq!(
        r,
        Ok((
            t,
            vec![
                Clause::from_vec(vec![t.not(), Lit::negative(3)]),
                Clause::from_vec(vec![t.not(), Lit::negative(5)]),
            ]
        ))
    );
    assert_eq!(vm.n_used(), 9);
    // no assumption at all: the fresh variable is free
    let r = make_block_literal(&vec![], &mut vm);
    assert_eq!(r, Ok((Lit::positive(9), vec![])));
    let mut full = VarManager::from_next_free(MAX_VAR_IDX);
    assert_eq!(make_block_literal(&assumps, &mut full), Err(EncodingError::OutOfVariables));
}

#[test]
fn default_blocking_clause_negates_the_solution() {
    let sol = Assignment::from_vec(vec![TernaryVal::True, TernaryVal::DontCare, TernaryVal::False]);
    assert_eq!(
        default_blocking_clause(sol),
        Clause::from_vec(vec![Lit::negative(0), Lit::positive(2)])
    );
    assert_eq!(default_blocking_clause(Assignment::empty()), Clause::new());
}

#[test]
fn pareto_mcs_clause_is_sorted_and_without_repetitions() {
    let x = Lit::positive(0);
    let y = Lit::positive(1);
    let z = Lit::positive(2);
    let inst = Instance {
        clauses: vec![],
        n_vars: 3,
        objectives: vec![
            SoftObjective { softs: vec![soft_lit(z, 1), soft_lit(x, 1)], offset: 0 },
            SoftObjective { softs: vec![soft_lit(y, 2), soft_lit(z, 3)], offset: 0 },
        ],
    };
    let solver: PMinimal = PMinimal::default_init(inst).unwrap();
    assert_eq!(
        solver.block_pareto_mcs(&assignment(&[true, false, true])),
        Clause::from_vec(vec![x.not(), z.not()])
    );
    assert_eq!(solver.block_pareto_mcs(&assignment(&[false, false, false])), Clause::new());
    assert_eq!(
        solver.block_pareto_mcs(&assignment(&[true, true, true])),
        Clause::from_vec(vec![x.not(), y.not(), z.not()])
    );
}

#[test]
fn all_solutions_at_a_point() {
    let opts = enumerating(EnumOptions::Solutions(None));
    let mut solver: PMinimal =
        PMinimal::default_init_with_options(one_objective_three_variables(), opts).unwrap();
    assert_eq!(solver.solve(Limits::none()), Ok(()));
    let front = solver.pareto_front();
    assert_eq!(front.len(), 1);
    assert_eq!(front.index(0).costs(), &vec![0]);
    let mut sols: Vec<Vec<TernaryVal>> =
        front.index(0).iter().iter().map(|s| s.vals.clone()).collect();
    assert_eq!(sols.len(), 4);
    sols.dedup();
    assert_eq!(sols.len(), 4);
    for sol in front.index(0).iter() {
        assert_eq!(sol.len(), 3);
        assert_eq!(sol.lit_value(Lit::positive(0)), TernaryVal::False);
    }
    assert_eq!(solver.stats().n_solutions, 4);
    assert_eq!(solver.stats().n_pareto_points, 1);
}

#[test]
fn bounded_number_of_solutions_at_a_point() {
    let opts = enumerating(EnumOptions::Solutions(Some(3)));
    let mut solver: PMinimal =
        PMinimal::default_init_with_options(one_objective_three_variables(), opts).unwrap();
    assert_eq!(solver.solve(Limits::none()), Ok(()));
    assert_eq!(solver.pareto_front().len(), 1);
    assert_eq!(solver.pareto_front().index(0).n_sols(), 3);
    assert!(EnumOptions::Solutions(Some(3)).reached(3));
    assert!(!EnumOptions::Solutions(Some(3)).reached(2));
    assert!(!EnumOptions::PMCSs(None).reached(1000));
    assert!(EnumOptions::NoEnum.reached(0));
}

#[test]
fn enumeration_of_solutions_on_a_trade_off() {
    let x = Lit::positive(0);
    let y = Lit::positive(1);
    let inst = Instance {
        clauses: vec![Clause::from_vec(vec![x, y])],
        n_vars: 3,
        objectives: vec![
            SoftObjective { softs: vec![soft_lit(x, 1)], offset: 0 },
            SoftObjective { softs: vec![soft_lit(y, 1)], offset: 0 },
        ],
    };
    let opts = enumerating(EnumOptions::Solutions(None));
    let mut solver: PMinimal = PMinimal::default_init_with_options(inst, opts).unwrap();
    assert_eq!(solver.solve(Limits::none()), Ok(()));
    let mut points: Vec<(Vec<isize>, usize)> = solver
        .pareto_front()
        .iter()
        .iter()
        .map(|p| (p.costs().clone(), p.n_sols()))
        .collect();
    points.sort();
    // the third variable is free: two solutions at each point
    assert_eq!(points, vec![(vec![0, 1], 2), (vec![1, 0], 2)]);
}

#[test]
fn weighted_objectives_with_enumeration() {
    let x = Lit::positive(0);
    let y = Lit::positive(1);
    let z = Lit::positive(2);
    let inst = Instance {
        clauses: vec![Clause::from_vec(vec![x, y, z])],
        n_vars: 3,
        objectives: vec![
            SoftObjective { softs: vec![soft_lit(x, 2), soft_lit(y, 3)], offset: 5 },
            SoftObjective { softs: vec![soft_lit(z, 4), soft_lit(y, 1), soft_lit(x, 7)], offset: -2 },
        ],
    };
    for enumeration in [EnumOptions::NoEnum, EnumOptions::PMCSs(None), EnumOptions::Solutions(None)] {
        let mut solver: PMinimal =
            PMinimal::default_init_with_options(inst_copy(&inst), enumerating(enumeration)).unwrap();
        assert_eq!(solver.solve(Limits::none()), Ok(()));
        let mut costs: Vec<Vec<isize>> =
            solver.pareto_front().iter().iter().map(|p| p.costs().clone()).collect();
        costs.sort();
        assert_eq!(costs, vec![vec![5, 2], vec![8, -1]]);
        for p in solver.pareto_front().iter() {
            assert_eq!(p.n_sols(), 1);
        }
    }
}

fn inst_copy(inst: &Instance) -> Instance {
    Instance {
        clauses: inst.clauses.iter().map(|c| c.duplicate()).collect(),
        n_vars: inst.n_vars,
        objectives: inst
            .objectives
            .iter()
            .map(|o| pminimal::SoftObjective {
                softs: o.softs.iter().map(|(c, w)| (c.duplicate(), *w)).collect(),
                offset: o.offset,
            })
            .collect(),
    }
}

#[test]
fn unsatisfiable_instance_has_an_empty_front() {
    let x = Lit::positive(0);
    let inst = Instance {
        clauses: vec![Clause::from_vec(vec![x]), Clause::from_vec(vec![x.not()])],
        n_vars: 1,
        objectives: vec![SoftObjective { softs: vec![soft_lit(x, 1)], offset: 0 }],
    };
    let mut solver: PMinimal = PMinimal::default_init(inst).unwrap();
    assert_eq!(solver.solve(Limits::none()), Ok(()));
    assert!(solver.pareto_front().is_empty());
    assert_eq!(solver.stats().n_oracle_calls, 1);
}

#[test]
fn instance_without_objectives_has_one_point() {
    let x = Lit::positive(0);
    let inst = Instance { clauses: vec![Clause::from_vec(vec![x])], n_vars: 1, objectives: vec![] };
    let mut solver: PMinimal = PMinimal::default_init(inst).unwrap();
    assert_eq!(solver.solve(Limits::none()), Ok(()));
    assert_eq!(solver.pareto_front().len(), 1);
    assert!(solver.pareto_front().index(0).costs().is_empty());
    assert_eq!(solver.pareto_front().index(0).iter(), &vec![assignment(&[true])]);
}

#[test]
fn three_objectives() {
    let vars: Vec<Lit> = (0..3).map(Lit::positive).collect();
    let inst = Instance {
        clauses: vec![Clause::from_vec(vars.clone())],
        n_vars: 3,
        objectives: vars
            .iter()
            .map(|l| SoftObjective { softs: vec![soft_lit(*l, 1)], offset: 0 })
            .collect(),
    };
    let mut solver: PMinimal = PMinimal::default_init(inst).unwrap();
    assert_eq!(solver.solve(Limits::none()), Ok(()));
    let mut costs: Vec<Vec<isize>> =
        solver.pareto_front().iter().iter().map(|p| p.costs().clone()).collect();
    costs.sort();
    assert_eq!(costs, vec![vec![0, 0, 1], vec![0, 1, 0], vec![1, 0, 0]]);
    for p in solver.pareto_front().iter() {
        for sol in p.iter() {
            let cost: Vec<isize> = vars
                .iter()
                .map(|l| (sol.lit_value(*l) == TernaryVal::True) as isize)
                .collect();
            assert_eq!(&cost, p.costs());
        }
    }
}
