use pminimal::encodings::{ObjEncoding, VarManager};
use pminimal::index::{BlitTable, ObjIndex};
use pminimal::init::{add_objective, add_soft_clause, instance_bound};
use pminimal::types::MAX_VAR_IDX;
use pminimal::{
    Clause, EncodingError, HeurImprOptions, HeurImprWhen, InitError, Instance, Limits, Lit,
    Objective, ObjectiveError, Options, PMinimal, SoftObjective, Var,
};

fn storing_options() -> Options {
    let mut opts = Options::default();
    opts.heuristic_improvements = HeurImprOptions {
        solution_tightening: HeurImprWhen::Always,
        tightening_clauses: HeurImprWhen::Never,
    };
    opts
}

#[test]
fn unit_soft_clause_needs_no_blocking_literal() {
    let mut blits = BlitTable::new();
    let mut index = ObjIndex::new();
    let mut vm = VarManager::from_next_free(3);
    let r = add_soft_clause(
        Clause::from_vec(vec![Lit::negative(2)]),
        &mut blits,
        &mut index,
        &mut vm,
        true,
    );
    assert_eq!(r, Ok((Lit::positive(2), None)));
    assert_eq!(blits.len(), 0);
    assert_eq!(index.n_clauses(), 0);
    assert_eq!(vm.n_used(), 3);
}

#[test]
fn longer_soft_clause_is_relaxed_once() {
    let x = Lit::positive(0);
    let y = Lit::negative(1);
    let mut blits = BlitTable::new();
    let mut index = ObjIndex::new();
    let mut vm = VarManager::from_next_free(2);
    let soft = Clause::from_vec(vec![x, y]);
    let blit = Lit::positive(2);
    let r = add_soft_clause(soft.duplicate(), &mut blits, &mut index, &mut vm, true);
    assert_eq!(r, Ok((blit, Some((Some(0), Clause::from_vec(vec![x, y, blit]))))));
    assert_eq!(blits.lookup(&soft), Some(blit));
    assert_eq!(index.clause(0), &soft);
    assert_eq!(vm.n_used(), 3);
    // the same clause again
    let r = add_soft_clause(soft.duplicate(), &mut blits, &mut index, &mut vm, true);
    assert_eq!(r, Ok((blit, None)));
    assert_eq!(blits.len(), 1);
    assert_eq!(vm.n_used(), 3);
    // the same literals in another order are another clause
    let other = Clause::from_vec(vec![y, x]);
    let r = add_soft_clause(other.duplicate(), &mut blits, &mut index, &mut vm, false);
    assert_eq!(r, Ok((Lit::positive(3), Some((None, Clause::from_vec(vec![y, x, Lit::positive(3)]))))));
    assert_eq!(index.n_clauses(), 1);
    // the empty clause is relaxed as well
    let r = add_soft_clause(Clause::new(), &mut blits, &mut index, &mut vm, false);
    assert_eq!(r, Ok((Lit::positive(4), Some((None, Clause::from_vec(vec![Lit::positive(4)]))))));
}

#[test]
fn relaxing_fails_without_a_free_variable() {
    let mut blits = BlitTable::new();
    let mut index = ObjIndex::new();
    let mut vm = VarManager::from_next_free(MAX_VAR_IDX);
    let soft = Clause::from_vec(vec![Lit::positive(0), Lit::positive(1)]);
    let r = add_soft_clause(soft, &mut blits, &mut index, &mut vm, true);
    assert_eq!(r, Err(EncodingError::OutOfVariables));
    assert_eq!(blits.len(), 0);
}

#[test]
fn objective_is_built_from_its_soft_clauses() {
    let x = Lit::positive(0);
    let y = Lit::positive(1);
    let mut objs = Vec::new();
    let mut encs = Vec::new();
    let mut blits = BlitTable::new();
    let mut index = ObjIndex::new();
    let mut vm = VarManager::from_next_free(2);
    let obj = SoftObjective {
        softs: vec![
            (Clause::from_vec(vec![x.not()]), 2),
            (Clause::from_vec(vec![x, y]), 3),
            (Clause::from_vec(vec![x.not()]), 4),
        ],
        offset: -1,
    };
    let cnf = add_objective(
        obj,
        &mut objs,
        &mut encs,
        &mut blits,
        &mut index,
        &mut vm,
        &storing_options(),
    )
    .unwrap();
    let blit = Lit::positive(2);
    assert_eq!(cnf, vec![Clause::from_vec(vec![x, y, blit])]);
    assert_eq!(objs.len(), 1);
    match &objs[0] {
        Objective::Weighted { offset, lits } => {
            assert_eq!(*offset, -1);
            assert_eq!(lits, &vec![(x, 6), (blit, 3)]);
        }
        _ => panic!("expected a weighted objective"),
    }
    assert!(matches!(encs[0], ObjEncoding::Weighted(_, 0)));
    assert_eq!(index.data_of(x).objs, vec![0, 0]);
    assert_eq!(index.data_of(blit).objs, vec![0]);
    assert_eq!(index.data_of(blit).clauses, vec![0]);
    assert!(index.data_of(x).clauses.is_empty());
    assert!(!index.contains(y));
}

#[test]
fn malformed_objective_is_refused() {
    let x = Lit::positive(0);
    let zero = || Instance {
        clauses: vec![],
        n_vars: 1,
        objectives: vec![
            SoftObjective { softs: vec![(Clause::from_vec(vec![x]), 1)], offset: 0 },
            SoftObjective { softs: vec![(Clause::from_vec(vec![x]), 0)], offset: 0 },
        ],
    };
    let r: Result<PMinimal, InitError> = PMinimal::default_init(zero());
    assert_eq!(r.err(), Some(InitError::Objective(ObjectiveError::ZeroWeight)));
    let too_much = Instance {
        clauses: vec![],
        n_vars: 1,
        objectives: vec![SoftObjective {
            softs: vec![(Clause::from_vec(vec![x]), isize::MAX as usize)],
            offset: 1,
        }],
    };
    let r: Result<PMinimal, InitError> = PMinimal::default_init(too_much);
    assert_eq!(r.err(), Some(InitError::Objective(ObjectiveError::Overflow)));
}

#[test]
fn instance_with_too_many_variables_is_refused() {
    let inst = Instance { clauses: vec![], n_vars: MAX_VAR_IDX + 1, objectives: vec![] };
    assert_eq!(instance_bound(&inst), MAX_VAR_IDX as u64 + 1);
    let r: Result<PMinimal, InitError> = PMinimal::default_init(inst);
    assert_eq!(r.err(), Some(InitError::OutOfVariables));
    let inst = Instance {
        clauses: vec![Clause::from_vec(vec![Lit::new(MAX_VAR_IDX, true)])],
        n_vars: 0,
        objectives: vec![],
    };
    let r: Result<PMinimal, InitError> = PMinimal::default_init(inst);
    assert_eq!(r.err(), Some(InitError::OutOfVariables));
}

#[test]
fn variables_of_clauses_count() {
    let inst = Instance {
        clauses: vec![Clause::from_vec(vec![Lit::positive(4)])],
        n_vars: 2,
        objectives: vec![SoftObjective {
            softs: vec![(Clause::from_vec(vec![Lit::negative(6), Lit::positive(0)]), 1)],
            offset: 0,
        }],
    };
    assert_eq!(instance_bound(&inst), 7);
    let solver: PMinimal = PMinimal::default_init(inst).unwrap();
    // the blocking literal is the first variable above those of the instance
    assert_eq!(solver.blits.len(), 1);
    assert_eq!(solver.blits.entries[0].1, Lit::positive(7));
    assert_eq!(solver.max_orig_var, Some(Var::new(7)));
}

#[test]
fn soft_clause_shared_by_objectives_has_one_blocking_literal() {
    let x = Lit::positive(0);
    let y = Lit::positive(1);
    let shared = Clause::from_vec(vec![x, y]);
    let inst = Instance {
        clauses: vec![Clause::from_vec(vec![x.not(), y.not()])],
        n_vars: 2,
        objectives: vec![
            SoftObjective { softs: vec![(shared.duplicate(), 1)], offset: 0 },
            SoftObjective { softs: vec![(shared.duplicate(), 3), (Clause::from_vec(vec![x]), 2)], offset: 10 },
        ],
    };
    let mut solver: PMinimal = PMinimal::default_init_with_options(inst, storing_options()).unwrap();
    let blit = Lit::positive(2);
    assert_eq!(solver.blits.len(), 1);
    assert_eq!(solver.index.data_of(blit).objs, vec![0, 1]);
    assert_eq!(solver.index.data_of(blit).clauses, vec![0]);
    // x is a literal of the stored soft clause; its negation is an objective literal
    assert_eq!(solver.index.data_of(x.not()).objs, vec![1]);
    assert_eq!(solver.index.data_of(x.not()).clauses, vec![1]);
    assert_eq!(solver.index.clause(1), &Clause::from_vec(vec![x.not(), y.not()]));
    assert_eq!(solver.stats().n_objs, 2);
    assert_eq!(solver.stats().n_orig_clauses, 1);
    assert_eq!(solver.solve(Limits::none()), Ok(()));
    // x true and y false satisfies everything at no cost
    let front = solver.pareto_front();
    assert_eq!(front.len(), 1);
    assert_eq!(front.index(0).costs(), &vec![0, 10]);
}

#[test]
fn clauses_are_stored_only_for_improvements() {
    let x = Lit::positive(0);
    let y = Lit::positive(1);
    let make = || Instance {
        clauses: vec![Clause::from_vec(vec![x, y]), Clause::from_vec(vec![y])],
        n_vars: 2,
        objectives: vec![SoftObjective { softs: vec![(Clause::from_vec(vec![x.not()]), 1)], offset: 0 }],
    };
    let plain: PMinimal = PMinimal::default_init(make()).unwrap();
    assert_eq!(plain.index.n_clauses(), 0);
    assert!(plain.index.contains(x));
    let storing: PMinimal = PMinimal::default_init_with_options(make(), storing_options()).unwrap();
    // only the clause that holds the objective literal is stored
    assert_eq!(storing.index.n_clauses(), 1);
    assert_eq!(storing.index.clause(0), &Clause::from_vec(vec![x, y]));
    assert_eq!(storing.index.data_of(x).clauses, vec![0]);
}

#[test]
fn statistics_of_the_encoders() {
    let x = Lit::positive(0);
    let y = Lit::positive(1);
    let inst = Instance {
        clauses: vec![Clause::from_vec(vec![x, y])],
        n_vars: 2,
        objectives: vec![
            SoftObjective { softs: vec![], offset: 9 },
            SoftObjective {
                softs: vec![(Clause::from_vec(vec![x.not()]), 4), (Clause::from_vec(vec![y.not()]), 4)],
                offset: -3,
            },
            SoftObjective {
                softs: vec![(Clause::from_vec(vec![x.not()]), 1), (Clause::from_vec(vec![y.not()]), 2)],
                offset: 0,
            },
        ],
    };
    let mut solver: PMinimal = PMinimal::default_init(inst).unwrap();
    let before = solver.encoding_stats();
    assert_eq!(before.len(), 3);
    assert_eq!((before[0].offset, before[0].unit_weight), (9, None));
    assert_eq!((before[0].n_clauses, before[0].n_vars), (0, 0));
    assert_eq!((before[1].offset, before[1].unit_weight), (-3, Some(4)));
    assert_eq!((before[2].offset, before[2].unit_weight), (0, None));
    assert_eq!(before[1].n_clauses, 0);
    solver.solve(Limits::none()).unwrap();
    let after = solver.encoding_stats();
    assert!(after[1].n_clauses > 0);
    assert_eq!((after[0].n_clauses, after[0].n_vars), (0, 0));
    assert!(solver.oracle_stats().n_unsat > 0);
    let mut costs: Vec<Vec<isize>> =
        solver.pareto_front().iter().iter().map(|p| p.costs().clone()).collect();
    costs.sort();
    assert_eq!(costs, vec![vec![9, 1, 1]]);
}
