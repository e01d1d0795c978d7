use pminimal::index::ObjIndex;
use pminimal::tightening::{find_flip_witness, find_other_true, improve_objective, learn_clause};
use pminimal::{
    Assignment, Clause, HeurImprOptions, HeurImprWhen, Instance, Limits, Lit, Objective, Options,
    PMinimal, Phase, SoftObjective, TernaryVal,
};

fn assignment(vals: &[bool]) -> Assignment {
    Assignment::from_vec(
        vals.iter()
            .map(|b| if *b { TernaryVal::True } else { TernaryVal::False })
            .collect(),
    )
}

fn soft_lit(l: Lit, w: usize) -> (Clause, usize) {
    (Clause::from_vec(vec![l.not()]), w)
}

fn tightening_options(tightening: HeurImprWhen, learning: HeurImprWhen) -> Options {
    let mut opts = Options::default();
    opts.heuristic_improvements =
        HeurImprOptions { solution_tightening: tightening, tightening_clauses: learning };
    opts
}

/// x, y, z with the clauses x | y and x | z | -y, where x and y are the objective literals.
fn small_index() -> (ObjIndex, Lit, Lit, Lit) {
    let x = Lit::positive(0);
    let y = Lit::positive(1);
    let z = Lit::positive(2);
    let mut index = ObjIndex::new();
    index.register(x, 0);
    index.register(y, 0);
    let first = index.store(Clause::from_vec(vec![x, y]));
    index.link(x, first);
    index.link(y, first);
    let second = index.store(Clause::from_vec(vec![x, z, y.not()]));
    index.link(x, second);
    (index, x, y, z)
}

#[test]
fn first_other_true_literal() {
    let x = Lit::positive(0);
    let y = Lit::positive(1);
    let z = Lit::positive(2);
    let clause = Clause::from_vec(vec![x, y.not(), z, y]);
    assert_eq!(find_other_true(&clause, x, &assignment(&[true, true, true])), Some(z));
    assert_eq!(find_other_true(&clause, z, &assignment(&[true, true, true])), Some(x));
    assert_eq!(find_other_true(&clause, x, &assignment(&[true, false, true])), Some(y.not()));
    assert_eq!(find_other_true(&clause, x, &assignment(&[true])), None);
    assert_eq!(find_other_true(&Clause::new(), x, &assignment(&[true])), None);
}

#[test]
fn witness_covers_every_linked_clause() {
    let (index, x, y, z) = small_index();
    // y satisfies the first clause, z the second
    assert_eq!(find_flip_witness(&index, x, &assignment(&[true, true, true])), Some(vec![y, z]));
    // the negation of y satisfies the second clause, but nothing the first
    assert_eq!(find_flip_witness(&index, x, &assignment(&[true, false, false])), None);
    // one literal can do for both clauses only if it is in both
    assert_eq!(find_flip_witness(&index, y, &assignment(&[true, true, false])), Some(vec![x]));
    assert_eq!(find_flip_witness(&index, y, &assignment(&[false, true, false])), None);
}

#[test]
fn witness_holds_each_literal_once() {
    let x = Lit::positive(0);
    let y = Lit::positive(1);
    let mut index = ObjIndex::new();
    index.register(x, 0);
    for _ in 0..3 {
        let at = index.store(Clause::from_vec(vec![x, y]));
        index.link(x, at);
    }
    assert_eq!(find_flip_witness(&index, x, &assignment(&[true, true])), Some(vec![y]));
    assert_eq!(index.data_of(x).clauses, vec![0, 1, 2]);
    assert_eq!(index.data_of(x).objs, vec![0]);
    assert_eq!(index.n_clauses(), 3);
}

#[test]
fn literal_without_clauses_has_the_empty_witness() {
    let x = Lit::positive(0);
    let mut index = ObjIndex::new();
    index.register(x, 0);
    assert_eq!(find_flip_witness(&index, x, &assignment(&[true])), Some(vec![]));
    assert_eq!(learn_clause(&vec![], x), Clause::from_vec(vec![x.not()]));
}

#[test]
fn learned_clause_negates_witness_and_literal() {
    let x = Lit::positive(0);
    let y = Lit::positive(1);
    let z = Lit::negative(2);
    assert_eq!(
        learn_clause(&vec![y, z], x),
        Clause::from_vec(vec![y.not(), z.not(), x.not()])
    );
}

#[test]
fn tightening_flips_what_the_clauses_do_not_need() {
    let (index, x, y, _) = small_index();
    let obj = Objective::new(vec![(x, 2), (y, 3)], 0).unwrap();
    let mut sol = assignment(&[true, true, true]);
    let (cost, reduction, learned) = improve_objective(&index, &obj, &mut sol, true, false);
    // x is flipped; then y is the only true literal of the first clause
    assert_eq!(sol, assignment(&[false, true, true]));
    assert_eq!(cost, 3);
    assert_eq!(reduction, 2);
    assert!(learned.is_empty());
    assert_eq!(obj.eval_internal(&sol), 3);
}

#[test]
fn learning_alone_leaves_the_candidate() {
    let (index, x, y, z) = small_index();
    let obj = Objective::new(vec![(x, 2), (y, 3)], 0).unwrap();
    let mut sol = assignment(&[true, true, true]);
    let (cost, reduction, learned) = improve_objective(&index, &obj, &mut sol, false, true);
    assert_eq!(sol, assignment(&[true, true, true]));
    assert_eq!(cost, 5);
    assert_eq!(reduction, 0);
    assert_eq!(
        learned,
        vec![
            Clause::from_vec(vec![y.not(), z.not(), x.not()]),
            Clause::from_vec(vec![x.not(), y.not()]),
        ]
    );
}

#[test]
fn tightening_and_learning_together() {
    let (index, x, y, z) = small_index();
    let obj = Objective::new(vec![(x, 2), (y, 3)], 0).unwrap();
    let mut sol = assignment(&[true, true, true]);
    let (cost, reduction, learned) = improve_objective(&index, &obj, &mut sol, true, true);
    assert_eq!(sol, assignment(&[false, true, true]));
    assert_eq!(cost, 3);
    assert_eq!(reduction, 2);
    assert_eq!(learned, vec![Clause::from_vec(vec![y.not(), z.not(), x.not()])]);
}

#[test]
fn without_improvements_the_cost_is_counted() {
    let (index, x, y, _) = small_index();
    let obj = Objective::new(vec![(x, 4), (y, 4)], 1).unwrap();
    let mut sol = assignment(&[true, false, true]);
    let (cost, reduction, learned) = improve_objective(&index, &obj, &mut sol, false, false);
    assert_eq!((cost, reduction), (1, 0));
    assert!(learned.is_empty());
    assert_eq!(sol, assignment(&[true, false, true]));
}

#[test]
fn literal_with_an_objective_negation_is_not_flipped() {
    let x = Lit::positive(0);
    let mut index = ObjIndex::new();
    index.register(x, 0);
    index.register(x.not(), 1);
    let obj = Objective::new(vec![(x, 1)], 0).unwrap();
    let mut sol = assignment(&[true]);
    let (cost, reduction, _) = improve_objective(&index, &obj, &mut sol, true, true);
    assert_eq!((cost, reduction), (1, 0));
    assert_eq!(sol, assignment(&[true]));
}

fn x_or_y() -> Instance {
    let x = Lit::positive(0);
    let y = Lit::positive(1);
    Instance {
        clauses: vec![Clause::from_vec(vec![x, y])],
        n_vars: 2,
        objectives: vec![SoftObjective { softs: vec![soft_lit(x, 1), soft_lit(y, 1)], offset: 0 }],
    }
}

#[test]
fn improving_a_candidate_of_the_solver() {
    let opts = tightening_options(HeurImprWhen::Always, HeurImprWhen::Never);
    let mut solver: PMinimal = PMinimal::default_init_with_options(x_or_y(), opts).unwrap();
    let (costs, sol) = solver
        .improve_candidate(assignment(&[true, true]), Phase::Minimization)
        .unwrap();
    assert_eq!(costs, vec![1]);
    assert_eq!(sol, assignment(&[false, true]));
    // a second improvement changes nothing
    let (costs, again) = solver.improve_candidate(sol.duplicate(), Phase::Minimization).unwrap();
    assert_eq!(costs, vec![1]);
    assert_eq!(again, sol);
}

#[test]
fn improvements_are_made_in_the_phases_asked_for() {
    let opts = tightening_options(HeurImprWhen::OuterLoop, HeurImprWhen::Never);
    let mut solver: PMinimal = PMinimal::default_init_with_options(x_or_y(), opts).unwrap();
    let (costs, sol) = solver
        .improve_candidate(assignment(&[true, true]), Phase::Minimization)
        .unwrap();
    assert_eq!(costs, vec![2]);
    assert_eq!(sol, assignment(&[true, true]));
    let (costs, sol) = solver.improve_candidate(sol, Phase::OuterLoop).unwrap();
    assert_eq!(costs, vec![1]);
    assert_eq!(sol, assignment(&[false, true]));
    assert!(HeurImprWhen::Always.wanted(Phase::Enumeration));
    assert!(!HeurImprWhen::Never.wanted(Phase::OuterLoop));
    assert!(!HeurImprWhen::OuterLoop.wanted(Phase::Enumeration));
    assert!(opts.heuristic_improvements.must_store_clauses());
    assert!(!HeurImprOptions::none().must_store_clauses());
}

#[test]
fn second_improvement_can_flip_more_where_a_clause_negates_an_objective_literal() {
    // the clause a | -b holds the negation of the objective literal b
    let a = Lit::positive(0);
    let b = Lit::positive(1);
    let inst = Instance {
        clauses: vec![Clause::from_vec(vec![a, b.not()])],
        n_vars: 2,
        objectives: vec![SoftObjective { softs: vec![soft_lit(a, 1), soft_lit(b, 1)], offset: 0 }],
    };
    let opts = tightening_options(HeurImprWhen::Always, HeurImprWhen::Never);
    let mut solver: PMinimal = PMinimal::default_init_with_options(inst, opts).unwrap();
    let (costs, once) = solver.improve_candidate(assignment(&[true, true]), Phase::OuterLoop).unwrap();
    assert_eq!(once, assignment(&[true, false]));
    assert_eq!(costs, vec![1]);
    let (costs, twice) = solver.improve_candidate(once, Phase::OuterLoop).unwrap();
    assert_eq!(twice, assignment(&[false, false]));
    assert_eq!(costs, vec![0]);
}

#[test]
fn costs_are_those_of_the_improved_candidate_when_objectives_share_a_literal() {
    // a is in both objectives; it only gets a witness after b was flipped
    let a = Lit::positive(0);
    let b = Lit::positive(1);
    let inst = Instance {
        clauses: vec![Clause::from_vec(vec![a, b.not()])],
        n_vars: 2,
        objectives: vec![
            SoftObjective { softs: vec![soft_lit(a, 1), soft_lit(b, 1)], offset: 0 },
            SoftObjective { softs: vec![soft_lit(a, 5)], offset: 2 },
        ],
    };
    let opts = tightening_options(HeurImprWhen::Always, HeurImprWhen::Never);
    let mut solver: PMinimal = PMinimal::default_init_with_options(inst, opts).unwrap();
    let (costs, sol) = solver.improve_candidate(assignment(&[true, true]), Phase::OuterLoop).unwrap();
    assert_eq!(sol, assignment(&[false, false]));
    assert_eq!(costs, vec![0, 0]);
}

#[test]
fn front_is_the_same_with_and_without_improvements() {
    let x = Lit::positive(0);
    let y = Lit::positive(1);
    let z = Lit::positive(2);
    let make = || Instance {
        clauses: vec![Clause::from_vec(vec![x, y, z]), Clause::from_vec(vec![x.not(), y.not()])],
        n_vars: 3,
        objectives: vec![
            SoftObjective { softs: vec![soft_lit(x, 2), soft_lit(y, 3)], offset: 5 },
            SoftObjective { softs: vec![soft_lit(z, 1), soft_lit(x, 1)], offset: 0 },
        ],
    };
    let mut plain: PMinimal = PMinimal::default_init(make()).unwrap();
    plain.solve(Limits::none()).unwrap();
    let mut expected: Vec<Vec<isize>> =
        plain.pareto_front().iter().iter().map(|p| p.costs().clone()).collect();
    expected.sort();
    assert_eq!(expected, vec![vec![5, 1], vec![8, 0]]);
    for (tightening, learning) in [
        (HeurImprWhen::Always, HeurImprWhen::Never),
        (HeurImprWhen::Never, HeurImprWhen::Always),
        (HeurImprWhen::Always, HeurImprWhen::Always),
        (HeurImprWhen::OuterLoop, HeurImprWhen::OuterLoop),
    ] {
        let opts = tightening_options(tightening, learning);
        let mut solver: PMinimal = PMinimal::default_init_with_options(make(), opts).unwrap();
        assert_eq!(solver.solve(Limits::none()), Ok(()));
        let mut costs: Vec<Vec<isize>> =
            solver.pareto_front().iter().iter().map(|p| p.costs().clone()).collect();
        costs.sort();
        assert_eq!(costs, expected);
    }
}
