use pminimal::{
    Assignment, Clause, EnumOptions, HeurImprOptions, HeurImprWhen, Instance, Limits, Lit, Options,
    PMinimal, SoftObjective, TernaryVal,
};

/// A small generator of numbers, the same on every run.
struct Rng(u64);

impl Rng {
    fn next(&mut self, bound: u64) -> u64 {
        self.0 = self.0.wrapping_mul(6364136223846793005).wrapping_add(1442695040888963407);
        (self.0 >> 33) % bound
    }
}

#[derive(Clone)]
struct Raw {
    n_vars: u32,
    clauses: Vec<Vec<Lit>>,
    objectives: Vec<(Vec<(Vec<Lit>, usize)>, isize)>,
}

fn random_clause(rng: &mut Rng, n_vars: u32, max_len: u64) -> Vec<Lit> {
    let len = 1 + rng.next(max_len);
    (0..len).map(|_| Lit::new(rng.next(n_vars as u64) as u32, rng.next(2) == 1)).collect()
}

fn random_instance(rng: &mut Rng) -> Raw {
    let n_vars = 2 + rng.next(4) as u32;
    let n_clauses = rng.next(5);
    let clauses = (0..n_clauses).map(|_| random_clause(rng, n_vars, 3)).collect();
    let n_objs = 1 + rng.next(3);
    let objectives = (0..n_objs)
        .map(|_| {
            let n_softs = rng.next(4);
            let uniform = rng.next(2) == 1;
            let softs = (0..n_softs)
                .map(|_| {
                    let w = if uniform { 2 } else { 1 + rng.next(4) as usize };
                    (random_clause(rng, n_vars, 2), w)
                })
                .collect();
            (softs, rng.next(7) as isize - 3)
        })
        .collect();
    Raw { n_vars, clauses, objectives }
}

fn instance(raw: &Raw) -> Instance {
    Instance {
        clauses: raw.clauses.iter().map(|c| Clause::from_vec(c.clone())).collect(),
        n_vars: raw.n_vars,
        objectives: raw
            .objectives
            .iter()
            .map(|(softs, offset)| SoftObjective {
                softs: softs.iter().map(|(c, w)| (Clause::from_vec(c.clone()), *w)).collect(),
                offset: *offset,
            })
            .collect(),
    }
}

fn holds(clause: &[Lit], bits: u32) -> bool {
    clause.iter().any(|l| ((bits >> l.vidx()) & 1 == 1) != l.is_neg())
}

fn costs(raw: &Raw, bits: u32) -> Vec<isize> {
    raw.objectives
        .iter()
        .map(|(softs, offset)| {
            offset
                + softs
                    .iter()
                    .filter(|(c, _)| !holds(c, bits))
                    .map(|(_, w)| *w as isize)
                    .sum::<isize>()
        })
        .collect()
}

fn dominated(a: &[isize], b: &[isize]) -> bool {
    a != b && a.iter().zip(b).all(|(x, y)| x >= y)
}

/// The cost tuples that no satisfying assignment improves on.
fn true_front(raw: &Raw) -> Vec<Vec<isize>> {
    let all: Vec<Vec<isize>> = (0..1u32 << raw.n_vars)
        .filter(|bits| raw.clauses.iter().all(|c| holds(c, *bits)))
        .map(|bits| costs(raw, bits))
        .collect();
    let mut front: Vec<Vec<isize>> =
        all.iter().filter(|c| !all.iter().any(|d| dominated(c, d))).cloned().collect();
    front.sort();
    front.dedup();
    front
}

fn bits_of(sol: &Assignment, n_vars: u32) -> u32 {
    (0..n_vars)
        .filter(|v| sol.lit_value(Lit::positive(*v)) == TernaryVal::True)
        .fold(0, |bits, v| bits | (1 << v))
}

fn check(raw: &Raw, opts: Options) {
    let mut solver: PMinimal = PMinimal::default_init_with_options(instance(raw), opts).unwrap();
    assert_eq!(solver.solve(Limits::none()), Ok(()));
    let front = solver.pareto_front();
    let mut found: Vec<Vec<isize>> = front.iter().iter().map(|p| p.costs().clone()).collect();
    found.sort();
    assert_eq!(found, true_front(raw));
    for point in front.iter() {
        assert!(point.n_sols() >= 1);
        for sol in point.iter() {
            let bits = bits_of(sol, raw.n_vars);
            assert!(raw.clauses.iter().all(|c| holds(c, bits)));
            assert_eq!(&costs(raw, bits), point.costs());
        }
    }
    assert_eq!(solver.stats().n_pareto_points, found.len());
}

fn options(enumeration: EnumOptions, tightening: HeurImprWhen, learning: HeurImprWhen) -> Options {
    let mut opts = Options::default();
    opts.enumeration = enumeration;
    opts.heuristic_improvements =
        HeurImprOptions { solution_tightening: tightening, tightening_clauses: learning };
    opts
}

#[test]
fn front_matches_exhaustive_search() {
    let mut rng = Rng(7);
    for _ in 0..300 {
        check(&random_instance(&mut rng), Options::default());
    }
}

#[test]
fn front_matches_exhaustive_search_with_reserved_variables() {
    let mut rng = Rng(11);
    let mut opts = Options::default();
    opts.reserve_enc_vars = true;
    for _ in 0..200 {
        check(&random_instance(&mut rng), opts);
    }
}

#[test]
fn front_matches_exhaustive_search_with_pmcs_enumeration() {
    let mut rng = Rng(23);
    for _ in 0..200 {
        let opts = options(EnumOptions::PMCSs(None), HeurImprWhen::Never, HeurImprWhen::Never);
        check(&random_instance(&mut rng), opts);
    }
}

#[test]
fn front_matches_exhaustive_search_with_bounded_enumeration() {
    let mut rng = Rng(31);
    for _ in 0..200 {
        let opts = options(EnumOptions::Solutions(Some(3)), HeurImprWhen::Never, HeurImprWhen::Never);
        check(&random_instance(&mut rng), opts);
    }
}

#[test]
fn front_matches_exhaustive_search_with_tightening() {
    let mut rng = Rng(43);
    for _ in 0..200 {
        let opts = options(EnumOptions::NoEnum, HeurImprWhen::Always, HeurImprWhen::Never);
        check(&random_instance(&mut rng), opts);
    }
}

#[test]
fn front_matches_exhaustive_search_with_learning() {
    let mut rng = Rng(59);
    for _ in 0..200 {
        let opts = options(EnumOptions::NoEnum, HeurImprWhen::OuterLoop, HeurImprWhen::Always);
        check(&random_instance(&mut rng), opts);
    }
}

#[test]
fn front_matches_exhaustive_search_with_everything() {
    let mut rng = Rng(71);
    for _ in 0..200 {
        let mut opts =
            options(EnumOptions::PMCSs(Some(2)), HeurImprWhen::Always, HeurImprWhen::Always);
        opts.reserve_enc_vars = true;
        check(&random_instance(&mut rng), opts);
    }
}

#[test]
fn all_solutions_are_found_at_each_point() {
    let mut rng = Rng(83);
    for _ in 0..100 {
        let raw = random_instance(&mut rng);
        let opts = options(EnumOptions::Solutions(None), HeurImprWhen::Never, HeurImprWhen::Never);
        let mut solver: PMinimal = PMinimal::default_init_with_options(instance(&raw), opts).unwrap();
        assert_eq!(solver.solve(Limits::none()), Ok(()));
        for point in solver.pareto_front().iter() {
            let mut found: Vec<u32> =
                point.iter().iter().map(|s| bits_of(s, raw.n_vars)).collect();
            found.sort();
            found.dedup();
            let expected: Vec<u32> = (0..1u32 << raw.n_vars)
                .filter(|bits| raw.clauses.iter().all(|c| holds(c, *bits)))
                .filter(|bits| &costs(&raw, *bits) == point.costs())
                .collect();
            assert_eq!(found, expected);
        }
    }
}
