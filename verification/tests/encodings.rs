use pminimal::encodings::{take_up, ObjEncoding, VarManager};
use pminimal::types::MAX_VAR_IDX;
use pminimal::{Clause, EncodingError, Lit, Var};

fn lits(n: u32) -> Vec<Lit> {
    (0..n).map(Lit::positive).collect()
}

#[test]
fn variable_manager_hands_out_fresh_variables() {
    let mut vm = VarManager::from_next_free(0);
    assert_eq!(vm.max_var(), None);
    assert_eq!(vm.new_var(), Some(Var::new(0)));
    assert_eq!(vm.new_var(), Some(Var::new(1)));
    assert_eq!(vm.max_var(), Some(Var::new(1)));
    assert_eq!(vm.n_used(), 2);
    let mut full = VarManager::from_next_free(MAX_VAR_IDX);
    assert_eq!(full.new_var(), None);
    assert_eq!(full.n_used(), MAX_VAR_IDX);
}

#[test]
fn constant_encoding_encodes_nothing() {
    let mut enc = ObjEncoding::Constant;
    let mut vm = VarManager::from_next_free(4);
    let mut collector: Vec<Clause> = Vec::new();
    assert_eq!(enc.encode_ub_change(0..9, &mut collector, &mut vm), Ok(()));
    assert!(collector.is_empty());
    assert_eq!(vm.n_used(), 4);
    assert_eq!(enc.enforce_ub(0), Ok(vec![]));
    assert_eq!(enc.offset(), 0);
    assert_eq!(enc.next_higher(5), 5);
    assert_eq!(enc.coarse_ub(5), 5);
    assert_eq!(enc.n_clauses(), 0);
    assert_eq!(enc.n_vars(), 0);
}

#[test]
fn bound_below_the_offset_is_unsat() {
    let mut vm = VarManager::from_next_free(3);
    let enc = ObjEncoding::new_unweighted(&lits(3), false, &mut vm).unwrap();
    let shifted = match enc {
        ObjEncoding::Unweighted(e, _) => ObjEncoding::Unweighted(e, 4),
        _ => panic!("expected an unweighted encoding"),
    };
    assert_eq!(shifted.offset(), 4);
    assert_eq!(shifted.enforce_ub(3), Err(EncodingError::Unsat));
    assert_eq!(shifted.enforce_ub(0), Err(EncodingError::Unsat));
    let weighted = ObjEncoding::new_weighted(
        &vec![(Lit::positive(0), 2), (Lit::positive(1), 5)],
        false,
        &mut vm,
    )
    .unwrap();
    let shifted = match weighted {
        ObjEncoding::Weighted(e, _) => ObjEncoding::Weighted(e, 1),
        _ => panic!("expected a weighted encoding"),
    };
    assert_eq!(shifted.enforce_ub(0), Err(EncodingError::Unsat));
}

#[test]
fn bounds_are_shifted_by_the_offset() {
    let mut vm = VarManager::from_next_free(3);
    let enc = ObjEncoding::new_unweighted(&lits(3), false, &mut vm).unwrap();
    let mut shifted = match enc {
        ObjEncoding::Unweighted(e, _) => ObjEncoding::Unweighted(e, 4),
        _ => panic!("expected an unweighted encoding"),
    };
    assert_eq!(shifted.shift(6), 2);
    assert_eq!(shifted.shift(4), 0);
    assert_eq!(shifted.shift(1), 0);
    // nothing is encoded yet
    assert_eq!(shifted.enforce_ub(5), Err(EncodingError::NotEncoded));
    let mut collector: Vec<Clause> = Vec::new();
    shifted.encode_ub_change(5..6, &mut collector, &mut vm).unwrap();
    assert!(!collector.is_empty());
    let assumps = shifted.enforce_ub(5).unwrap();
    assert_eq!(assumps.len(), 1);
    assert!(assumps[0].is_neg());
    assert!(assumps[0].vidx() >= 3);
    // with all three literals true the cost is 7: nothing to enforce
    assert_eq!(shifted.enforce_ub(7), Ok(vec![]));
    assert_eq!(shifted.next_higher(5), 6);
}

#[test]
fn encoding_a_range_again_emits_nothing() {
    let mut vm = VarManager::from_next_free(5);
    let mut enc = ObjEncoding::new_unweighted(&lits(5), false, &mut vm).unwrap();
    let mut collector: Vec<Clause> = Vec::new();
    enc.encode_ub_change(0..5, &mut collector, &mut vm).unwrap();
    let n_clauses = collector.len();
    let n_vars = vm.n_used();
    assert!(n_clauses > 0);
    assert!(n_vars > 5);
    enc.encode_ub_change(1..3, &mut collector, &mut vm).unwrap();
    enc.encode_ub_change(0..5, &mut collector, &mut vm).unwrap();
    assert_eq!(collector.len(), n_clauses);
    assert_eq!(vm.n_used(), n_vars);
    assert_eq!(enc.n_clauses(), n_clauses);
    assert_eq!(enc.n_vars(), n_vars - 5);

    let weights = vec![(Lit::positive(0), 2), (Lit::positive(1), 3), (Lit::positive(2), 7)];
    let mut vm = VarManager::from_next_free(3);
    let mut enc = ObjEncoding::new_weighted(&weights, false, &mut vm).unwrap();
    let mut collector: Vec<Clause> = Vec::new();
    enc.encode_ub_change(0..12, &mut collector, &mut vm).unwrap();
    let n_clauses = collector.len();
    assert!(n_clauses > 0);
    enc.encode_ub_change(2..6, &mut collector, &mut vm).unwrap();
    assert_eq!(collector.len(), n_clauses);
}

#[test]
fn reserving_takes_variables_at_once() {
    let mut vm = VarManager::from_next_free(4);
    let enc = ObjEncoding::new_unweighted(&lits(4), true, &mut vm).unwrap();
    assert!(matches!(enc, ObjEncoding::Unweighted(_, 0)));
    assert!(vm.n_used() > 4);
    let mut plain = VarManager::from_next_free(4);
    ObjEncoding::new_unweighted(&lits(4), false, &mut plain).unwrap();
    assert_eq!(plain.n_used(), 4);
    let mut vm = VarManager::from_next_free(2);
    let weights = vec![(Lit::positive(0), 2), (Lit::positive(1), 3)];
    let enc = ObjEncoding::new_weighted(&weights, true, &mut vm).unwrap();
    assert!(matches!(enc, ObjEncoding::Weighted(_, 0)));
    assert!(vm.n_used() > 2);
}

#[test]
fn weighted_encoder_enforces_bounds_with_assumptions() {
    let weights = vec![(Lit::positive(0), 2), (Lit::positive(1), 3)];
    let mut vm = VarManager::from_next_free(2);
    let mut enc = ObjEncoding::new_weighted(&weights, false, &mut vm).unwrap();
    let mut collector: Vec<Clause> = Vec::new();
    enc.encode_ub_change(2..3, &mut collector, &mut vm).unwrap();
    let assumps = enc.enforce_ub(2).unwrap();
    assert!(!assumps.is_empty());
    assert!(assumps.iter().all(|l| l.is_neg()));
    assert_eq!(enc.enforce_ub(5), Ok(vec![]));
    assert!(enc.next_higher(2) > 2);
    assert!(enc.coarse_ub(2) <= 2);
    assert_eq!(ObjEncoding::outer_value(3, 4), 7);
    assert_eq!(ObjEncoding::outer_value(usize::MAX, 1), usize::MAX);
}

#[test]
fn encoded_bounds_can_be_enforced() {
    let mut vm = VarManager::from_next_free(5);
    let mut enc = ObjEncoding::new_unweighted(&lits(5), false, &mut vm).unwrap();
    assert_eq!(enc.enforce_ub(2), Err(EncodingError::NotEncoded));
    let mut collector: Vec<Clause> = Vec::new();
    assert_eq!(enc.encode_ub_change(1..4, &mut collector, &mut vm), Ok(()));
    for ub in 1..4 {
        assert_eq!(enc.enforce_ub(ub).map(|a| a.len()), Ok(1));
    }
    let mut seen = vec![];
    for ub in 1..4 {
        seen.push(enc.enforce_ub(ub).unwrap()[0]);
    }
    assert!(seen[0] != seen[1] && seen[1] != seen[2] && seen[0] != seen[2]);

    let weights = vec![(Lit::positive(0), 2), (Lit::positive(1), 3), (Lit::positive(2), 7)];
    let mut vm = VarManager::from_next_free(3);
    let mut enc = ObjEncoding::new_weighted(&weights, false, &mut vm).unwrap();
    assert_eq!(enc.enforce_ub(4), Err(EncodingError::NotEncoded));
    let mut collector: Vec<Clause> = Vec::new();
    assert_eq!(enc.encode_ub_change(3..8, &mut collector, &mut vm), Ok(()));
    for ub in 3..8 {
        assert!(enc.enforce_ub(ub).is_ok());
    }
}

#[test]
fn bounds_at_the_top_need_no_assumption() {
    let mut vm = VarManager::from_next_free(3);
    let mut enc = ObjEncoding::new_unweighted(&lits(3), false, &mut vm).unwrap();
    for ub in [3, 4, 100, usize::MAX] {
        assert_eq!(enc.enforce_ub(ub), Ok(vec![]));
    }
    let mut collector: Vec<Clause> = Vec::new();
    assert_eq!(enc.encode_ub_change(3..9, &mut collector, &mut vm), Ok(()));
    assert_eq!(enc.encode_ub_change(2..2, &mut collector, &mut vm), Ok(()));
    assert_eq!(enc.encode_ub_change(2..1, &mut collector, &mut vm), Ok(()));
    assert!(collector.is_empty());
    assert_eq!(vm.n_used(), 3);
    assert_eq!(enc.n_clauses(), 0);
    assert_eq!(enc.n_vars(), 0);

    let weights = vec![(Lit::positive(0), 4), (Lit::positive(1), 1), (Lit::positive(2), 7)];
    let mut enc = ObjEncoding::new_weighted(&weights, false, &mut vm).unwrap();
    for ub in [12, 13, usize::MAX] {
        assert_eq!(enc.enforce_ub(ub), Ok(vec![]));
    }
    assert_eq!(enc.encode_ub_change(12..20, &mut collector, &mut vm), Ok(()));
    assert_eq!(enc.encode_ub_change(5..5, &mut collector, &mut vm), Ok(()));
    assert!(collector.is_empty());
    assert_eq!(vm.n_used(), 3);
}

#[test]
fn counts_follow_what_is_emitted() {
    let weights = vec![(Lit::positive(0), 2), (Lit::positive(1), 3), (Lit::positive(2), 7)];
    let mut vm = VarManager::from_next_free(3);
    let mut enc = ObjEncoding::new_weighted(&weights, false, &mut vm).unwrap();
    assert_eq!(enc.n_clauses(), 0);
    assert_eq!(enc.n_vars(), 0);
    let mut collector: Vec<Clause> = vec![Clause::from_vec(vec![Lit::positive(0)])];
    enc.encode_ub_change(2..4, &mut collector, &mut vm).unwrap();
    let first = collector.len() - 1;
    assert!(first > 0);
    assert_eq!(enc.n_clauses(), first);
    assert_eq!(enc.n_vars(), vm.n_used() - 3);
    enc.encode_ub_change(6..9, &mut collector, &mut vm).unwrap();
    assert!(collector.len() - 1 > first);
    assert_eq!(enc.n_clauses(), collector.len() - 1);
    assert_eq!(enc.n_vars(), vm.n_used() - 3);
    // what was there before stays in front
    assert_eq!(collector[0], Clause::from_vec(vec![Lit::positive(0)]));

    // variables that are reserved are not counted
    let mut vm = VarManager::from_next_free(4);
    let mut enc = ObjEncoding::new_unweighted(&lits(4), true, &mut vm).unwrap();
    let reserved = vm.n_used();
    assert!(reserved > 4);
    assert_eq!(enc.n_vars(), 0);
    let mut collector: Vec<Clause> = Vec::new();
    enc.encode_ub_change(0..4, &mut collector, &mut vm).unwrap();
    assert_eq!(vm.n_used(), reserved);
    assert_eq!(enc.n_vars(), 0);
    assert_eq!(enc.n_clauses(), collector.len());
}

#[test]
fn encoder_is_built_over_the_literals_given() {
    // the assumption for the bound zero of a single literal negates that literal
    let mut vm = VarManager::from_next_free(8);
    let mut enc = ObjEncoding::new_unweighted(&vec![Lit::negative(6)], false, &mut vm).unwrap();
    let mut collector: Vec<Clause> = Vec::new();
    enc.encode_ub_change(0..1, &mut collector, &mut vm).unwrap();
    assert_eq!(enc.enforce_ub(0), Ok(vec![Lit::positive(6)]));
    assert_eq!(enc.enforce_ub(1), Ok(vec![]));
    let mut enc =
        ObjEncoding::new_weighted(&vec![(Lit::positive(5), 3)], false, &mut vm).unwrap();
    enc.encode_ub_change(0..3, &mut collector, &mut vm).unwrap();
    assert_eq!(enc.enforce_ub(2), Ok(vec![Lit::negative(5)]));
    assert_eq!(enc.enforce_ub(3), Ok(vec![]));
}

#[test]
fn coarse_bound_is_the_bound() {
    let weights = vec![(Lit::positive(0), 2), (Lit::positive(1), 3), (Lit::positive(2), 7)];
    let mut vm = VarManager::from_next_free(3);
    let enc = ObjEncoding::new_weighted(&weights, false, &mut vm).unwrap();
    for ub in [0, 1, 4, 6, 11, 12, 40] {
        assert_eq!(enc.coarse_ub(ub), ub);
    }
    let shifted = match enc {
        ObjEncoding::Weighted(e, _) => ObjEncoding::Weighted(e, 5),
        _ => panic!("expected a weighted encoding"),
    };
    for ub in [0, 4, 5, 9, usize::MAX] {
        assert_eq!(shifted.coarse_ub(ub), ub);
    }
    let plain = ObjEncoding::new_unweighted(&lits(3), false, &mut vm).unwrap();
    assert_eq!(plain.coarse_ub(2), 2);
}

#[test]
fn literal_given_twice_counts_twice() {
    let x = Lit::positive(0);
    let y = Lit::positive(1);
    let mut vm = VarManager::from_next_free(2);
    let mut enc = ObjEncoding::new_unweighted(&vec![x, y, x], false, &mut vm).unwrap();
    assert_eq!(enc.enforce_ub(3), Ok(vec![]));
    assert_eq!(enc.enforce_ub(2), Err(EncodingError::NotEncoded));
    let mut collector: Vec<Clause> = Vec::new();
    assert_eq!(enc.encode_ub_change(0..3, &mut collector, &mut vm), Ok(()));
    for ub in 0..3 {
        assert_eq!(enc.enforce_ub(ub).map(|a| a.len()), Ok(1));
    }
    assert_eq!(enc.enforce_ub(3), Ok(vec![]));
    assert_eq!(enc.n_clauses(), collector.len());
}

#[test]
fn what_an_encoder_gives_is_taken_up() {
    let unit = |i: u32| Clause::from_vec(vec![Lit::positive(i)]);
    let mut collector = vec![unit(0)];
    let mut vm = VarManager::from_next_free(4);
    assert_eq!(take_up(None, &mut collector, &mut vm), Err(EncodingError::OutOfMemory));
    assert_eq!(
        take_up(Some((vec![unit(1)], MAX_VAR_IDX + 1)), &mut collector, &mut vm),
        Err(EncodingError::OutOfVariables)
    );
    assert_eq!(collector, vec![unit(0)]);
    assert_eq!(vm.n_used(), 4);
    assert_eq!(take_up(Some((vec![unit(1), unit(2)], 9)), &mut collector, &mut vm), Ok(()));
    assert_eq!(collector, vec![unit(0), unit(1), unit(2)]);
    assert_eq!(vm.n_used(), 9);
    assert_eq!(take_up(Some((vec![], MAX_VAR_IDX)), &mut collector, &mut vm), Ok(()));
    assert_eq!(vm.n_used(), MAX_VAR_IDX);
}

#[test]
fn next_higher_has_no_answer_where_the_encoder_cannot_add() {
    let weights = vec![(Lit::positive(0), 2), (Lit::positive(1), 3)];
    let mut vm = VarManager::from_next_free(2);
    let enc = ObjEncoding::new_weighted(&weights, false, &mut vm).unwrap();
    assert!(enc.try_next_higher(2).unwrap() > 2);
    assert_eq!(enc.try_next_higher(2), Some(enc.next_higher(2)));
    assert_eq!(enc.try_next_higher(usize::MAX), None);
    // the weights add up to five
    assert_eq!(enc.try_next_higher(usize::MAX - 5), None);
    assert!(enc.try_next_higher(usize::MAX - 6).is_some());
    let shifted = match enc {
        ObjEncoding::Weighted(e, _) => ObjEncoding::Weighted(e, 4),
        _ => panic!("expected a weighted encoding"),
    };
    assert_eq!(shifted.try_next_higher(3), None);
    assert!(shifted.try_next_higher(4).unwrap() > 4);
    let plain = ObjEncoding::new_unweighted(&lits(3), false, &mut vm).unwrap();
    assert_eq!(plain.try_next_higher(7), Some(8));
    assert_eq!(plain.try_next_higher(usize::MAX), None);
    assert_eq!(ObjEncoding::Constant.try_next_higher(7), Some(7));
}
