use pminimal::objective::{Objective, ObjectiveError};
use pminimal::types::{Assignment, Lit, TernaryVal};

#[test]
fn empty_list_is_constant() {
    let obj = Objective::new(vec![], 4).unwrap();
    assert!(matches!(obj, Objective::Constant { offset: 4 }));
    assert_eq!(obj.offset(), 4);
    assert!(obj.iter().is_empty());
}

#[test]
fn equal_weights_are_unweighted() {
    let x = Lit::positive(0);
    let y = Lit::negative(1);
    let obj = Objective::new(vec![(x, 3), (y, 3)], -2).unwrap();
    match &obj {
        Objective::Unweighted { offset, unit_weight, lits } => {
            assert_eq!(*offset, -2);
            assert_eq!(*unit_weight, 3);
            assert_eq!(lits, &vec![x, y]);
        }
        _ => panic!("expected an unweighted objective"),
    }
    assert_eq!(obj.iter(), vec![(x, 1), (y, 1)]);
}

#[test]
fn single_heavy_literal_is_unweighted() {
    let x = Lit::positive(7);
    let obj = Objective::new(vec![(x, 5)], 0).unwrap();
    match obj {
        Objective::Unweighted { unit_weight, lits, .. } => {
            assert_eq!(unit_weight, 5);
            assert_eq!(lits, vec![x]);
        }
        _ => panic!("expected an unweighted objective"),
    }
}

#[test]
fn differing_weights_are_weighted_and_merged() {
    let x = Lit::positive(0);
    let y = Lit::positive(1);
    let obj = Objective::new(vec![(x, 1), (y, 2), (x, 4)], 5).unwrap();
    match &obj {
        Objective::Weighted { offset, lits } => {
            assert_eq!(*offset, 5);
            assert_eq!(lits, &vec![(x, 5), (y, 2)]);
        }
        _ => panic!("expected a weighted objective"),
    }
}

#[test]
fn zero_weight_is_refused() {
    let x = Lit::positive(0);
    let y = Lit::positive(1);
    assert_eq!(
        Objective::new(vec![(x, 1), (y, 0)], 0).unwrap_err(),
        ObjectiveError::ZeroWeight
    );
    assert_eq!(
        Objective::new(vec![(x, usize::MAX), (y, 0)], 1).unwrap_err(),
        ObjectiveError::ZeroWeight
    );
}

#[test]
fn overflowing_sum_is_refused() {
    let x = Lit::positive(0);
    let y = Lit::positive(1);
    assert_eq!(
        Objective::new(vec![(x, usize::MAX), (y, 1)], 0).unwrap_err(),
        ObjectiveError::Overflow
    );
    assert_eq!(
        Objective::new(vec![(x, isize::MAX as usize)], 1).unwrap_err(),
        ObjectiveError::Overflow
    );
    assert!(Objective::new(vec![(x, isize::MAX as usize)], 0).is_ok());
}

#[test]
fn costs_of_an_assignment() {
    let x = Lit::positive(0);
    let y = Lit::positive(1);
    let z = Lit::negative(2);
    let obj = Objective::new(vec![(x, 2), (y, 3), (z, 3)], 5).unwrap();
    let sol = Assignment::from_vec(vec![TernaryVal::True, TernaryVal::False, TernaryVal::False]);
    assert_eq!(obj.eval_internal(&sol), 5);
    assert_eq!(obj.eval(&sol), 10);
    let unweighted = Objective::new(vec![(x, 4), (z, 4), (y, 4)], -1).unwrap();
    assert_eq!(unweighted.eval_internal(&sol), 2);
    assert_eq!(unweighted.eval(&sol), 7);
    assert_eq!(unweighted.externalize(0), -1);
    let unassigned = Assignment::empty();
    assert_eq!(obj.eval(&unassigned), 5);
}
