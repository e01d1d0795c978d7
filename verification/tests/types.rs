use pminimal::types::MAX_VAR_IDX;
use pminimal::{Assignment, Clause, Lit, TernaryVal, Var};

#[test]
fn literal_of_a_variable() {
    let l = Lit::new(5, true);
    assert_eq!(l.vidx(), 5);
    assert!(l.is_neg());
    assert!(!l.is_pos());
    assert_eq!(l, Lit::negative(5));
    assert_eq!(l.var(), Var::new(5));
    assert_eq!(Var::new(5).neg_lit(), l);
    assert_eq!(Var::new(5).pos_lit(), Lit::positive(5));
    assert_eq!(Lit::positive(5).code, 10);
    assert_eq!(l.code, 11);
}

#[test]
fn negation_flips_the_polarity() {
    let l = Lit::positive(3);
    assert_eq!(l.not(), Lit::negative(3));
    assert_eq!(l.not().not(), l);
    let top = Lit::new(MAX_VAR_IDX, true);
    assert_eq!(top.vidx(), MAX_VAR_IDX);
    assert_eq!(top.not(), Lit::new(MAX_VAR_IDX, false));
}

#[test]
fn value_of_a_literal() {
    let a = Assignment::from_vec(vec![TernaryVal::True, TernaryVal::False, TernaryVal::DontCare]);
    assert_eq!(a.lit_value(Lit::positive(0)), TernaryVal::True);
    assert_eq!(a.lit_value(Lit::negative(0)), TernaryVal::False);
    assert_eq!(a.lit_value(Lit::positive(1)), TernaryVal::False);
    assert_eq!(a.lit_value(Lit::negative(1)), TernaryVal::True);
    assert_eq!(a.lit_value(Lit::positive(2)), TernaryVal::DontCare);
    assert_eq!(a.lit_value(Lit::negative(2)), TernaryVal::DontCare);
    // beyond the end of the assignment
    assert_eq!(a.lit_value(Lit::negative(7)), TernaryVal::DontCare);
    assert_eq!(a.var_value(Var::new(7)), TernaryVal::DontCare);
}

#[test]
fn assigning_a_literal_pads_the_assignment() {
    let mut a = Assignment::from_vec(vec![TernaryVal::True]);
    a.assign_lit(Lit::negative(3));
    assert_eq!(
        a,
        Assignment::from_vec(vec![
            TernaryVal::True,
            TernaryVal::DontCare,
            TernaryVal::DontCare,
            TernaryVal::False
        ])
    );
    a.assign_lit(Lit::negative(0));
    assert_eq!(a.lit_value(Lit::positive(0)), TernaryVal::False);
    assert_eq!(a.len(), 4);
}

#[test]
fn truncating_an_assignment() {
    let a = Assignment::from_vec(vec![TernaryVal::True, TernaryVal::False, TernaryVal::True]);
    assert_eq!(
        a.duplicate().truncate(Var::new(1)),
        Assignment::from_vec(vec![TernaryVal::True, TernaryVal::False])
    );
    assert_eq!(a.duplicate().truncate(Var::new(2)), a);
    assert_eq!(a.duplicate().truncate(Var::new(9)), a);
    assert_eq!(a.duplicate().truncate(Var::new(0)).len(), 1);
}

#[test]
fn true_literals_of_an_assignment() {
    let a = Assignment::from_vec(vec![TernaryVal::True, TernaryVal::DontCare, TernaryVal::False]);
    assert_eq!(a.iter(), vec![Lit::positive(0), Lit::negative(2)]);
    assert!(Assignment::empty().iter().is_empty());
    assert!(Assignment::empty().is_empty());
}

#[test]
fn clauses_hold_literals_in_order() {
    let mut c = Clause::new();
    assert!(c.is_empty());
    c.add(Lit::positive(2));
    c.add(Lit::negative(0));
    assert_eq!(c.len(), 2);
    assert_eq!(c.get(0), Lit::positive(2));
    assert_eq!(c.get(1), Lit::negative(0));
    let d = c.duplicate();
    assert!(c.same_lits(&d));
    assert!(!c.same_lits(&Clause::from_vec(vec![Lit::negative(0), Lit::positive(2)])));
    assert!(!c.same_lits(&Clause::from_vec(vec![Lit::positive(2)])));
}

#[test]
fn normalizing_sorts_and_removes_repetitions() {
    let c = Clause::from_vec(vec![
        Lit::positive(4),
        Lit::negative(1),
        Lit::positive(4),
        Lit::positive(0),
        Lit::negative(1),
    ]);
    let n = c.normalize().unwrap();
    assert_eq!(
        n,
        Clause::from_vec(vec![Lit::positive(0), Lit::negative(1), Lit::positive(4)])
    );
}

#[test]
fn normalizing_refuses_a_tautology() {
    let c = Clause::from_vec(vec![Lit::positive(4), Lit::negative(1), Lit::negative(4)]);
    assert_eq!(c.normalize(), None);
    let unit = Clause::from_vec(vec![Lit::negative(4)]);
    assert_eq!(unit.duplicate().normalize(), Some(unit));
    assert_eq!(Clause::new().normalize(), Some(Clause::new()));
}
