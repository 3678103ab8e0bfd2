use ipd_sim::game::{Move, Payoff};

fn test_payoff() -> Payoff {
    Payoff::new(5, 3, 1, 0)
}

#[test]
fn compute_payoff_both_collaborate() {
    let payoff = test_payoff();
    assert_eq!(payoff.compute_payoff(Move::Collaborate, Move::Collaborate), (3, 3))
}

#[test]
fn compute_payoff_both_defect() {
    let payoff = test_payoff();
    assert_eq!(payoff.compute_payoff(Move::Defect, Move::Defect), (1, 1))
}

#[test]
fn compute_payoff_one_defect() {
    let payoff = test_payoff();
    assert_eq!(payoff.compute_payoff(Move::Defect, Move::Collaborate), (5, 0))
}

#[test]
fn compute_payoff_one_defects_simetric() {
    let payoff = test_payoff();
    let one_defects = payoff.compute_payoff(Move::Collaborate, Move::Defect);
    let other_defects = payoff.compute_payoff(Move::Defect, Move::Collaborate);
    assert_eq!((one_defects.0, one_defects.1), (other_defects.1, other_defects.0));
}

#[test]
fn payoff_with_other_constants() {
    let payoff = Payoff::new(9, 7, 4, 2);
    assert_eq!(payoff.compute_payoff(Move::Collaborate, Move::Collaborate), (7, 7));
    assert_eq!(payoff.compute_payoff(Move::Defect, Move::Defect), (4, 4));
    assert_eq!(payoff.compute_payoff(Move::Defect, Move::Collaborate), (9, 2));
    assert_eq!(payoff.compute_payoff(Move::Collaborate, Move::Defect), (2, 9));
}

#[test]
fn default_payoff_is_standard() {
    let payoff = Payoff::default();
    assert_eq!(payoff.compute_payoff(Move::Defect, Move::Collaborate), (5, 0));
    assert_eq!(payoff.compute_payoff(Move::Collaborate, Move::Collaborate), (3, 3));
    assert_eq!(payoff.compute_payoff(Move::Defect, Move::Defect), (1, 1));
}

#[test]
fn opposite_moves() {
    assert_eq!(Move::Collaborate.oposite_move(), Move::Defect);
    assert_eq!(Move::Defect.oposite_move(), Move::Collaborate);
}
