use prisoners_dilemma::choice::Choice;
use prisoners_dilemma::payoff::{compute_pairing_scores, compute_payoffs};
use prisoners_dilemma::ranking::rank;

use Choice::{Cooperate as C, Defect as D};

#[test]
fn payoff_matrix() {
    assert_eq!(compute_payoffs(&C, &C), (3, 3));
    assert_eq!(compute_payoffs(&C, &D), (0, 5));
    assert_eq!(compute_payoffs(&D, &C), (5, 0));
    assert_eq!(compute_payoffs(&D, &D), (1, 1));
}

#[test]
fn pairing_scores_fold_the_rounds() {
    assert_eq!(compute_pairing_scores(&[], &[]), (0, 0));
    assert_eq!(compute_pairing_scores(&[C, D, D], &[D, D, C]), (6, 6));
    assert_eq!(compute_pairing_scores(&[C, C, D], &[C, D, D]), (4, 9));
}

#[test]
fn pairing_scores_swap_with_the_sides() {
    let a = [C, D, D, C, C];
    let b = [D, D, C, C, D];
    let (x, y) = compute_pairing_scores(&a, &b);
    assert_eq!(compute_pairing_scores(&b, &a), (y, x));
}

#[test]
fn mutual_cooperation_and_defection_over_n_rounds() {
    let n = 7;
    assert_eq!(compute_pairing_scores(&vec![C; n], &vec![C; n]), (21, 21));
    assert_eq!(compute_pairing_scores(&vec![D; n], &vec![D; n]), (7, 7));
}

#[test]
fn rank_orders_by_score_then_index() {
    assert_eq!(rank(&vec![]), vec![]);
    assert_eq!(rank(&vec![5, 9, 5, 0, 9]), vec![(1, 9), (4, 9), (0, 5), (2, 5), (3, 0)]);
    assert_eq!(rank(&vec![2, 2, 2]), vec![(0, 2), (1, 2), (2, 2)]);
}
