use prisoners_dilemma::choice::Choice;
use prisoners_dilemma::strategies::Strategy;
use prisoners_dilemma::tournament::{Tournament, TournamentError};

use Choice::{Cooperate as C, Defect as D};

fn built(configs: Vec<(&'static str, Strategy)>, n: u64) -> Tournament {
    match Tournament::new(configs, n) {
        Ok(t) => t,
        Err(e) => panic!("unexpected error {:?}", e),
    }
}

#[test]
fn construction_errors() {
    assert_eq!(Tournament::new(vec![], 5).err(), Some(TournamentError::EmptyRoster));
    assert_eq!(Tournament::new(vec![], 0).err(), Some(TournamentError::EmptyRoster));
    assert_eq!(
        Tournament::new(vec![("Cooperator", Strategy::Cooperator)], 0).err(),
        Some(TournamentError::ZeroIterations)
    );
    assert!(Tournament::new(vec![("Cooperator", Strategy::Cooperator)], u64::MAX / 10 + 1).is_ok());
    assert!(Tournament::new(vec![("Cooperator", Strategy::Cooperator)], 1).is_ok());
    if (usize::MAX as u64) < u64::MAX {
        assert_eq!(
            Tournament::new(vec![("Cooperator", Strategy::Cooperator)], u64::MAX).err(),
            Some(TournamentError::IterationsOutOfRange)
        );
    } else {
        assert!(Tournament::new(vec![("Cooperator", Strategy::Cooperator)], u64::MAX).is_ok());
    }
}

#[test]
fn pairings_are_combinations_with_replacement_in_order() {
    let t = built(
        vec![
            ("Cooperator", Strategy::Cooperator),
            ("Defector", Strategy::Defector),
            ("TitForTat", Strategy::TitForTat),
        ],
        1,
    );
    assert_eq!(
        *t.pairings(),
        vec![(0, 0), (0, 1), (0, 2), (1, 1), (1, 2), (2, 2)]
    );
    assert_eq!(t.n_players(), 3);
    assert_eq!(t.player_name(2), "TitForTat");
    let (a, b) = t.history(4);
    assert!(a.is_empty() && b.is_empty());
}

#[test]
fn histories_grow_by_one_per_round() {
    let mut t = built(
        vec![
            ("GrimTrigger", Strategy::GrimTrigger),
            ("RandomCoinFlip", Strategy::RandomCoinFlip),
            ("AlternatorC", Strategy::AlternatorC),
        ],
        4,
    );
    for r in 1..=4u64 {
        t.run_iteration();
        assert_eq!(t.rounds_played(), r);
        for k in 0..t.pairings().len() {
            let (a, b) = t.history(k);
            assert_eq!(a.len() as u64, r);
            assert_eq!(b.len() as u64, r);
        }
    }
    assert_eq!(t.n_iterations(), 4);
}

#[test]
fn cooperators_score_three_per_round() {
    let mut t = built(vec![("A", Strategy::Cooperator), ("B", Strategy::Cooperator)], 6);
    t.run();
    assert_eq!(t.pairing_scores()[1], (18, 18));
}

#[test]
fn defectors_score_one_per_round() {
    let mut t = built(vec![("A", Strategy::Defector), ("B", Strategy::Defector)], 6);
    t.run();
    assert_eq!(t.pairing_scores()[1], (6, 6));
}

#[test]
fn same_configuration_same_outcome() {
    let roster = vec![
        ("RandomCoinFlip", Strategy::RandomCoinFlip),
        ("TitForTwoTats", Strategy::TitForTwoTats),
        ("Coin", Strategy::RandomCoinFlip),
    ];
    let mut t1 = built(roster.clone(), 50);
    let mut t2 = built(roster, 50);
    t1.run();
    t2.run();
    for k in 0..t1.pairings().len() {
        assert_eq!(t1.history(k), t2.history(k));
    }
    assert_eq!(t1.total_scores(), t2.total_scores());
    assert_eq!(t1.ranking(), t2.ranking());
}

#[test]
fn cooperator_against_defector_five_rounds() {
    let mut t = built(
        vec![("Cooperator", Strategy::Cooperator), ("Defector", Strategy::Defector)],
        5,
    );
    t.run();
    assert_eq!(*t.pairings(), vec![(0, 0), (0, 1), (1, 1)]);
    assert_eq!(t.pairing_scores(), vec![(15, 15), (0, 25), (5, 5)]);
    assert_eq!(t.total_scores(), vec![30, 35]);
    assert_eq!(t.ranking(), vec![(1, 35), (0, 30)]);
}

#[test]
fn tit_for_tat_against_defector_three_rounds() {
    let mut t = built(
        vec![("TitForTat", Strategy::TitForTat), ("Defector", Strategy::Defector)],
        3,
    );
    t.run();
    let (a, b) = t.history(1);
    assert_eq!(a, &[C, D, D]);
    assert_eq!(b, &[D, D, D]);
    assert_eq!(t.pairing_scores()[1], (2, 7));
    assert_eq!(t.total_scores(), vec![2 + 18, 7 + 6]);
    assert_eq!(t.ranking(), vec![(0, 20), (1, 13)]);
}
