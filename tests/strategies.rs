use prisoners_dilemma::choice::Choice;
use prisoners_dilemma::player::{create_seed_from_str, Player};
use prisoners_dilemma::rng::RandomStream;
use prisoners_dilemma::strategies::{
    alternator_c, alternator_d, coin_to_choice, cooperator, defector, grim_trigger,
    random_coin_flip, tit_for_tat, tit_for_two_tats, Strategy,
};

use Choice::{Cooperate as C, Defect as D};

fn rng() -> RandomStream {
    RandomStream::new(7)
}

#[test]
fn cooperator_always_cooperates() {
    let mut r = rng();
    assert_eq!(cooperator(&[], &[], &mut r), C);
    assert_eq!(cooperator(&[D, D], &[D, D], &mut r), C);
    assert_eq!(cooperator(&[C], &[D], &mut r), C);
}

#[test]
fn defector_always_defects() {
    let mut r = rng();
    assert_eq!(defector(&[], &[], &mut r), D);
    assert_eq!(defector(&[C, C], &[C, C], &mut r), D);
    assert_eq!(defector(&[D], &[C], &mut r), D);
}

#[test]
fn tit_for_tat_opens_with_cooperation_then_mirrors() {
    let mut r = rng();
    assert_eq!(tit_for_tat(&[], &[], &mut r), C);
    assert_eq!(tit_for_tat(&[C], &[D], &mut r), D);
    assert_eq!(tit_for_tat(&[C, D], &[D, C], &mut r), C);
    assert_eq!(tit_for_tat(&[C, C, C], &[C, C, D], &mut r), D);
}

#[test]
fn tit_for_two_tats_needs_two_defections_in_a_row() {
    let mut r = rng();
    assert_eq!(tit_for_two_tats(&[], &[], &mut r), C);
    assert_eq!(tit_for_two_tats(&[C], &[D], &mut r), C);
    assert_eq!(tit_for_two_tats(&[C, C], &[D, D], &mut r), D);
    assert_eq!(tit_for_two_tats(&[C, C, C], &[D, C, D], &mut r), C);
    assert_eq!(tit_for_two_tats(&[C, C, C], &[C, D, D], &mut r), D);
}

#[test]
fn grim_trigger_never_forgives() {
    let mut r = rng();
    assert_eq!(grim_trigger(&[], &[], &mut r), C);
    assert_eq!(grim_trigger(&[C, C], &[C, C], &mut r), C);
    assert_eq!(grim_trigger(&[C, C], &[D, C], &mut r), D);
    assert_eq!(grim_trigger(&[C, C, D, D], &[D, C, C, C], &mut r), D);
}

#[test]
fn alternators_flip_their_own_move() {
    let mut r = rng();
    assert_eq!(alternator_c(&[], &[], &mut r), C);
    assert_eq!(alternator_c(&[C], &[D], &mut r), D);
    assert_eq!(alternator_c(&[C, D], &[D, D], &mut r), C);
    assert_eq!(alternator_d(&[], &[], &mut r), D);
    assert_eq!(alternator_d(&[D], &[C], &mut r), C);
}

#[test]
fn coin_maps_to_moves() {
    assert_eq!(coin_to_choice(true), C);
    assert_eq!(coin_to_choice(false), D);
}

#[test]
fn coin_flip_from_the_same_seed_repeats() {
    let mut a = RandomStream::new(42);
    let mut b = RandomStream::new(42);
    let xs: Vec<Choice> = (0..64).map(|_| random_coin_flip(&[], &[], &mut a)).collect();
    let ys: Vec<Choice> = (0..64).map(|_| random_coin_flip(&[], &[], &mut b)).collect();
    assert_eq!(xs, ys);
    assert!(xs.contains(&C));
    assert!(xs.contains(&D));
}

#[test]
fn seed_is_the_byte_sum_of_the_name() {
    assert_eq!(create_seed_from_str(""), 0);
    assert_eq!(create_seed_from_str("ab"), 195);
    assert_eq!(create_seed_from_str("Defector"), 68 + 101 + 102 + 101 + 99 + 116 + 111 + 114);
}

#[test]
fn player_follows_its_strategy() {
    let mut p = Player::new(Strategy::TitForTat, "TitForTat", 3);
    assert_eq!(p.name(), "TitForTat");
    assert_eq!(p.name, "TitForTat");
    assert_eq!(p.strategy(), Strategy::TitForTat);
    assert_eq!(p.decide(&[], &[]), C);
    assert_eq!(p.decide(&[C], &[D]), D);
    let mut q = Player::new(Strategy::AlternatorD, "AlternatorD", 3);
    assert_eq!(q.decide(&[D], &[C]), C);
}

#[test]
fn strategy_kinds_dispatch_to_their_rules() {
    let mut r = rng();
    assert_eq!(Strategy::Cooperator.play(&[D], &[D], &mut r), C);
    assert_eq!(Strategy::Defector.play(&[C], &[C], &mut r), D);
    assert_eq!(Strategy::TitForTat.play(&[C], &[D], &mut r), D);
    assert_eq!(Strategy::TitForTwoTats.play(&[C, C], &[D, D], &mut r), D);
    assert_eq!(Strategy::GrimTrigger.play(&[C, C], &[D, C], &mut r), D);
    assert_eq!(Strategy::AlternatorC.play(&[C], &[C], &mut r), D);
    assert_eq!(Strategy::AlternatorD.play(&[], &[], &mut r), D);
}

#[test]
fn coin_flip_draws_from_the_stream_in_order() {
    let mut s = RandomStream::new(99);
    let g = fastrand::Rng::with_seed(99);
    for _ in 0..32 {
        let expected = if g.bool() { C } else { D };
        assert_eq!(random_coin_flip(&[], &[], &mut s), expected);
    }
}
