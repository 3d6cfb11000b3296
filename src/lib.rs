//! Iterated Prisoner's Dilemma tournaments among a roster of strategies.

pub mod choice;
pub mod rng;
pub mod strategies;
pub mod player;
pub mod payoff;
pub mod pairings;
pub mod ranking;
pub mod tournament;
