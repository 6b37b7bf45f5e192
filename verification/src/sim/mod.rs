//! Cards, the hand evaluator, the seeded deck and the simulations built on them.
//!
//! - [`card`], [`parse`], [`inputs`]: cards, their text form, and the
//!   checks on what a simulation is given.
//! - [`eval`]: the score of five cards and the best score of up to seven.
//! - [`rng`], [`deck`], [`trial`]: the seeded generator, the deck and its
//!   shuffle, and one trial of a hero against an opponent.
//! - [`progress`]: the percentages that a simulation reports.
//! - [`simulate_vs_list`]: the hero against a list of opponents, with the
//!   categories by which each side won, tied and lost, and a trace of every
//!   trial.
//! - [`categories`]: the hero against a list of opponents, with the
//!   categories of each side's hands whatever the outcome.
//! - [`rank_distribution`]: how often each of several hands ends in each
//!   category.

pub mod card;
pub mod categories;
pub mod deck;
pub mod eval;
pub mod inputs;
pub mod parse;
pub mod progress;
pub mod rank_distribution;
pub mod rng;
pub mod simulate_vs_list;
pub mod trial;
