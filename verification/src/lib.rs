//! Poker hand strength and Monte Carlo equity for Texas hold'em.
//!
//! The crate scores five to seven cards, completes a partly known board from
//! a seeded deck, and tallies how a hero's hand fares against each hand of a
//! list of opponents.
//!
//! - [`sim`] holds the cards, the evaluator, the seeded generator and deck,
//!   the reading of texts, and the simulations that are exact functions of
//!   their seed.
//! - [`rs_poker_native`] holds the simulations that leave the dealing or the
//!   ranking to the `rs_poker` crate.
//! - [`boundary`] turns the bytes that a host hands in into texts, and rows
//!   of results into the flat row of numbers that the host takes back.

pub mod boundary;
pub mod rs_poker_native;
pub mod sim;
