//! Scoring of ten-sided dice pools: how many disjoint groups of dice, each
//! summing to at least ten, a greedy search extracts from a roll.
//!
//! - [`roller`] rolls dice from a random source that the caller owns.
//! - [`pool`] orders a pool and replaces the one die that a reroll changes.
//! - [`finder`] enumerates the selections of dice that reach a threshold.
//! - [`discovery`] tells in which order it finds them, and that it misses
//!   none.
//! - [`maximizer`] plays the rounds: the best selection becomes a raise and
//!   its dice leave the pool.
//! - [`engine`] puts these together into the three operations on a pool.
//! - [`laws`] states and proves what holds of every pool.

pub mod discovery;
pub mod engine;
pub mod error;
pub mod finder;
pub mod laws;
pub mod maximizer;
pub mod pool;
pub mod roller;

pub use engine::{
    componi_rilancio, reroll_dice, rilancia_con, rilancia_uno, roll_dice, roll_with_reroll, valuta,
    DiceResponse, RollWithRerollResponse,
};
pub use error::EngineError;
pub use finder::trova_combinazioni;
pub use maximizer::{gioca_round, massimizza_raises};
pub use pool::{ordina_decrescente, primo_uno, sostituisci_primo_uno};
pub use roller::{lancia_dadi, tira_dado};
