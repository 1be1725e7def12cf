//! Multi-way Elo ratings for decks of a multiplayer card game.
//!
//! The library decides everything about a rating update that is not
//! arithmetic on ratings: which pairs of participants exchange points and with
//! what outcome, where each deck's rating before a game comes from, and how
//! a history of games is replayed after an edit. The rating type is a
//! parameter, so the same verified logic drives any numeric representation.
use vstd::prelude::*;

pub mod api;
pub mod elo;
pub mod error;
pub mod history;
