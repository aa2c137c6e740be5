//! The inventory/deck consistency engine of a trading-card chat bot: parsing
//! player-supplied card specifications, validating them against ownership and
//! deck-composition rules, and moving card quantities between a player's
//! collection and a named deck while keeping both records consistent.
//!
//! Persistence, the chat surface and the card catalog's transport live
//! outside the library and hand it plain values.

pub mod cards;
pub mod catalog;
pub mod decks;
pub mod parse;
pub mod player;
pub mod transfer;
