//! The player record: identity and personal card collection.

use crate::cards::CardMap;
use vstd::prelude::*;

verus! {

/// A player's durable record. Entries of `cards` map a card identifier to an
/// owned quantity, which is always positive.
pub struct Player {
    pub discord_id: i64,
    pub cards: CardMap,
}

impl Player {
    pub open spec fn wf(&self) -> bool {
        self.cards.wf()
    }

    /// A fresh record with an empty collection.
    pub fn new(discord_id: i64) -> (p: Player)
        ensures
            p.wf(),
            p.discord_id == discord_id,
            p.cards@.len() == 0,
    {
        Player { discord_id, cards: CardMap::new() }
    }
}

} // verus!
