//! The transfer executor: applies a validated card specification as a
//! quantity delta between a player's collection and a deck, keeping both
//! records' invariants intact, with deck creation and deletion built on the
//! same rules.

use crate::cards::{
    has_key, key_qty, lemma_at_most_from_qty, lemma_qty_absent, lemma_qty_at, lemma_qty_bounded,
    lemma_qty_le_total, lemma_qty_nonneg, lemma_qty_take, lemma_qty_take_succ, lemma_total_nonneg,
    qty_of, total_of, CardMap,
};
use crate::decks::{Deck, DeckCards, DECK_CAP, PER_CARD_CAP};
use crate::player::Player;
use vstd::prelude::*;

verus! {

/// Why a deck operation was refused. A refused operation never mutates
/// either record.
#[derive(Debug, Clone, Copy, PartialEq, Eq, Structural)]
pub enum DeckError {
    /// The referenced deck or player record is absent.
    NotFound,
    /// The player already has a deck with that name.
    DuplicateName,
    /// The player or the deck lacks a requested quantity.
    InsufficientOwnership,
    /// The addition would break the sixty-card cap or the four-per-card cap.
    InvalidComposition,
    /// A store or catalog call failed; the records are unchanged.
    ExternalFetch,
}

/// The held quantities cover the specification even when an identifier is
/// requested by several pairs: for every pair, the *summed* requested
/// quantity of its identifier is available.
pub open spec fn can_take(req: Seq<(Seq<char>, int)>, held: Seq<(Seq<char>, int)>) -> bool {
    forall|i: int|
        0 <= i < req.len() ==> qty_of(req, (#[trigger] req[i]).0) <= qty_of(held, req[i].0)
}

/// The deck can absorb the specification even when an identifier is
/// requested by several pairs: the summed quantities respect the sixty-card
/// cap and the four-per-card cap.
pub open spec fn can_add_to_deck(req: Seq<(Seq<char>, int)>, deck: Seq<(Seq<char>, int)>) -> bool {
    total_of(deck) + total_of(req) <= DECK_CAP as int && forall|i: int|
        0 <= i < req.len() ==> qty_of(deck, (#[trigger] req[i]).0) + qty_of(req, req[i].0)
            <= PER_CARD_CAP as int
}

/// For a specification without duplicate identifiers, the pair-wise
/// ownership validator decides exactly whether the quantities can be taken.
pub proof fn lemma_distinct_has_all(req: Seq<(Seq<char>, int)>, held: Seq<(Seq<char>, int)>)
    requires
        crate::cards::distinct_keys(req),
    ensures
        crate::decks::spec_has_all(req, held) == can_take(req, held),
{
    assert forall|i: int| 0 <= i < req.len() implies qty_of(req, (#[trigger] req[i]).0)
        == req[i].1 by {
        lemma_qty_at(req, req[i].0, i);
    }
}

/// For a specification without duplicate identifiers, the pair-wise
/// composition validator decides exactly whether the deck can absorb it.
pub proof fn lemma_distinct_addition(req: Seq<(Seq<char>, int)>, deck: Seq<(Seq<char>, int)>)
    requires
        crate::cards::distinct_keys(req),
    ensures
        crate::decks::spec_is_valid_addition(req, deck) == can_add_to_deck(req, deck),
{
    assert forall|i: int| 0 <= i < req.len() implies qty_of(req, (#[trigger] req[i]).0)
        == req[i].1 by {
        lemma_qty_at(req, req[i].0, i);
    }
}

impl DeckCards {
    /// Whether the summed quantity this specification requests for `id`
    /// exceeds `limit`.
    fn requested_exceeds(&self, id: &String, limit: i64) -> (r: bool)
        requires
            self.wf(),
            limit >= 0,
        ensures
            r == (qty_of(self@, id@) > limit),
    {
        let n = self.cards.len();
        let mut sum: i64 = 0;
        let mut i: usize = 0;
        while i < n
            invariant
                self.wf(),
                limit >= 0,
                n == self@.len(),
                i <= n,
                sum == qty_of(self@.take(i as int), id@),
                0 <= sum <= limit,
            decreases n - i,
        {
            proof {
                lemma_qty_take_succ(self@, i as int, id@);
                assert(self@[i as int] == (self.cards@[i as int].0@, self.cards@[i as int].1 as int));
            }
            if self.cards[i].0 == *id {
                let amt = self.cards[i].1;
                assert(key_qty(self@[i as int], id@) == amt as int);
                if amt > limit - sum {
                    proof {
                        lemma_qty_take(self@, i as int + 1, id@);
                    }
                    return true;
                }
                sum = sum + amt;
            } else {
                assert(key_qty(self@[i as int], id@) == 0);
            }
            i = i + 1;
        }
        proof {
            assert(self@.take(n as int) =~= self@);
        }
        false
    }

    /// Whether the quantities this specification requests sum to more than
    /// `limit`.
    fn total_exceeds(&self, limit: i64) -> (r: bool)
        requires
            self.wf(),
            limit >= 0,
        ensures
            r == (total_of(self@) > limit),
    {
        let n = self.cards.len();
        let mut sum: i64 = 0;
        let mut i: usize = 0;
        while i < n
            invariant
                self.wf(),
                limit >= 0,
                n == self@.len(),
                i <= n,
                sum == total_of(self@.take(i as int)),
                0 <= sum <= limit,
            decreases n - i,
        {
            proof {
                lemma_qty_take_succ(self@, i as int, Seq::<char>::empty());
                assert(self@[i as int] == (self.cards@[i as int].0@, self.cards@[i as int].1 as int));
            }
            let amt = self.cards[i].1;
            if amt > limit - sum {
                proof {
                    lemma_qty_take(self@, i as int + 1, Seq::<char>::empty());
                }
                return true;
            }
            sum = sum + amt;
            i = i + 1;
        }
        proof {
            assert(self@.take(n as int) =~= self@);
        }
        false
    }

    /// Whether `held` covers the summed quantities of this specification.
    fn covers_summed(&self, held: &CardMap) -> (r: bool)
        requires
            self.wf(),
            held.wf(),
        ensures
            r == can_take(self@, held@),
    {
        let n = self.cards.len();
        let mut i: usize = 0;
        while i < n
            invariant
                self.wf(),
                held.wf(),
                n == self@.len(),
                i <= n,
                forall|j: int|
                    0 <= j < i ==> qty_of(self@, (#[trigger] self@[j]).0) <= qty_of(
                        held@,
                        self@[j].0,
                    ),
            decreases n - i,
        {
            proof {
                assert(self@[i as int] == (self.cards@[i as int].0@, self.cards@[i as int].1 as int));
            }
            let have = held.get(&self.cards[i].0);
            if self.requested_exceeds(&self.cards[i].0, have) {
                assert(qty_of(self@, self@[i as int].0) > qty_of(held@, self@[i as int].0));
                return false;
            }
            i = i + 1;
        }
        true
    }

    /// Whether the deck can absorb the summed quantities of this
    /// specification.
    fn fits_deck_summed(&self, deck: &Deck) -> (r: bool)
        requires
            self.wf(),
            deck.wf(),
        ensures
            r == can_add_to_deck(self@, deck.cards@),
    {
        proof {
            lemma_total_nonneg(deck.cards@);
        }
        let deck_sum = deck.cards.total();
        if self.total_exceeds(DECK_CAP - deck_sum) {
            return false;
        }
        let n = self.cards.len();
        let mut i: usize = 0;
        while i < n
            invariant
                self.wf(),
                deck.wf(),
                n == self@.len(),
                i <= n,
                total_of(deck.cards@) + total_of(self@) <= DECK_CAP as int,
                forall|j: int|
                    0 <= j < i ==> qty_of(deck.cards@, (#[trigger] self@[j]).0) + qty_of(
                        self@,
                        self@[j].0,
                    ) <= PER_CARD_CAP as int,
            decreases n - i,
        {
            proof {
                assert(self@[i as int] == (self.cards@[i as int].0@, self.cards@[i as int].1 as int));
                lemma_qty_bounded(deck.cards@, self@[i as int].0, PER_CARD_CAP as int);
            }
            let have = deck.cards.get(&self.cards[i].0);
            if self.requested_exceeds(&self.cards[i].0, PER_CARD_CAP - have) {
                assert(qty_of(deck.cards@, self@[i as int].0) + qty_of(self@, self@[i as int].0)
                    > PER_CARD_CAP as int);
                return false;
            }
            i = i + 1;
        }
        true
    }
}

/// The executor's addition step: move the requested quantities out of the
/// player's collection and into the deck, pair by pair in specification
/// order. The caller has already established that both aggregate checks
/// pass.
fn apply_addition(player: &mut Player, deck: &mut Deck, req: &DeckCards)
    requires
        old(player).wf(),
        old(deck).wf(),
        req.wf(),
        can_take(req@, old(player).cards@),
        can_add_to_deck(req@, old(deck).cards@),
    ensures
        final(player).wf(),
        final(deck).wf(),
        final(player).discord_id == old(player).discord_id,
        final(deck).discord_id == old(deck).discord_id,
        final(deck).name == old(deck).name,
        final(deck).display_card == old(deck).display_card,
        forall|k: Seq<char>|
            qty_of(final(player).cards@, k) == qty_of(old(player).cards@, k) - qty_of(req@, k),
        forall|k: Seq<char>|
            qty_of(final(deck).cards@, k) == qty_of(old(deck).cards@, k) + qty_of(req@, k),
        total_of(final(player).cards@) == total_of(old(player).cards@) - total_of(req@),
        total_of(final(deck).cards@) == total_of(old(deck).cards@) + total_of(req@),
{
    let ghost p0 = old(player).cards@;
    let ghost d0 = old(deck).cards@;
    let n = req.cards.len();
    let mut i: usize = 0;
    while i < n
        invariant
            player.wf(),
            deck.cards.wf(),
            req.wf(),
            can_take(req@, p0),
            can_add_to_deck(req@, d0),
            n == req@.len(),
            i <= n,
            player.discord_id == old(player).discord_id,
            deck.discord_id == old(deck).discord_id,
            deck.name == old(deck).name,
            deck.display_card == old(deck).display_card,
            forall|k: Seq<char>|
                qty_of(player.cards@, k) == qty_of(p0, k) - qty_of(req@.take(i as int), k),
            forall|k: Seq<char>|
                qty_of(deck.cards@, k) == qty_of(d0, k) + qty_of(req@.take(i as int), k),
            total_of(player.cards@) == total_of(p0) - total_of(req@.take(i as int)),
            total_of(deck.cards@) == total_of(d0) + total_of(req@.take(i as int)),
        decreases n - i,
    {
        let id = &req.cards[i].0;
        let amt = req.cards[i].1;
        proof {
            assert(req@[i as int] == (req.cards@[i as int].0@, req.cards@[i as int].1 as int));
            lemma_qty_take_succ(req@, i as int, id@);
            lemma_qty_take(req@, i as int + 1, id@);
            assert(qty_of(req@, req@[i as int].0) <= qty_of(p0, req@[i as int].0));
            assert(qty_of(player.cards@, id@) >= amt);
        }
        player.cards.sub_qty(id, amt);
        proof {
            assert(qty_of(d0, req@[i as int].0) + qty_of(req@, req@[i as int].0)
                <= PER_CARD_CAP as int);
            assert(qty_of(deck.cards@, id@) + amt <= PER_CARD_CAP as int);
        }
        deck.cards.add_qty(id, amt);
        proof {
            assert forall|k: Seq<char>|
                qty_of(player.cards@, k) == qty_of(p0, k) - qty_of(
                    req@.take(i as int + 1),
                    k,
                ) by {
                lemma_qty_take_succ(req@, i as int, k);
            }
            assert forall|k: Seq<char>|
                qty_of(deck.cards@, k) == qty_of(d0, k) + qty_of(req@.take(i as int + 1), k) by {
                lemma_qty_take_succ(req@, i as int, k);
            }
            lemma_qty_take_succ(req@, i as int, Seq::<char>::empty());
        }
        i = i + 1;
    }
    proof {
        assert(req@.take(n as int) =~= req@);
        assert forall|k: Seq<char>| qty_of(deck.cards@, k) <= PER_CARD_CAP as int by {
            if has_key(req@, k) {
                let j = choose|j: int| 0 <= j < req@.len() && req@[j].0 == k;
                assert(qty_of(d0, req@[j].0) + qty_of(req@, req@[j].0) <= PER_CARD_CAP as int);
            } else {
                lemma_qty_absent(req@, k);
                lemma_qty_bounded(d0, k, PER_CARD_CAP as int);
            }
        }
        lemma_at_most_from_qty(deck.cards@, PER_CARD_CAP as int);
        lemma_total_nonneg(req@);
    }
}

/// The executor's removal step: move the requested quantities out of the
/// deck and back into the player's collection, pair by pair in
/// specification order. The caller has already established that the deck
/// covers the summed request.
#[verifier::loop_isolation(false)]
fn apply_removal(player: &mut Player, deck: &mut Deck, req: &DeckCards)
    requires
        old(player).wf(),
        old(deck).wf(),
        req.wf(),
        can_take(req@, old(deck).cards@),
        total_of(old(player).cards@) + total_of(req@) <= i64::MAX,
    ensures
        final(player).wf(),
        final(deck).wf(),
        final(player).discord_id == old(player).discord_id,
        final(deck).discord_id == old(deck).discord_id,
        final(deck).name == old(deck).name,
        final(deck).display_card == old(deck).display_card,
        forall|k: Seq<char>|
            qty_of(final(player).cards@, k) == qty_of(old(player).cards@, k) + qty_of(req@, k),
        forall|k: Seq<char>|
            qty_of(final(deck).cards@, k) == qty_of(old(deck).cards@, k) - qty_of(req@, k),
        total_of(final(player).cards@) == total_of(old(player).cards@) + total_of(req@),
        total_of(final(deck).cards@) == total_of(old(deck).cards@) - total_of(req@),
{
    let ghost p0 = old(player).cards@;
    let ghost d0 = old(deck).cards@;
    let n = req.cards.len();
    let mut i: usize = 0;
    while i < n
        invariant
            player.wf(),
            deck.cards.wf(),
            req.wf(),
            can_take(req@, d0),
            total_of(p0) + total_of(req@) <= i64::MAX,
            n == req@.len(),
            i <= n,
            player.discord_id == old(player).discord_id,
            deck.discord_id == old(deck).discord_id,
            deck.name == old(deck).name,
            deck.display_card == old(deck).display_card,
            forall|k: Seq<char>|
                qty_of(player.cards@, k) == qty_of(p0, k) + qty_of(req@.take(i as int), k),
            forall|k: Seq<char>|
                qty_of(deck.cards@, k) == qty_of(d0, k) - qty_of(req@.take(i as int), k),
            total_of(player.cards@) == total_of(p0) + total_of(req@.take(i as int)),
            total_of(deck.cards@) == total_of(d0) - total_of(req@.take(i as int)),
        decreases n - i,
    {
        let id = &req.cards[i].0;
        let amt = req.cards[i].1;
        proof {
            assert(req@[i as int] == (req.cards@[i as int].0@, req.cards@[i as int].1 as int));
            lemma_qty_take_succ(req@, i as int, id@);
            lemma_qty_take(req@, i as int + 1, id@);
            assert(qty_of(req@, req@[i as int].0) <= qty_of(d0, req@[i as int].0));
            assert(qty_of(deck.cards@, id@) >= amt);
            // the new player quantity still fits in an i64
            lemma_qty_le_total(player.cards@, id@);
            lemma_qty_take(req@, i as int + 1, Seq::<char>::empty());
            lemma_qty_take_succ(req@, i as int, Seq::<char>::empty());
            lemma_total_nonneg(p0);
            assert(qty_of(player.cards@, id@) + amt <= i64::MAX);
        }
        deck.cards.sub_qty(id, amt);
        player.cards.add_qty(id, amt);
        proof {
            assert forall|k: Seq<char>|
                qty_of(player.cards@, k) == qty_of(p0, k) + qty_of(
                    req@.take(i as int + 1),
                    k,
                ) by {
                lemma_qty_take_succ(req@, i as int, k);
            }
            assert forall|k: Seq<char>|
                qty_of(deck.cards@, k) == qty_of(d0, k) - qty_of(req@.take(i as int + 1), k) by {
                lemma_qty_take_succ(req@, i as int, k);
            }
            lemma_qty_take_succ(req@, i as int, Seq::<char>::empty());
        }
        i = i + 1;
    }
    proof {
        assert(req@.take(n as int) =~= req@);
        assert forall|k: Seq<char>| qty_of(deck.cards@, k) <= PER_CARD_CAP as int by {
            lemma_qty_bounded(d0, k, PER_CARD_CAP as int);
            lemma_qty_nonneg(req@, k);
        }
        lemma_at_most_from_qty(deck.cards@, PER_CARD_CAP as int);
        lemma_total_nonneg(req@);
    }
}

/// Command-level addition: validate the specification against the player's
/// collection and the deck's composition rules on *summed* quantities, and
/// only if both pass move the cards from the player into the deck. A refused
/// addition leaves both records untouched; nothing is ever partially
/// applied.
pub fn add_to_deck(player: &mut Player, deck: &mut Deck, req: &DeckCards) -> (r: Result<
    (),
    DeckError,
>)
    requires
        old(player).wf(),
        old(deck).wf(),
        req.wf(),
    ensures
        final(player).wf(),
        final(deck).wf(),
        final(player).discord_id == old(player).discord_id,
        final(deck).discord_id == old(deck).discord_id,
        final(deck).name == old(deck).name,
        final(deck).display_card == old(deck).display_card,
        r is Ok <==> can_take(req@, old(player).cards@) && can_add_to_deck(
            req@,
            old(deck).cards@,
        ),
        r == Result::<(), DeckError>::Err(DeckError::InsufficientOwnership) <==> !can_take(
            req@,
            old(player).cards@,
        ),
        r == Result::<(), DeckError>::Err(DeckError::InvalidComposition) <==> can_take(
            req@,
            old(player).cards@,
        ) && !can_add_to_deck(req@, old(deck).cards@),
        r is Err ==> *final(player) == *old(player) && *final(deck) == *old(deck),
        r is Ok ==> forall|k: Seq<char>|
            qty_of(final(player).cards@, k) == qty_of(old(player).cards@, k) - qty_of(req@, k),
        r is Ok ==> forall|k: Seq<char>|
            qty_of(final(deck).cards@, k) == qty_of(old(deck).cards@, k) + qty_of(req@, k),
        r is Ok ==> total_of(final(player).cards@) == total_of(old(player).cards@) - total_of(
            req@,
        ),
        r is Ok ==> total_of(final(deck).cards@) == total_of(old(deck).cards@) + total_of(req@),
{
    if !req.covers_summed(&player.cards) {
        return Err(DeckError::InsufficientOwnership);
    }
    if !req.fits_deck_summed(deck) {
        return Err(DeckError::InvalidComposition);
    }
    apply_addition(player, deck, req);
    Ok(())
}

/// Command-level removal: validate that the deck covers the summed request
/// and, if it does, move the cards back into the player's collection. A
/// refused removal leaves both records untouched.
pub fn remove_from_deck(player: &mut Player, deck: &mut Deck, req: &DeckCards) -> (r: Result<
    (),
    DeckError,
>)
    requires
        old(player).wf(),
        old(deck).wf(),
        req.wf(),
        total_of(old(player).cards@) + total_of(req@) <= i64::MAX,
    ensures
        final(player).wf(),
        final(deck).wf(),
        final(player).discord_id == old(player).discord_id,
        final(deck).discord_id == old(deck).discord_id,
        final(deck).name == old(deck).name,
        final(deck).display_card == old(deck).display_card,
        r is Ok <==> can_take(req@, old(deck).cards@),
        r == Result::<(), DeckError>::Err(DeckError::InsufficientOwnership) <==> !can_take(
            req@,
            old(deck).cards@,
        ),
        r is Err ==> *final(player) == *old(player) && *final(deck) == *old(deck),
        r is Ok ==> forall|k: Seq<char>|
            qty_of(final(player).cards@, k) == qty_of(old(player).cards@, k) + qty_of(req@, k),
        r is Ok ==> forall|k: Seq<char>|
            qty_of(final(deck).cards@, k) == qty_of(old(deck).cards@, k) - qty_of(req@, k),
        r is Ok ==> total_of(final(player).cards@) == total_of(old(player).cards@) + total_of(
            req@,
        ),
        r is Ok ==> total_of(final(deck).cards@) == total_of(old(deck).cards@) - total_of(req@),
{
    if !req.covers_summed(&deck.cards) {
        return Err(DeckError::InsufficientOwnership);
    }
    apply_removal(player, deck, req);
    Ok(())
}

/// The computational step of deck deletion: return every card of the deck
/// to its owner, leaving the deck empty. The player's total grows by
/// exactly the deck's former total.
#[verifier::loop_isolation(false)]
pub fn reclaim_deck(player: &mut Player, deck: &mut Deck)
    requires
        old(player).wf(),
        old(deck).wf(),
        total_of(old(player).cards@) + total_of(old(deck).cards@) <= i64::MAX,
    ensures
        final(player).wf(),
        final(deck).wf(),
        final(player).discord_id == old(player).discord_id,
        final(deck).discord_id == old(deck).discord_id,
        final(deck).name == old(deck).name,
        final(deck).display_card == old(deck).display_card,
        forall|k: Seq<char>|
            qty_of(final(player).cards@, k) == qty_of(old(player).cards@, k) + qty_of(
                old(deck).cards@,
                k,
            ),
        total_of(final(player).cards@) == total_of(old(player).cards@) + total_of(
            old(deck).cards@,
        ),
        final(deck).cards@.len() == 0,
        total_of(final(deck).cards@) == 0,
{
    let ghost p0 = old(player).cards@;
    let ghost d0 = old(deck).cards@;
    proof {
        lemma_total_nonneg(d0);
        lemma_total_nonneg(p0);
        assert forall|k: Seq<char>| 0 <= #[trigger] qty_of(d0, k) by {
            lemma_qty_nonneg(d0, k);
        }
    }
    while deck.cards.len() > 0
        invariant
            player.wf(),
            deck.cards.wf(),
            crate::cards::quantities_at_most(deck.cards@, PER_CARD_CAP as int),
            player.discord_id == old(player).discord_id,
            deck.discord_id == old(deck).discord_id,
            deck.name == old(deck).name,
            deck.display_card == old(deck).display_card,
            total_of(p0) + total_of(d0) <= i64::MAX,
            forall|k: Seq<char>|
                qty_of(player.cards@, k) == qty_of(p0, k) + (qty_of(d0, k) - qty_of(
                    deck.cards@,
                    k,
                )),
            forall|k: Seq<char>| 0 <= #[trigger] qty_of(deck.cards@, k) <= qty_of(d0, k),
            total_of(player.cards@) == total_of(p0) + (total_of(d0) - total_of(deck.cards@)),
            0 <= total_of(deck.cards@) <= total_of(d0),
        decreases total_of(deck.cards@),
    {
        let ghost dpre = deck.cards@;
        let id = deck.cards.pairs()[0].0.clone();
        let amt = deck.cards.pairs()[0].1;
        proof {
            assert(dpre[0] == (id@, amt as int));
            lemma_qty_at(dpre, id@, 0);
            assert(qty_of(dpre, id@) == amt as int);
            assert(amt >= 1);
            // the new player quantity still fits in an i64
            lemma_qty_le_total(player.cards@, id@);
            lemma_qty_le_total(dpre, id@);
        }
        player.cards.add_qty(&id, amt);
        deck.cards.sub_qty(&id, amt);
        proof {
            assert forall|k: Seq<char>| 0 <= #[trigger] qty_of(deck.cards@, k) <= qty_of(d0, k) by {
                lemma_qty_nonneg(deck.cards@, k);
            }
            assert forall|k: Seq<char>| #[trigger] qty_of(deck.cards@, k)
                <= PER_CARD_CAP as int by {
                lemma_qty_bounded(d0, k, PER_CARD_CAP as int);
            }
            lemma_at_most_from_qty(deck.cards@, PER_CARD_CAP as int);
            lemma_total_nonneg(deck.cards@);
        }
    }
    proof {
        assert(deck.cards@.len() == 0);
        assert(total_of(deck.cards@) == 0);
        assert forall|k: Seq<char>| qty_of(deck.cards@, k) == 0 by {
            lemma_qty_absent(deck.cards@, k);
        }
    }
}

/// What `str::to_lowercase` returns for the characters of its argument.
pub uninterp spec fn lower_of(s: Seq<char>) -> Seq<char>;

/// Relies on str::to_lowercase: the result is the Unicode lowercase mapping
/// of the text and depends on its characters alone.
#[verifier::external_body]
fn lowercase(s: &str) -> (r: String)
    ensures
        r@ == lower_of(s@),
{
    s.to_lowercase()
}

/// Deck creation: the caller reports whether the player already has a deck
/// under the same case-normalized name; if not, a new empty deck is created
/// under the lowercased name.
pub fn create_deck(discord_id: i64, name: &str, name_taken: bool) -> (r: Result<Deck, DeckError>)
    ensures
        name_taken <==> r == Result::<Deck, DeckError>::Err(DeckError::DuplicateName),
        !name_taken ==> r is Ok && (r matches Ok(d) ==> d.wf() && d.discord_id == discord_id
            && d.name@ == lower_of(name@) && d.cards@.len() == 0 && total_of(d.cards@) == 0),
{
    if name_taken {
        return Err(DeckError::DuplicateName);
    }
    let normalized = lowercase(name);
    Ok(Deck::empty(discord_id, normalized))
}

} // verus!
