//! Decks and card specifications, with the ownership and composition
//! validators that guard every transfer.

use crate::cards::{
    qty_of, quantities_at_least, quantities_at_most, total_of, CardMap,
};
use crate::parse::{
    find_char, lemma_parse_cards_last, lemma_parse_cards_step, parse_pair, parse_segment,
    spec_parse_cards,
};
use crate::player::Player;
use vstd::prelude::*;

verus! {

/// The largest number of copies of one card a deck may hold.
pub const PER_CARD_CAP: i64 = 4;

/// The number of cards a complete deck holds, and the most it may ever hold.
pub const DECK_CAP: i64 = 60;

/// A named, per-player deck. Entries of `cards` map a card identifier to the
/// quantity included, between one and four; the quantities sum to at most
/// sixty.
pub struct Deck {
    pub discord_id: i64,
    pub name: String,
    pub cards: CardMap,
    pub display_card: String,
}

impl Deck {
    pub open spec fn wf(&self) -> bool {
        self.cards.wf() && quantities_at_most(self.cards@, PER_CARD_CAP as int) && total_of(
            self.cards@,
        ) <= DECK_CAP as int
    }

    /// A new deck with no cards in it.
    pub fn empty(discord_id: i64, name: String) -> (d: Deck)
        ensures
            d.wf(),
            d.discord_id == discord_id,
            d.name == name,
            d.cards@.len() == 0,
            total_of(d.cards@) == 0,
            d.display_card@.len() == 0,
    {
        Deck { discord_id, name, cards: CardMap::new(), display_card: String::new() }
    }

    /// A deck is complete exactly when its quantities sum to sixty.
    pub fn is_valid(&self) -> (r: bool)
        requires
            self.wf(),
        ensures
            r == (total_of(self.cards@) == DECK_CAP as int),
    {
        self.cards.total() == DECK_CAP
    }
}

/// Every requested pair is covered by the held quantities: for each pair,
/// the quantity recorded in `held` for its identifier is at least the
/// requested quantity. Pairs are judged one by one; duplicates are not
/// summed here.
pub open spec fn spec_has_all(req: Seq<(Seq<char>, int)>, held: Seq<(Seq<char>, int)>) -> bool {
    forall|i: int| 0 <= i < req.len() ==> req[i].1 <= qty_of(held, req[i].0)
}

/// The composition rules admit the requested addition: the requested
/// quantities plus the deck's current total stay within the sixty-card cap,
/// and no single pair pushes its card past four copies.
pub open spec fn spec_is_valid_addition(
    req: Seq<(Seq<char>, int)>,
    deck: Seq<(Seq<char>, int)>,
) -> bool {
    total_of(deck) + total_of(req) <= DECK_CAP as int && forall|i: int|
        0 <= i < req.len() ==> qty_of(deck, req[i].0) + req[i].1 <= PER_CARD_CAP as int
}

/// A parsed card specification: an ordered list of (identifier, quantity)
/// pairs. The same identifier may occur in several pairs; the parser does
/// not merge duplicates.
pub struct DeckCards {
    pub cards: Vec<(String, i64)>,
}

/// The mathematical reading of a vector of (identifier, quantity) pairs.
pub open spec fn pairs_view(v: Seq<(String, i64)>) -> Seq<(Seq<char>, int)> {
    Seq::new(v.len(), |i: int| (v[i].0@, v[i].1 as int))
}

impl View for DeckCards {
    type V = Seq<(Seq<char>, int)>;

    open spec fn view(&self) -> Seq<(Seq<char>, int)> {
        pairs_view(self.cards@)
    }
}

impl DeckCards {
    /// Parse a raw card-list string of the shape `id[:qty]/id[:qty]/...`.
    /// Quantities default to one and are clamped into `[1, 4]`; duplicate
    /// identifiers pass through as separate pairs.
    pub fn from_card_str(card_str: &str) -> (r: DeckCards)
        ensures
            r@ == spec_parse_cards(card_str@),
            r.wf(),
    {
        let n = card_str.unicode_len();
        let mut pairs: Vec<(String, i64)> = Vec::new();
        let mut start: usize = 0;
        proof {
            assert(card_str@.skip(0) =~= card_str@);
            assert(pairs_view(pairs@) + spec_parse_cards(card_str@) =~= spec_parse_cards(
                card_str@,
            ));
        }
        loop
            invariant
                start <= n == card_str@.len(),
                spec_parse_cards(card_str@) == pairs_view(pairs@) + spec_parse_cards(
                    card_str@.skip(start as int),
                ),
                forall|i: int| 0 <= i < pairs@.len() ==> 1 <= (#[trigger] pairs@[i]).1 <= 4,
            decreases n - start,
        {
            let ghost suffix = card_str@.skip(start as int);
            proof {
                assert(forall|j: int| 0 <= j < suffix.len() ==> suffix[j] == card_str@[j + start]);
            }
            match find_char(card_str, start, '/') {
                Some(m) => {
                    let seg = card_str.substring_char(start, m);
                    let pr = parse_segment(seg);
                    proof {
                        lemma_parse_cards_step(suffix, m - start);
                        assert(suffix.take(m - start) =~= seg@);
                        assert(suffix.skip(m - start + 1) =~= card_str@.skip(m as int + 1));
                        let pv0 = pairs_view(pairs@);
                        let one = seq![parse_pair(seg@)];
                        let rest = spec_parse_cards(card_str@.skip(m as int + 1));
                        assert(pairs_view(pairs@.push(pr)) =~= pv0 + one);
                        assert(pv0 + (one + rest) =~= (pv0 + one) + rest);
                    }
                    pairs.push(pr);
                    start = m + 1;
                },
                None => {
                    let seg = card_str.substring_char(start, n);
                    let pr = parse_segment(seg);
                    proof {
                        lemma_parse_cards_last(suffix);
                        assert(suffix =~= seg@);
                        let pv0 = pairs_view(pairs@);
                        assert(pairs_view(pairs@.push(pr)) =~= pv0 + seq![parse_pair(seg@)]);
                    }
                    pairs.push(pr);
                    let r = DeckCards { cards: pairs };
                    assert(r@ =~= spec_parse_cards(card_str@));
                    return r;
                },
            }
        }
    }
    /// Every quantity a specification carries lies in the closed range
    /// `[1, 4]`.
    pub open spec fn wf(&self) -> bool {
        quantities_at_least(self@, 1) && quantities_at_most(self@, PER_CARD_CAP as int)
    }

    /// Ownership validator: does the player hold every pair's requested
    /// quantity?
    pub fn player_has_all(&self, player: &Player) -> (r: bool)
        requires
            player.wf(),
        ensures
            r == spec_has_all(self@, player.cards@),
    {
        self.held_covers(&player.cards)
    }

    /// Deck-ownership check: does the deck hold every pair's requested
    /// quantity?
    pub fn deck_has_all(&self, deck: &Deck) -> (r: bool)
        requires
            deck.wf(),
        ensures
            r == spec_has_all(self@, deck.cards@),
    {
        self.held_covers(&deck.cards)
    }

    fn held_covers(&self, held: &CardMap) -> (r: bool)
        requires
            held.wf(),
        ensures
            r == spec_has_all(self@, held@),
    {
        let n = self.cards.len();
        let mut i: usize = 0;
        while i < n
            invariant
                held.wf(),
                n == self@.len(),
                i <= n,
                forall|j: int| 0 <= j < i ==> self@[j].1 <= qty_of(held@, self@[j].0),
            decreases n - i,
        {
            let have = held.get(&self.cards[i].0);
            if have < self.cards[i].1 {
                assert(!(self@[i as int].1 <= qty_of(held@, self@[i as int].0)));
                return false;
            }
            i = i + 1;
        }
        true
    }

    /// Composition validator: may these pairs be added to the deck without
    /// breaking the sixty-card cap or the four-per-card cap?
    pub fn is_valid_addition(&self, deck: &Deck) -> (r: bool)
        requires
            self.wf(),
            deck.wf(),
        ensures
            r == spec_is_valid_addition(self@, deck.cards@),
    {
        proof {
            crate::cards::lemma_total_nonneg(deck.cards@);
        }
        let deck_sum = deck.cards.total();
        let n = self.cards.len();
        let mut sum: i64 = 0;
        let mut i: usize = 0;
        while i < n
            invariant
                self.wf(),
                deck.wf(),
                0 <= deck_sum == total_of(deck.cards@) <= DECK_CAP as int,
                n == self@.len(),
                i <= n,
                sum == total_of(self@.take(i as int)),
                deck_sum + sum <= DECK_CAP,
            decreases n - i,
        {
            proof {
                crate::cards::lemma_qty_take_succ(self@, i as int, Seq::<char>::empty());
            }
            sum = sum + self.cards[i].1;
            if sum > DECK_CAP - deck_sum {
                proof {
                    crate::cards::lemma_qty_take(self@, i as int + 1, Seq::<char>::empty());
                }
                return false;
            }
            i = i + 1;
        }
        proof {
            assert(self@.take(n as int) =~= self@);
        }
        let mut i: usize = 0;
        while i < n
            invariant
                self.wf(),
                deck.wf(),
                n == self@.len(),
                i <= n,
                total_of(deck.cards@) + total_of(self@) <= DECK_CAP as int,
                forall|j: int|
                    0 <= j < i ==> qty_of(deck.cards@, self@[j].0) + self@[j].1 <= PER_CARD_CAP as int,
            decreases n - i,
        {
            let have = deck.cards.get(&self.cards[i].0);
            assert(1 <= self.cards@[i as int].1 <= PER_CARD_CAP as int) by {
                assert(self@[i as int].1 == self.cards@[i as int].1 as int);
            }
            if have > PER_CARD_CAP - self.cards[i].1 {
                assert(!(qty_of(deck.cards@, self@[i as int].0) + self@[i as int].1
                    <= PER_CARD_CAP as int));
                return false;
            }
            i = i + 1;
        }
        true
    }
}

} // verus!
