use poketcg::decks::{Deck, DeckCards};
use poketcg::player::Player;
use poketcg::transfer::{add_to_deck, create_deck, reclaim_deck, remove_from_deck, DeckError};

fn player_with(cards: &[(&str, i64)]) -> Player {
    let mut p = Player::new(7);
    for (id, q) in cards {
        p.cards.add_qty(&id.to_string(), *q);
    }
    p
}

fn deck_with(cards: &[(&str, i64)]) -> Deck {
    let mut d = Deck::empty(7, "main".to_string());
    for (id, q) in cards {
        d.cards.add_qty(&id.to_string(), *q);
    }
    d
}

fn qty(map: &poketcg::cards::CardMap, id: &str) -> i64 {
    map.get(&id.to_string())
}

#[test]
fn addition_moves_cards_between_records() {
    // player owns {"A":5}; adding "A:3" to an empty deck
    let mut p = player_with(&[("A", 5)]);
    let mut d = Deck::empty(7, "main".to_string());
    let dc = DeckCards::from_card_str("A:3");
    assert_eq!(add_to_deck(&mut p, &mut d, &dc), Ok(()));
    assert_eq!(qty(&d.cards, "A"), 3);
    assert_eq!(qty(&p.cards, "A"), 2);
    assert_eq!(d.cards.total(), 3);
    assert_eq!(p.cards.total(), 2);
}

#[test]
fn addition_rejected_on_per_card_cap_without_mutation() {
    // deck already holds four copies of "A"
    let mut p = player_with(&[("A", 5)]);
    let mut d = deck_with(&[("A", 4)]);
    let dc = DeckCards::from_card_str("A:1");
    assert_eq!(
        add_to_deck(&mut p, &mut d, &dc),
        Err(DeckError::InvalidComposition)
    );
    assert_eq!(qty(&d.cards, "A"), 4);
    assert_eq!(qty(&p.cards, "A"), 5);
}

#[test]
fn addition_rejected_on_sixty_cap_without_mutation() {
    // deck total 58; three more would overflow the cap
    let mut p = player_with(&[("B", 4)]);
    let mut d = Deck::empty(7, "big".to_string());
    for i in 0..14 {
        d.cards.add_qty(&format!("c{}", i), 4);
    }
    d.cards.add_qty(&"c14".to_string(), 2);
    assert_eq!(d.cards.total(), 58);
    let dc = DeckCards::from_card_str("B:3");
    assert_eq!(
        add_to_deck(&mut p, &mut d, &dc),
        Err(DeckError::InvalidComposition)
    );
    assert_eq!(d.cards.total(), 58);
    assert_eq!(qty(&p.cards, "B"), 4);
    assert_eq!(qty(&d.cards, "B"), 0);
}

#[test]
fn addition_rejected_on_ownership_without_mutation() {
    // player owns two copies but asks to move three
    let mut p = player_with(&[("A", 2)]);
    let mut d = Deck::empty(7, "main".to_string());
    let dc = DeckCards::from_card_str("A:3");
    assert_eq!(
        add_to_deck(&mut p, &mut d, &dc),
        Err(DeckError::InsufficientOwnership)
    );
    assert_eq!(qty(&p.cards, "A"), 2);
    assert_eq!(qty(&d.cards, "A"), 0);
    assert_eq!(d.cards.total(), 0);
}

#[test]
fn removal_returns_cards_to_player() {
    // deck {"A":2,"B":1}; removing "A:2" leaves {"B":1}
    let mut p = player_with(&[("A", 1)]);
    let mut d = deck_with(&[("A", 2), ("B", 1)]);
    let dc = DeckCards::from_card_str("A:2");
    assert_eq!(remove_from_deck(&mut p, &mut d, &dc), Ok(()));
    assert_eq!(qty(&d.cards, "A"), 0);
    assert_eq!(qty(&d.cards, "B"), 1);
    assert_eq!(d.cards.total(), 1);
    assert_eq!(qty(&p.cards, "A"), 3);
}

#[test]
fn removal_rejected_when_deck_lacks_cards() {
    let mut p = player_with(&[]);
    let mut d = deck_with(&[("A", 1)]);
    let dc = DeckCards::from_card_str("A:2");
    assert_eq!(
        remove_from_deck(&mut p, &mut d, &dc),
        Err(DeckError::InsufficientOwnership)
    );
    assert_eq!(qty(&d.cards, "A"), 1);
    assert_eq!(p.cards.total(), 0);
}

#[test]
fn duplicate_pairs_are_summed_for_validation() {
    // each pair alone passes the pair-wise checks, but their sum does not:
    // the executor judges the summed quantities and refuses, so no entry can
    // ever be driven negative
    let mut p = player_with(&[("A", 6)]);
    let mut d = Deck::empty(7, "main".to_string());
    let dc = DeckCards::from_card_str("A:3/A:3");
    assert!(dc.player_has_all(&p));
    assert!(dc.is_valid_addition(&d));
    assert_eq!(
        add_to_deck(&mut p, &mut d, &dc),
        Err(DeckError::InvalidComposition)
    );
    assert_eq!(qty(&p.cards, "A"), 6);

    let mut p2 = player_with(&[("A", 3)]);
    let dc2 = DeckCards::from_card_str("A:2/A:2");
    assert!(dc2.player_has_all(&p2));
    let mut d2 = Deck::empty(7, "main".to_string());
    assert_eq!(
        add_to_deck(&mut p2, &mut d2, &dc2),
        Err(DeckError::InsufficientOwnership)
    );
    assert_eq!(qty(&p2.cards, "A"), 3);
}

#[test]
fn duplicate_pairs_applied_when_sums_fit() {
    let mut p = player_with(&[("A", 5)]);
    let mut d = Deck::empty(7, "main".to_string());
    let dc = DeckCards::from_card_str("A:2/A:2");
    assert_eq!(add_to_deck(&mut p, &mut d, &dc), Ok(()));
    assert_eq!(qty(&d.cards, "A"), 4);
    assert_eq!(qty(&p.cards, "A"), 1);
}

#[test]
fn transfers_never_leave_zero_entries() {
    // moving a player's whole holding of a card removes its entry
    let mut p = player_with(&[("A", 3), ("B", 2)]);
    let mut d = Deck::empty(7, "main".to_string());
    let dc = DeckCards::from_card_str("A:3");
    assert_eq!(add_to_deck(&mut p, &mut d, &dc), Ok(()));
    assert_eq!(p.cards.len(), 1);
    for (_, q) in p.cards.pairs() {
        assert!(*q >= 1);
    }
    for (_, q) in d.cards.pairs() {
        assert!(*q >= 1);
    }
    // and removing a deck's whole holding removes its entry too
    let dc2 = DeckCards::from_card_str("A:3");
    assert_eq!(remove_from_deck(&mut p, &mut d, &dc2), Ok(()));
    assert_eq!(d.cards.len(), 0);
    for (_, q) in p.cards.pairs() {
        assert!(*q >= 1);
    }
}

#[test]
fn reclaim_returns_whole_deck_to_player() {
    let mut p = player_with(&[("A", 1), ("C", 2)]);
    let mut d = deck_with(&[("A", 2), ("B", 1)]);
    let before = p.cards.total();
    let deck_sum = d.cards.total();
    reclaim_deck(&mut p, &mut d);
    assert_eq!(p.cards.total(), before + deck_sum);
    assert_eq!(d.cards.total(), 0);
    assert_eq!(d.cards.len(), 0);
    assert_eq!(qty(&p.cards, "A"), 3);
    assert_eq!(qty(&p.cards, "B"), 1);
    assert_eq!(qty(&p.cards, "C"), 2);
}

#[test]
fn reclaim_of_empty_deck_changes_nothing() {
    let mut p = player_with(&[("A", 1)]);
    let mut d = Deck::empty(7, "main".to_string());
    reclaim_deck(&mut p, &mut d);
    assert_eq!(p.cards.total(), 1);
    assert_eq!(d.cards.len(), 0);
}

#[test]
fn create_deck_rejects_taken_name() {
    let r = create_deck(7, "main", true);
    assert!(matches!(r, Err(DeckError::DuplicateName)));
}

#[test]
fn create_deck_normalizes_name() {
    let d = create_deck(7, "My Deck", false).unwrap();
    assert_eq!(d.name, "my deck");
    assert_eq!(d.discord_id, 7);
    assert_eq!(d.cards.len(), 0);
    assert_eq!(d.cards.total(), 0);
}
