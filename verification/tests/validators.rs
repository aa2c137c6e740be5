use poketcg::decks::{Deck, DeckCards};
use poketcg::player::Player;

fn player_with(cards: &[(&str, i64)]) -> Player {
    let mut p = Player::new(1);
    for (id, q) in cards {
        p.cards.add_qty(&id.to_string(), *q);
    }
    p
}

fn deck_with(cards: &[(&str, i64)]) -> Deck {
    let mut d = Deck::empty(1, "main".to_string());
    for (id, q) in cards {
        d.cards.add_qty(&id.to_string(), *q);
    }
    d
}

#[test]
fn player_has_all_accepts_covered_spec() {
    let p = player_with(&[("a", 5), ("b", 1)]);
    let dc = DeckCards::from_card_str("a:3/b:1");
    assert!(dc.player_has_all(&p));
}

#[test]
fn player_has_all_rejects_one_uncovered_pair() {
    // the other pair is satisfiable; one shortfall rejects the whole spec
    let p = player_with(&[("a", 5), ("b", 1)]);
    let dc = DeckCards::from_card_str("a:3/b:2");
    assert!(!dc.player_has_all(&p));
}

#[test]
fn player_has_all_treats_absent_as_zero() {
    let p = player_with(&[("a", 5)]);
    let dc = DeckCards::from_card_str("c");
    assert!(!dc.player_has_all(&p));
}

#[test]
fn deck_has_all_rejects_one_uncovered_pair() {
    let d = deck_with(&[("a", 2), ("b", 1)]);
    let dc = DeckCards::from_card_str("a:2/b:2");
    assert!(!dc.deck_has_all(&d));
}

#[test]
fn deck_has_all_accepts_covered_spec() {
    let d = deck_with(&[("a", 2), ("b", 1)]);
    let dc = DeckCards::from_card_str("a:2/b:1");
    assert!(dc.deck_has_all(&d));
}

#[test]
fn addition_rejected_over_sixty_cap() {
    // 58 cards in the deck, 3 requested: 61 > 60
    let names: Vec<String> = (0..15).map(|i| format!("c{}", i)).collect();
    let mut d = Deck::empty(1, "big".to_string());
    for (i, n) in names.iter().enumerate() {
        d.cards.add_qty(n, if i == 14 { 2 } else { 4 });
    }
    assert_eq!(d.cards.total(), 58);
    let dc = DeckCards::from_card_str("fresh:3");
    assert!(!dc.is_valid_addition(&d));
    let ok = DeckCards::from_card_str("fresh:2");
    assert!(ok.is_valid_addition(&d));
}

#[test]
fn addition_rejected_over_per_card_cap() {
    let d = deck_with(&[("a", 4)]);
    let dc = DeckCards::from_card_str("a:1");
    assert!(!dc.is_valid_addition(&d));
}

#[test]
fn addition_accepted_within_both_caps() {
    let d = deck_with(&[("a", 2)]);
    let dc = DeckCards::from_card_str("a:2/b:4");
    assert!(dc.is_valid_addition(&d));
}

#[test]
fn deck_is_valid_only_at_sixty() {
    let mut d = Deck::empty(1, "main".to_string());
    for i in 0..15 {
        d.cards.add_qty(&format!("c{}", i), 4);
    }
    assert_eq!(d.cards.total(), 60);
    assert!(d.is_valid());
    let partial = deck_with(&[("a", 4)]);
    assert!(!partial.is_valid());
}
