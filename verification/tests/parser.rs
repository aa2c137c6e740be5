use poketcg::decks::DeckCards;

fn pairs(dc: &DeckCards) -> Vec<(String, i64)> {
    dc.cards.clone()
}

#[test]
fn single_id_defaults_to_one() {
    let dc = DeckCards::from_card_str("base1-4");
    assert_eq!(pairs(&dc), vec![("base1-4".to_string(), 1)]);
}

#[test]
fn explicit_quantity_kept() {
    let dc = DeckCards::from_card_str("base1-4:3");
    assert_eq!(pairs(&dc), vec![("base1-4".to_string(), 3)]);
}

#[test]
fn over_large_quantity_clamped_to_four() {
    let dc = DeckCards::from_card_str("base1-4:9");
    assert_eq!(pairs(&dc), vec![("base1-4".to_string(), 4)]);
}

#[test]
fn zero_and_negative_quantities_clamped_to_one() {
    let dc = DeckCards::from_card_str("a:0/b:-7");
    assert_eq!(pairs(&dc), vec![("a".to_string(), 1), ("b".to_string(), 1)]);
}

#[test]
fn unparsable_quantity_defaults_to_one() {
    let dc = DeckCards::from_card_str("a:lots/b:/c:4x");
    assert_eq!(
        pairs(&dc),
        vec![("a".to_string(), 1), ("b".to_string(), 1), ("c".to_string(), 1)]
    );
}

#[test]
fn out_of_range_quantity_defaults_to_one() {
    // too long for a signed 64-bit integer: unparsable, not clamped
    let dc = DeckCards::from_card_str("a:99999999999999999999");
    assert_eq!(pairs(&dc), vec![("a".to_string(), 1)]);
}

#[test]
fn huge_in_range_quantity_clamped_to_four() {
    let dc = DeckCards::from_card_str("a:9223372036854775807");
    assert_eq!(pairs(&dc), vec![("a".to_string(), 4)]);
}

#[test]
fn plus_sign_accepted() {
    let dc = DeckCards::from_card_str("a:+2");
    assert_eq!(pairs(&dc), vec![("a".to_string(), 2)]);
}

#[test]
fn several_segments_in_order() {
    let dc = DeckCards::from_card_str("a:2/b/c:4");
    assert_eq!(
        pairs(&dc),
        vec![("a".to_string(), 2), ("b".to_string(), 1), ("c".to_string(), 4)]
    );
}

#[test]
fn duplicates_pass_through_unmerged() {
    let dc = DeckCards::from_card_str("a:2/a:2");
    assert_eq!(pairs(&dc), vec![("a".to_string(), 2), ("a".to_string(), 2)]);
}

#[test]
fn extra_colon_text_ignored() {
    let dc = DeckCards::from_card_str("a:2:9");
    assert_eq!(pairs(&dc), vec![("a".to_string(), 2)]);
}

#[test]
fn empty_string_is_one_empty_segment() {
    let dc = DeckCards::from_card_str("");
    assert_eq!(pairs(&dc), vec![("".to_string(), 1)]);
}

#[test]
fn empty_segments_kept() {
    let dc = DeckCards::from_card_str("a//b");
    assert_eq!(
        pairs(&dc),
        vec![("a".to_string(), 1), ("".to_string(), 1), ("b".to_string(), 1)]
    );
}

#[test]
fn all_quantities_clamped_into_range() {
    let dc = DeckCards::from_card_str("a:-3/b:0/c:1/d:4/e:5/f:100/g");
    for (_, q) in pairs(&dc) {
        assert!((1..=4).contains(&q));
    }
}
