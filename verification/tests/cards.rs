use fellestrekk::card::{Card, Deck, Rank, Suit};

#[test]
fn card_id_round_trip() {
    for id in 0..52u8 {
        let c = Card::from_u8(id);
        assert_eq!(c.into_u8(), id);
        let (s, r) = c.suit_rank();
        assert_eq!(Card::new((s, r)).into_u8(), id);
    }
}

#[test]
fn card_new_spades_king() {
    let c = Card::new((Suit::Spades, Rank::King));
    assert_eq!(c.into_u8(), 2 * 13 + 12);
    let (s, r) = c.suit_rank();
    assert_eq!(s, Suit::Spades);
    assert_eq!(r, Rank::King);
}

#[test]
fn card_ace_of_clubs_is_zero() {
    let c = Card::new((Suit::Clubs, Rank::Ace));
    assert_eq!(c.into_u8(), 0);
}

#[test]
fn standard_deck_has_52_cards() {
    let mut deck = Deck::new_standard();
    assert_eq!(deck.size(), 52);
    let first = deck.draw_one().unwrap();
    assert_eq!(first.into_u8(), 51);
    assert_eq!(deck.size(), 51);
}

#[test]
fn empty_deck_yields_nothing() {
    let mut deck = Deck::empty();
    assert_eq!(deck.size(), 0);
    assert!(deck.draw_one().is_none());
}

#[test]
fn put_in_back_goes_to_the_bottom() {
    let mut deck = Deck::empty();
    deck.put_in_back(Card::from_u8(3));
    deck.put_in_back(Card::from_u8(7));
    // The first card put in is drawn first; later cards sit behind it.
    assert_eq!(deck.draw_one().unwrap().into_u8(), 3);
    assert_eq!(deck.draw_one().unwrap().into_u8(), 7);
}

#[test]
fn shuffled_deck_deals_52_distinct_cards() {
    // Deck conservation: after dealing n cards from a fresh shuffled deck,
    // size() == 52 - n and no card appears twice among dealt + remaining.
    let mut deck = Deck::new_standard();
    deck.shuffle();
    let mut dealt = Vec::new();
    for _ in 0..5 {
        dealt.push(deck.draw_one().unwrap());
    }
    assert_eq!(deck.size(), 52 - 5);
    let mut seen = [false; 52];
    for c in &dealt {
        let id = c.into_u8() as usize;
        assert!(!seen[id]);
        seen[id] = true;
    }
    while let Some(c) = deck.draw_one() {
        let id = c.into_u8() as usize;
        assert!(!seen[id]);
        seen[id] = true;
    }
    assert!(seen.iter().all(|&b| b));
}
