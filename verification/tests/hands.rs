use core::cmp::Ordering;

use fellestrekk::card::{Card, Rank, Suit};
use fellestrekk::dealer::Dealer;
use fellestrekk::hand::{BlackjackExt, Hand};

fn card(suit: Suit, rank: Rank) -> Card {
    Card::new((suit, rank))
}

#[test]
fn empty_hand_is_worth_nothing() {
    let h = Hand::new(&[]);
    assert_eq!(h.value(), 0);
    assert!(!h.is_soft());
}

#[test]
fn ace_counts_eleven_while_it_fits() {
    // An Ace with a raw sum of at most 11 makes the hand soft: value is
    // the raw sum plus ten.
    let h = Hand::new(&[card(Suit::Clubs, Rank::Ace), card(Suit::Hearts, Rank::Five)]);
    assert_eq!(h.value(), 16);
    assert!(h.is_soft());
}

#[test]
fn ace_falls_back_to_one_past_eleven() {
    let h = Hand::new(&[
        card(Suit::Clubs, Rank::Ace),
        card(Suit::Hearts, Rank::Five),
        card(Suit::Spades, Rank::Ten),
    ]);
    assert_eq!(h.value(), 16);
    assert!(!h.is_soft());
}

#[test]
fn two_aces_make_a_soft_twelve() {
    let h = Hand::new(&[card(Suit::Clubs, Rank::Ace), card(Suit::Hearts, Rank::Ace)]);
    assert_eq!(h.value(), 12);
    assert!(h.is_soft());
}

#[test]
fn face_cards_count_ten() {
    let h = Hand::new(&[card(Suit::Clubs, Rank::King), card(Suit::Hearts, Rank::Jack)]);
    assert_eq!(h.value(), 20);
    assert!(!h.is_soft());
}

#[test]
fn bust_value_stays_below_thirty_two() {
    // A hand only grows while it is not bust, so the value never exceeds
    // 21 + 10.
    let mut h = Hand::new(&[card(Suit::Clubs, Rank::King), card(Suit::Hearts, Rank::Queen)]);
    h.add_card(card(Suit::Spades, Rank::Jack));
    assert_eq!(h.value(), 30);
    assert!(h.value() <= 31);
    assert!(h.is_bust());
}

#[test]
fn natural_is_a_two_card_twenty_one() {
    let natural = Hand::new(&[card(Suit::Clubs, Rank::Ace), card(Suit::Hearts, Rank::King)]);
    assert!(natural.is_natural());
    assert_eq!(natural.value(), 21);

    let twenty = Hand::new(&[card(Suit::Clubs, Rank::King), card(Suit::Hearts, Rank::Queen)]);
    assert!(!twenty.is_natural());

    let three_card_21 = Hand::new(&[
        card(Suit::Clubs, Rank::Seven),
        card(Suit::Hearts, Rank::Seven),
        card(Suit::Spades, Rank::Seven),
    ]);
    assert_eq!(three_card_21.value(), 21);
    assert!(!three_card_21.is_natural());
}

#[test]
fn natural_beats_a_slower_twenty_one() {
    let natural = Hand::new(&[card(Suit::Clubs, Rank::Ace), card(Suit::Hearts, Rank::King)]);
    let slow_21 = Hand::new(&[
        card(Suit::Clubs, Rank::Seven),
        card(Suit::Hearts, Rank::Seven),
        card(Suit::Spades, Rank::Seven),
    ]);
    assert_eq!(natural.cmp(&slow_21), Ordering::Greater);
    assert_eq!(slow_21.cmp(&natural), Ordering::Less);
}

#[test]
fn bust_loses_to_any_non_bust() {
    let mut bust = Hand::new(&[card(Suit::Clubs, Rank::King), card(Suit::Hearts, Rank::Queen)]);
    bust.add_card(card(Suit::Spades, Rank::Five));
    let low = Hand::new(&[card(Suit::Clubs, Rank::Two), card(Suit::Hearts, Rank::Three)]);
    assert_eq!(bust.cmp(&low), Ordering::Less);
    assert_eq!(low.cmp(&bust), Ordering::Greater);
}

#[test]
fn higher_value_wins_and_equal_values_push() {
    let twenty = Hand::new(&[card(Suit::Clubs, Rank::King), card(Suit::Hearts, Rank::Queen)]);
    let eighteen = Hand::new(&[card(Suit::Clubs, Rank::Nine), card(Suit::Hearts, Rank::Nine)]);
    let other_eighteen = Hand::new(&[card(Suit::Spades, Rank::Ten), card(Suit::Hearts, Rank::Eight)]);
    assert_eq!(twenty.cmp(&eighteen), Ordering::Greater);
    assert_eq!(eighteen.cmp(&twenty), Ordering::Less);
    assert_eq!(eighteen.cmp(&other_eighteen), Ordering::Equal);
}

#[test]
fn naturals_push_against_each_other() {
    let a = Hand::new(&[card(Suit::Clubs, Rank::Ace), card(Suit::Hearts, Rank::King)]);
    let b = Hand::new(&[card(Suit::Spades, Rank::Ace), card(Suit::Diamonds, Rank::Ten)]);
    assert_eq!(a.cmp(&b), Ordering::Equal);
}

#[test]
fn dealer_policy_on_soft_seventeen() {
    let soft_17 = Hand::new(&[card(Suit::Clubs, Rank::Ace), card(Suit::Hearts, Rank::Six)]);
    assert_eq!(soft_17.value(), 17);
    assert!(soft_17.is_soft());
    assert!(Dealer::h17().hits(&soft_17));
    assert!(!Dealer::s17().hits(&soft_17));

    let sixteen = Hand::new(&[card(Suit::Clubs, Rank::Ten), card(Suit::Hearts, Rank::Six)]);
    assert!(Dealer::h17().hits(&sixteen));
    assert!(Dealer::s17().hits(&sixteen));

    let hard_17 = Hand::new(&[card(Suit::Clubs, Rank::Ten), card(Suit::Hearts, Rank::Seven)]);
    assert!(!Dealer::h17().hits(&hard_17));
    assert!(!Dealer::s17().hits(&hard_17));
}
