use fellestrekk::card::{Card, Deck};
use fellestrekk::dealer::Dealer;
use fellestrekk::games::Blackjack;
use fellestrekk::protocol::{Command, PlayerId};
use fellestrekk::session::CommandQueue;

/// A deck that deals the given card ids in order (first id dealt first),
/// padded with distinct filler cards so no reshuffle is triggered.
fn rigged_deck(order: &[u8], filler: &[u8]) -> Deck {
    let mut deck = Deck::empty();
    for &id in order {
        deck.put_in_back(Card::from_u8(id));
    }
    for &id in filler {
        deck.put_in_back(Card::from_u8(id));
    }
    deck
}

fn host() -> PlayerId {
    PlayerId(0)
}

#[test]
fn bet_is_debited_up_front() {
    let mut game = Blackjack::new();
    let mut q = CommandQueue::new();
    game.bet(host(), 100, &mut q);
    let replies = q.take_replies();
    assert_eq!(replies[0], Command::TakeMoney(100));
    assert_eq!(replies[1], Command::status_new_game());
    assert_eq!(replies.len(), 2);
}

#[test]
fn zero_bet_is_ignored() {
    let mut game = Blackjack::new();
    let mut q = CommandQueue::new();
    game.bet(host(), 0, &mut q);
    assert!(q.take_replies().is_empty());
    assert!(q.take_sends().is_empty());
}

#[test]
fn only_the_host_can_start() {
    // Ace+King would be a natural, but a non-host Start must do nothing.
    let deck = rigged_deck(&[0, 4, 12, 8], &[20, 21, 22, 23, 24, 25, 26, 27, 28, 29, 30, 31, 32, 33, 34, 35, 36, 37, 38, 39]);
    let mut game = Blackjack::with_deck(deck, Dealer::h17());
    let mut q = CommandQueue::new();
    game.bet(PlayerId(1), 50, &mut q);
    q.take_replies();
    game.handle_cmd(PlayerId(1), Command::Start, &mut q);
    assert!(q.take_sends().is_empty());
    assert!(game.is_awaiting_bets());
}

#[test]
fn start_without_bets_is_ignored() {
    let mut game = Blackjack::new();
    let mut q = CommandQueue::new();
    game.handle_cmd(host(), Command::Start, &mut q);
    assert!(q.take_sends().is_empty());
    assert!(q.take_replies().is_empty());
}

#[test]
fn natural_player_win_pays_two_and_a_half_times() {
    // Host is dealt Ace (id 0) + King (id 12): a natural. The dealer gets
    // Five (id 4) + Nine (id 8): no natural. The win is settled at once
    // and the engine returns to collecting bets.
    let deck = rigged_deck(
        &[0, 4, 12, 8],
        &[20, 21, 22, 23, 24, 25, 26, 27, 28, 29, 30, 31, 32, 33, 34, 35, 36, 37, 38, 39],
    );
    let mut game = Blackjack::with_deck(deck, Dealer::h17());
    let mut q = CommandQueue::new();
    game.bet(host(), 100, &mut q);
    q.take_replies();
    game.handle_cmd(host(), Command::Start, &mut q);
    let sends = q.take_sends();
    assert!(q.take_replies().is_empty());
    assert!(sends.contains(&(Some(host()), Command::SendMoney(250))));
    assert!(sends.contains(&(Some(host()), Command::Win)));
    // The natural is revealed to everyone before the payout.
    assert!(sends.contains(&(None, Command::RevealDown(Some(host()), Card::from_u8(0)))));
    // The dealer's hand is revealed since nobody is left to play.
    assert!(sends.contains(&(None, Command::RevealDown(None, Card::from_u8(4)))));
    assert!(game.is_awaiting_bets());
}

#[test]
fn dealer_natural_settles_everyone_at_once() {
    // Dealer is dealt Ace (id 13) + King (id 25): a natural. The host's
    // Ten+Nine simply loses; the wager is not returned.
    let deck = rigged_deck(
        &[9, 13, 8, 25],
        &[30, 31, 32, 33, 34, 35, 36, 37, 38, 39, 40, 41, 42, 43, 44, 45, 46, 47, 48, 49],
    );
    let mut game = Blackjack::with_deck(deck, Dealer::h17());
    let mut q = CommandQueue::new();
    game.bet(host(), 40, &mut q);
    q.take_replies();
    game.handle_cmd(host(), Command::Start, &mut q);
    let sends = q.take_sends();
    assert!(sends.contains(&(Some(host()), Command::Lose)));
    assert!(!sends.iter().any(|m| matches!(m.1, Command::SendMoney(_))));
    assert!(game.is_awaiting_bets());
}

#[test]
fn bust_discards_the_hand_without_settlement() {
    // Host's hand starts at Ten+Five (15) and a hit brings a Ten: 25,
    // bust. The hand is discarded: no settlement entry, no payout, and
    // the round ends with only the dealer's hand played out.
    let deck = rigged_deck(
        &[9, 1, 4, 8, 22, 35],
        &[30, 31, 32, 33, 34, 36, 37, 38, 39, 40, 41, 42, 43, 44, 45, 46, 47, 48],
    );
    let mut game = Blackjack::with_deck(deck, Dealer::h17());
    let mut q = CommandQueue::new();
    game.bet(host(), 50, &mut q);
    q.take_replies();
    game.handle_cmd(host(), Command::Start, &mut q);
    q.take_sends();
    q.take_replies();
    game.handle_cmd(host(), Command::Hit, &mut q);
    let replies = q.take_replies();
    let sends = q.take_sends();
    assert_eq!(replies[0], Command::status_wait());
    assert_eq!(replies[1], Command::Lose);
    assert!(sends.contains(&(None, Command::PlayerDraw(host(), Card::from_u8(22)))));
    assert!(sends.contains(&(None, Command::ValueUpdate(Some(host()), 25, false))));
    // No money moves for a busted hand.
    assert!(!sends.iter().any(|m| matches!(m.1, Command::SendMoney(_))));
    assert!(game.is_awaiting_bets());
}

#[test]
fn split_then_double_down() {
    // A pair of Eights (ids 7 and 20) is split. The first hand draws a
    // Three and a Nine (20) and stands; the second hand (Eight+Four)
    // doubles down, drawing exactly one card (a Six, for 18) and ending
    // immediately. The dealer busts, so both hands win: the plain hand is
    // paid twice its stake, the doubled hand twice its doubled stake.
    let deck = rigged_deck(
        &[7, 1, 20, 9, 2, 3, 47, 5, 22],
        &[30, 31, 32, 33, 34, 35, 36, 37, 38, 39, 40],
    );
    let mut game = Blackjack::with_deck(deck, Dealer::h17());
    let mut q = CommandQueue::new();
    game.bet(host(), 10, &mut q);
    q.take_replies();
    game.handle_cmd(host(), Command::Start, &mut q);
    let sends = q.take_sends();
    // The fresh pair allows a split.
    assert!(sends.contains(&(Some(host()), Command::status_new(true))));
    q.take_replies();

    game.handle_cmd(host(), Command::Split, &mut q);
    let replies = q.take_replies();
    let sends = q.take_sends();
    // Both split hands drew one card each.
    assert_eq!(sends[0], (None, Command::PlayerDraw(host(), Card::from_u8(2))));
    assert_eq!(sends[2], (None, Command::PlayerDraw(host(), Card::from_u8(3))));
    // Eight+Three is no pair, so no re-split is offered.
    assert_eq!(replies[0], Command::status_new(false));

    game.handle_cmd(host(), Command::Hit, &mut q);
    let replies = q.take_replies();
    assert_eq!(replies[0], Command::status_mid_hand());
    q.take_sends();

    game.handle_cmd(host(), Command::Stand, &mut q);
    q.take_replies();
    let sends = q.take_sends();
    // The second split hand becomes active.
    assert!(sends.contains(&(Some(host()), Command::status_new(false))));

    game.handle_cmd(host(), Command::DoubleDown, &mut q);
    let replies = q.take_replies();
    let sends = q.take_sends();
    assert_eq!(replies[0], Command::TakeMoney(10));
    assert_eq!(replies[1], Command::status_wait());
    // Exactly one card is drawn by the double-down.
    let draws: Vec<_> = sends
        .iter()
        .filter(|m| matches!(m.1, Command::PlayerDraw(_, _)))
        .collect();
    assert_eq!(draws.len(), 1);
    assert_eq!(*draws[0], (None, Command::PlayerDraw(host(), Card::from_u8(5))));
    // The hand ended at once: the dealer played out and both hands won.
    assert!(sends.contains(&(Some(host()), Command::SendMoney(20))));
    assert!(sends.contains(&(Some(host()), Command::SendMoney(40))));
    assert_eq!(
        sends.iter().filter(|m| m.1 == Command::Win).count(),
        2
    );
    assert!(game.is_awaiting_bets());
}

#[test]
fn surrender_returns_half_the_wager() {
    let deck = rigged_deck(
        &[9, 1, 4, 8],
        &[30, 31, 32, 33, 34, 35, 36, 37, 38, 39, 40, 41, 42, 43, 44, 45, 46, 47],
    );
    let mut game = Blackjack::with_deck(deck, Dealer::h17());
    let mut q = CommandQueue::new();
    game.bet(host(), 51, &mut q);
    q.take_replies();
    game.handle_cmd(host(), Command::Start, &mut q);
    q.take_replies();
    q.take_sends();
    game.handle_cmd(host(), Command::Surrender, &mut q);
    let replies = q.take_replies();
    assert_eq!(replies[0], Command::SendMoney(25));
    assert_eq!(replies[1], Command::status_wait());
    assert_eq!(replies[2], Command::Lose);
    assert!(game.is_awaiting_bets());
}

#[test]
fn tick_rebroadcasts_the_deck_size_once() {
    let deck = rigged_deck(&[], &[10, 11, 12]);
    let mut game = Blackjack::with_deck(deck, Dealer::h17());
    let mut q = CommandQueue::new();
    assert!(!game.tick_pass(&mut q));
    let sends = q.take_sends();
    assert_eq!(sends, vec![(None, Command::DeckSize(3))]);
    assert!(!game.tick_pass(&mut q));
    assert!(q.take_sends().is_empty());
}

#[test]
fn a_second_bet_overwrites_the_first() {
    // Re-betting debits again but only the last wager counts; the
    // surrender then returns half of the last wager.
    let deck = rigged_deck(
        &[9, 1, 4, 8],
        &[30, 31, 32, 33, 34, 35, 36, 37, 38, 39, 40, 41, 42, 43, 44, 45, 46, 47],
    );
    let mut game = Blackjack::with_deck(deck, Dealer::h17());
    let mut q = CommandQueue::new();
    game.bet(host(), 10, &mut q);
    game.bet(host(), 20, &mut q);
    let replies = q.take_replies();
    assert_eq!(replies[0], Command::TakeMoney(10));
    assert_eq!(replies[2], Command::TakeMoney(20));
    game.handle_cmd(host(), Command::Start, &mut q);
    q.take_sends();
    game.handle_cmd(host(), Command::Surrender, &mut q);
    let replies = q.take_replies();
    assert_eq!(replies[0], Command::SendMoney(10));
}

#[test]
fn an_oversized_wager_is_ignored() {
    // A wager whose payout could not be represented is treated like any
    // other illegal command and dropped.
    let mut game = Blackjack::new();
    let mut q = CommandQueue::new();
    game.bet(host(), u32::MAX, &mut q);
    assert!(q.take_replies().is_empty());
    game.handle_cmd(host(), Command::Start, &mut q);
    assert!(q.take_sends().is_empty());
}

#[test]
fn double_and_surrender_need_a_two_card_hand() {
    // After a hit the hand has three cards: doubling down or surrendering
    // is illegal there and silently ignored, like any other illegal action.
    let deck = rigged_deck(
        &[1, 2, 3, 8, 17],
        &[30, 31, 32, 33, 34, 35, 36, 37, 38, 39, 40, 41, 42, 43, 44, 45, 46],
    );
    let mut game = Blackjack::with_deck(deck, Dealer::h17());
    let mut q = CommandQueue::new();
    game.bet(host(), 10, &mut q);
    q.take_replies();
    game.handle_cmd(host(), Command::Start, &mut q);
    q.take_sends();
    game.handle_cmd(host(), Command::Hit, &mut q);
    q.take_replies();
    q.take_sends();
    game.handle_cmd(host(), Command::DoubleDown, &mut q);
    assert!(q.take_replies().is_empty());
    game.handle_cmd(host(), Command::Surrender, &mut q);
    assert!(q.take_replies().is_empty());
    assert!(q.take_sends().is_empty());
    assert!(!game.is_awaiting_bets());
}

#[test]
fn actions_out_of_turn_are_ignored() {
    let deck = rigged_deck(
        &[9, 1, 4, 8],
        &[30, 31, 32, 33, 34, 35, 36, 37, 38, 39, 40, 41, 42, 43, 44, 45, 46, 47],
    );
    let mut game = Blackjack::with_deck(deck, Dealer::h17());
    let mut q = CommandQueue::new();
    game.bet(host(), 10, &mut q);
    q.take_replies();
    game.handle_cmd(host(), Command::Start, &mut q);
    q.take_replies();
    q.take_sends();
    // A different participant may not act on the host's hand, and betting
    // mid-round is ignored.
    game.handle_cmd(PlayerId(3), Command::Hit, &mut q);
    game.handle_cmd(host(), Command::Bet(5), &mut q);
    // Splitting Ten+Five (no pair) is ignored too.
    game.handle_cmd(host(), Command::Split, &mut q);
    assert!(q.take_replies().is_empty());
    assert!(q.take_sends().is_empty());
    assert!(!game.is_awaiting_bets());
}
