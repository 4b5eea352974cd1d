//! The blackjack engine: a state machine over betting and multi-hand play,
//! with splits, dealer auto-play and payout settlement.
//!
//! One engine instance drives one room. In `AwaitingBets` it collects one
//! wager per participant; on the host's `Start` it deals, resolves naturals,
//! and moves to `PlayingInProgress`, where the hand at the tail of the play
//! queue acts next. Any command that is not legal for the current state or
//! sender is silently ignored: clients may send stale or duplicate lines.

use vstd::prelude::*;

use crate::card::{cards_distinct, cards_in_range, Card, Deck};
use crate::dealer::{spec_dealer_hits, Dealer};
use crate::games::Game;
use crate::hand::{hand_soft, hand_value, raw_sum, spec_is_natural, BlackjackExt, Hand};
use crate::protocol::{CmdV, Command, PlayerId};
use crate::session::{CommandQueue, QueueV};

verus! {

/// The largest accepted wager. Payouts go up to four times the wager (a
/// doubled-down win), so this bound keeps every amount within `u32`.
pub const BET_LIMIT: u32 = 1073741823;

/// The most participants one room seats.
pub const MAX_PLAYERS: u32 = 7;

/// A fresh shuffled deck replaces the old one when fewer cards than this
/// remain at the start of a round.
pub const LOW_WATER: usize = 20;

/// One hand still to act, with the participant who owns it.
struct PlayHand {
    player: PlayerId,
    hand: Hand,
}

/// A hand that finished without busting or surrendering, kept for the final
/// comparison against the dealer.
struct PlayedHand {
    player: PlayerId,
    doubled: bool,
    value: u8,
}

enum State {
    AwaitingBets { bets: Vec<(u32, u32)> },
    PlayingInProgress {
        bets: Vec<(u32, u32)>,
        dealer_hand: Hand,
        hands_to_play: Vec<PlayHand>,
        finished_hands: Vec<PlayedHand>,
    },
}

/// The engine's mathematical state.
#[verifier::ext_equal]
pub enum StateV {
    AwaitingBets { bets: Seq<(u32, u32)> },
    Playing {
        bets: Seq<(u32, u32)>,
        dealer: Seq<Card>,
        /// The hand at the end acts next.
        to_play: Seq<(PlayerId, Seq<Card>)>,
        finished: Seq<(PlayerId, bool, u8)>,
    },
}

#[verifier::ext_equal]
pub struct BlackjackV {
    pub deck: Seq<Card>,
    pub hit_soft_17: bool,
    pub state: StateV,
    pub dirty_deck: bool,
    pub seats: u32,
}

/// One game of blackjack.
pub struct Blackjack {
    deck: Deck,
    dealer: Dealer,
    state: State,
    dirty_deck: bool,
    seats: u32,
}

impl View for Blackjack {
    type V = BlackjackV;

    closed spec fn view(&self) -> BlackjackV {
        BlackjackV {
            deck: self.deck@,
            hit_soft_17: self.dealer.spec_hits_soft_17(),
            state: match self.state {
                State::AwaitingBets { bets } => StateV::AwaitingBets { bets: bets@ },
                State::PlayingInProgress { bets, dealer_hand, hands_to_play, finished_hands } => StateV::Playing {
                    bets: bets@,
                    dealer: dealer_hand@,
                    to_play: hands_to_play@.map_values(|h: PlayHand| (h.player, h.hand@)),
                    finished: finished_hands@.map_values(
                        |h: PlayedHand| (h.player, h.doubled, h.value),
                    ),
                },
            },
            dirty_deck: self.dirty_deck,
            seats: self.seats,
        }
    }
}

/// Wagers keyed by player id, strictly ascending, each within the limit.
pub open spec fn bets_wf(s: Seq<(u32, u32)>) -> bool {
    (forall|i: int, j: int| 0 <= i < j < s.len() ==> (#[trigger] s[i]).0 < (#[trigger] s[j]).0)
        && (forall|i: int| 0 <= i < s.len() ==> 1 <= (#[trigger] s[i]).1 <= BET_LIMIT)
}

/// The wager recorded for a player, if any.
pub open spec fn bet_of(s: Seq<(u32, u32)>, pid: u32) -> Option<u32>
    decreases s.len(),
{
    if s.len() == 0 {
        None
    } else if s[0].0 == pid {
        Some(s[0].1)
    } else {
        bet_of(s.skip(1), pid)
    }
}

/// Recording a wager: insert by key, overwriting an existing entry.
pub open spec fn spec_bet_insert(s: Seq<(u32, u32)>, pid: u32, amt: u32) -> Seq<(u32, u32)>
    decreases s.len(),
{
    if s.len() == 0 {
        seq![(pid, amt)]
    } else if pid < s[0].0 {
        seq![(pid, amt)] + s
    } else if pid == s[0].0 {
        seq![(pid, amt)] + s.skip(1)
    } else {
        seq![s[0]] + spec_bet_insert(s.skip(1), pid, amt)
    }
}

pub proof fn lemma_bet_insert_wf(s: Seq<(u32, u32)>, pid: u32, amt: u32)
    requires
        bets_wf(s),
        1 <= amt <= BET_LIMIT,
    ensures
        bets_wf(spec_bet_insert(s, pid, amt)),
        bet_of(spec_bet_insert(s, pid, amt), pid) == Some(amt),
        forall|q: u32|
            q != pid ==> #[trigger] bet_of(spec_bet_insert(s, pid, amt), q) == bet_of(s, q),
        spec_bet_insert(s, pid, amt).len() >= 1,
        spec_bet_insert(s, pid, amt).len() <= s.len() + 1,
    decreases s.len(),
{
    let r = spec_bet_insert(s, pid, amt);
    if s.len() == 0 {
        assert forall|q: u32| q != pid implies #[trigger] bet_of(r, q) == bet_of(s, q) by {
            assert(r[0] == (pid, amt));
            assert(r.skip(1) =~= Seq::<(u32, u32)>::empty());
            assert(bet_of(r, q) == bet_of(r.skip(1), q));
        }
        assert(r[0] == (pid, amt));
    } else if pid < s[0].0 {
        assert(r.skip(1) =~= s);
        assert(bets_wf(r)) by {
            assert(forall|j: int| 0 < j < r.len() ==> r[j] == s[j - 1]);
        }
        assert forall|q: u32| q != pid implies #[trigger] bet_of(r, q) == bet_of(s, q) by {
            assert(r[0] == (pid, amt));
            assert(bet_of(r, q) == bet_of(r.skip(1), q));
        }
    } else if pid == s[0].0 {
        assert(r.skip(1) =~= s.skip(1));
        assert(bets_wf(r)) by {
            assert(forall|j: int| 0 < j < r.len() ==> r[j] == s[j - 1 + 1]);
        }
        assert forall|q: u32| q != pid implies #[trigger] bet_of(r, q) == bet_of(s, q) by {
            assert(r[0] == (pid, amt));
            assert(bet_of(r, q) == bet_of(r.skip(1), q));
        }
    } else {
        let tail = s.skip(1);
        assert(bets_wf(tail)) by {
            assert(forall|j: int| 0 <= j < tail.len() ==> tail[j] == s[j + 1]);
        }
        lemma_bet_insert_wf(tail, pid, amt);
        let rt = spec_bet_insert(tail, pid, amt);
        assert(r == seq![s[0]] + rt);
        assert(r.skip(1) =~= rt);
        assert(bets_wf(r)) by {
            assert(forall|j: int| 0 < j < r.len() ==> r[j] == rt[j - 1]);
            assert forall|j: int| 0 < j < r.len() implies s[0].0 < (#[trigger] r[j]).0 by {
                if rt[j - 1].0 == pid {
                } else {
                    lemma_bet_of_key(tail, rt[j - 1].0);
                    assert(bet_of(tail, rt[j - 1].0) == bet_of(rt, rt[j - 1].0));
                }
            }
        }
        assert forall|q: u32| q != pid implies #[trigger] bet_of(r, q) == bet_of(s, q) by {
            assert(r[0] == s[0]);
            if q == s[0].0 {
            } else {
                assert(bet_of(r, q) == bet_of(rt, q));
                assert(bet_of(rt, q) == bet_of(tail, q));
                assert(bet_of(s, q) == bet_of(tail, q));
            }
        }
        assert(r[0] == s[0]);
        assert(bet_of(r, pid) == bet_of(rt, pid));
    }
}

/// In a sorted wager list, looking up the key at any index finds exactly
/// that entry's amount.
pub proof fn lemma_bet_of_index(s: Seq<(u32, u32)>, i: int)
    requires
        bets_wf(s),
        0 <= i < s.len(),
    ensures
        bet_of(s, s[i].0) == Some(s[i].1),
    decreases s.len(),
{
    if i > 0 {
        assert(s[0].0 < s[i].0);
        assert(bets_wf(s.skip(1))) by {
            assert(forall|j: int| 0 <= j < s.skip(1).len() ==> #[trigger] s.skip(1)[j] == s[j + 1]);
        }
        assert(s.skip(1)[i - 1] == s[i]);
        lemma_bet_of_index(s.skip(1), i - 1);
    }
}

/// A key that appears in a sorted wager list is found by `bet_of`, and a
/// key that `bet_of` misses does not appear.
pub proof fn lemma_bet_of_key(s: Seq<(u32, u32)>, pid: u32)
    ensures
        bet_of(s, pid) is Some <==> exists|i: int| 0 <= i < s.len() && (#[trigger] s[i]).0 == pid,
    decreases s.len(),
{
    if s.len() > 0 {
        lemma_bet_of_key(s.skip(1), pid);
        assert(forall|j: int| 0 <= j < s.skip(1).len() ==> #[trigger] s.skip(1)[j] == s[j + 1]);
        if s[0].0 == pid {
        } else {
            if bet_of(s, pid) is Some {
                let i = choose|i: int| 0 <= i < s.skip(1).len() && (#[trigger] s.skip(1)[i]).0
                    == pid;
                assert(s[i + 1].0 == pid);
            }
            if exists|i: int| 0 <= i < s.len() && (#[trigger] s[i]).0 == pid {
                let i = choose|i: int| 0 <= i < s.len() && (#[trigger] s[i]).0 == pid;
                assert(s.skip(1)[i - 1].0 == pid);
            }
        }
    }
}

/// Looks a wager up in the sorted list.
fn bets_get(bets: &Vec<(u32, u32)>, pid: u32) -> (r: Option<u32>)
    ensures
        r == bet_of(bets@, pid),
{
    let mut i: usize = 0;
    proof {
        assert(bets@.skip(0) =~= bets@);
    }
    while i < bets.len()
        invariant
            0 <= i <= bets@.len(),
            bet_of(bets@, pid) == bet_of(bets@.skip(i as int), pid),
        decreases bets@.len() - i,
    {
        let e = bets[i];
        proof {
            assert(bets@.skip(i as int)[0] == bets@[i as int]);
            assert(bets@.skip(i as int).skip(1) =~= bets@.skip(i as int + 1));
        }
        if e.0 == pid {
            return Some(e.1);
        }
        i = i + 1;
    }
    proof {
        assert(bets@.skip(bets@.len() as int) =~= Seq::<(u32, u32)>::empty());
    }
    None
}

/// `spec_bet_insert` in terms of the insertion position.
proof fn lemma_bet_insert_split(s: Seq<(u32, u32)>, pid: u32, amt: u32, idx: int)
    requires
        0 <= idx <= s.len(),
        forall|k: int| 0 <= k < idx ==> (#[trigger] s[k]).0 < pid,
        idx < s.len() ==> s[idx].0 >= pid,
    ensures
        idx < s.len() && s[idx].0 == pid ==> spec_bet_insert(s, pid, amt) == s.take(idx) + seq![
            (pid, amt),
        ] + s.skip(idx + 1),
        !(idx < s.len() && s[idx].0 == pid) ==> spec_bet_insert(s, pid, amt) == s.take(idx) + seq![
            (pid, amt),
        ] + s.skip(idx),
    decreases idx,
{
    if idx == 0 {
        if s.len() == 0 {
            assert(spec_bet_insert(s, pid, amt) =~= s.take(0) + seq![(pid, amt)] + s.skip(0));
        } else if s[0].0 == pid {
            assert(spec_bet_insert(s, pid, amt) =~= s.take(0) + seq![(pid, amt)] + s.skip(1));
        } else {
            assert(pid < s[0].0);
            assert(spec_bet_insert(s, pid, amt) =~= s.take(0) + seq![(pid, amt)] + s.skip(0));
        }
    } else {
        let tail = s.skip(1);
        assert(forall|j: int| 0 <= j < tail.len() ==> #[trigger] tail[j] == s[j + 1]);
        lemma_bet_insert_split(tail, pid, amt, idx - 1);
        assert(s[0].0 < pid);
        assert(spec_bet_insert(s, pid, amt) == seq![s[0]] + spec_bet_insert(tail, pid, amt));
        if idx < s.len() && s[idx].0 == pid {
            assert(tail[idx - 1].0 == pid);
            assert(seq![s[0]] + (tail.take(idx - 1) + seq![(pid, amt)] + tail.skip(idx)) =~= s.take(
                idx,
            ) + seq![(pid, amt)] + s.skip(idx + 1));
        } else {
            assert(seq![s[0]] + (tail.take(idx - 1) + seq![(pid, amt)] + tail.skip(idx - 1))
                =~= s.take(idx) + seq![(pid, amt)] + s.skip(idx));
        }
    }
}

/// Records a wager in the sorted list, overwriting any previous one.
fn bets_insert(bets: &mut Vec<(u32, u32)>, pid: u32, amt: u32)
    requires
        bets_wf(old(bets)@),
    ensures
        final(bets)@ == spec_bet_insert(old(bets)@, pid, amt),
{
    let ghost s = bets@;
    let mut idx: usize = 0;
    while idx < bets.len() && bets[idx].0 < pid
        invariant
            0 <= idx <= bets@.len(),
            bets@ == s,
            forall|k: int| 0 <= k < idx ==> (#[trigger] s[k]).0 < pid,
        decreases bets@.len() - idx,
    {
        idx = idx + 1;
    }
    proof {
        lemma_bet_insert_split(s, pid, amt, idx as int);
    }
    if idx < bets.len() && bets[idx].0 == pid {
        bets.remove(idx);
        bets.insert(idx, (pid, amt));
        proof {
            assert(final(bets)@ =~= s.take(idx as int) + seq![(pid, amt)] + s.skip(idx as int + 1));
        }
    } else {
        bets.insert(idx, (pid, amt));
        proof {
            assert(final(bets)@ =~= s.take(idx as int) + seq![(pid, amt)] + s.skip(idx as int));
        }
    }
}

// Shorthand for the status lines the engine emits.
pub open spec fn status_wait_v() -> CmdV {
    CmdV::Status {
        hit: false,
        stand: false,
        double: false,
        surrender: false,
        split: false,
        new_game: false,
    }
}

pub open spec fn status_new_game_v() -> CmdV {
    CmdV::Status {
        hit: false,
        stand: false,
        double: false,
        surrender: false,
        split: false,
        new_game: true,
    }
}

pub open spec fn status_new_v(split: bool) -> CmdV {
    CmdV::Status { hit: true, stand: true, double: true, surrender: true, split, new_game: false }
}

pub open spec fn status_mid_hand_v() -> CmdV {
    CmdV::Status {
        hit: true,
        stand: true,
        double: false,
        surrender: false,
        split: false,
        new_game: false,
    }
}

/// Draws the next card, marking the deck size as needing rebroadcast; no
/// card when the deck is exhausted.
fn draw_card(deck: &mut Deck, dirty_deck: &mut bool) -> (r: Option<Card>)
    ensures
        *final(dirty_deck) == true,
        old(deck)@.len() > 0 ==> r == Some(old(deck)@.last()) && final(deck)@ == old(
            deck,
        )@.drop_last(),
        old(deck)@.len() == 0 ==> r is None && final(deck)@ == old(deck)@,
{
    *dirty_deck = true;
    deck.draw_one()
}

impl Blackjack {
    /// Internal consistency: the deck holds distinct standard cards, wagers
    /// are well formed, every queued or finished hand belongs to a current
    /// better, queued hands hold at least two cards and are not bust, and
    /// the queue is never empty while a round is in progress.
    pub closed spec fn inv(&self) -> bool {
        &&& self.deck.wf()
        &&& match self.state {
            State::AwaitingBets { bets } => bets_wf(bets@),
            State::PlayingInProgress { bets, dealer_hand, hands_to_play, finished_hands } => {
                &&& bets_wf(bets@)
                &&& dealer_hand.wf()
                &&& dealer_hand@.len() == 2
                &&& hands_to_play@.len() >= 1
                &&& (forall|i: int|
                    0 <= i < hands_to_play@.len() ==> {
                        let h = #[trigger] hands_to_play@[i];
                        &&& h.hand.wf()
                        &&& h.hand@.len() >= 2
                        &&& hand_value(h.hand@) <= 21
                        &&& bet_of(bets@, h.player.0) is Some
                    })
                &&& (forall|i: int|
                    0 <= i < finished_hands@.len() ==> bet_of(
                        bets@,
                        (#[trigger] finished_hands@[i]).player.0,
                    ) is Some)
            },
        }
    }

    pub fn new() -> (r: Blackjack)
        ensures
            r.inv(),
            r@.deck == Seq::<Card>::empty(),
            r@.hit_soft_17 == true,
            r@.state == (StateV::AwaitingBets { bets: Seq::<(u32, u32)>::empty() }),
            r@.dirty_deck == true,
            r@.seats == 1,
    {
        let r = Blackjack {
            deck: Deck::empty(),
            dealer: Dealer::h17(),
            state: State::AwaitingBets { bets: Vec::new() },
            dirty_deck: true,
            seats: 1,
        };
        proof {
            assert(r@.state =~~= (StateV::AwaitingBets { bets: Seq::<(u32, u32)>::empty() }));
        }
        r
    }

    /// A game over a prepared deck and a chosen dealer policy, awaiting
    /// bets; the deck is dealt from the end.
    pub fn with_deck(deck: Deck, dealer: Dealer) -> (r: Blackjack)
        requires
            deck.wf(),
        ensures
            r.inv(),
            r@.deck == deck@,
            r@.hit_soft_17 == dealer.spec_hits_soft_17(),
            r@.state == (StateV::AwaitingBets { bets: Seq::<(u32, u32)>::empty() }),
            r@.dirty_deck == true,
            r@.seats == 1,
    {
        let r = Blackjack {
            deck,
            dealer,
            state: State::AwaitingBets { bets: Vec::new() },
            dirty_deck: true,
            seats: 1,
        };
        proof {
            assert(r@.state =~~= (StateV::AwaitingBets { bets: Seq::<(u32, u32)>::empty() }));
        }
        r
    }

    /// Whether the engine is collecting bets (no round in progress).
    pub fn is_awaiting_bets(&self) -> (r: bool)
        ensures
            r == (self@.state is AwaitingBets),
    {
        match &self.state {
            State::AwaitingBets { .. } => true,
            State::PlayingInProgress { .. } => false,
        }
    }

    /// Whether another participant can be seated.
    pub open spec fn spec_space(&self) -> bool {
        self@.seats < MAX_PLAYERS
    }

    /// Seats one more participant; full rooms stay as they are.
    pub fn seat_joined(&mut self)
        requires
            old(self).inv(),
        ensures
            final(self).inv(),
            old(self)@.seats < MAX_PLAYERS ==> final(self)@ == (BlackjackV {
                seats: (old(self)@.seats + 1) as u32,
                ..old(self)@
            }),
            old(self)@.seats >= MAX_PLAYERS ==> final(self)@ == old(self)@,
    {
        if self.seats < MAX_PLAYERS {
            self.seats = self.seats + 1;
        }
    }

    /// Frees a departed participant's seat.
    pub fn seat_left(&mut self)
        requires
            old(self).inv(),
        ensures
            final(self).inv(),
            old(self)@.seats > 0 ==> final(self)@ == (BlackjackV {
                seats: (old(self)@.seats - 1) as u32,
                ..old(self)@
            }),
            old(self)@.seats == 0 ==> final(self)@ == old(self)@,
    {
        if self.seats > 0 {
            self.seats = self.seats - 1;
        }
    }

    /// A tick rebroadcasts the deck size when it has changed.
    pub fn tick_pass(&mut self, cmds: &mut CommandQueue) -> (r: bool)
        requires
            old(self).inv(),
        ensures
            final(self).inv(),
            r == false,
            final(self)@ == (BlackjackV { dirty_deck: false, ..old(self)@ }),
            final(cmds)@.replies == old(cmds)@.replies,
            old(self)@.dirty_deck ==> final(cmds)@.sends == old(cmds)@.sends.push(
                (None, CmdV::DeckSize(old(self)@.deck.len() as u8)),
            ),
            !old(self)@.dirty_deck ==> final(cmds)@.sends == old(cmds)@.sends,
    {
        if self.dirty_deck {
            self.dirty_deck = false;
            proof {
                crate::card::lemma_deck_size_le_52(self.deck@);
            }
            let n = self.deck.size();
            cmds.broadcast(Command::DeckSize(n as u8));
        }
        false
    }

    /// The effect of a wager: in the betting state a nonzero wager within
    /// the limit is recorded (overwriting any previous one) and debited at
    /// once with `TakeMoney`; anything else is silently ignored.
    pub open spec fn bet_effect(
        pre: BlackjackV,
        pid: PlayerId,
        amount: u32,
        post: BlackjackV,
        q0: QueueV,
        q1: QueueV,
    ) -> bool {
        match pre.state {
            StateV::AwaitingBets { bets } => if 1 <= amount <= BET_LIMIT {
                &&& post == (BlackjackV {
                    state: StateV::AwaitingBets { bets: spec_bet_insert(bets, pid.0, amount) },
                    ..pre
                })
                &&& q1.sends == q0.sends
                &&& q1.replies == q0.replies.push(CmdV::TakeMoney(amount)).push(
                    if pid.0 == 0 {
                        status_new_game_v()
                    } else {
                        status_wait_v()
                    },
                )
            } else {
                post == pre && q1.replies == q0.replies && q1.sends == q0.sends
            },
            StateV::Playing { .. } => post == pre && q1.replies == q0.replies && q1.sends
                == q0.sends,
        }
    }

    /// Records a wager; see `bet_effect`.
    pub fn bet(&mut self, pid: PlayerId, amount: u32, cmds: &mut CommandQueue)
        requires
            old(self).inv(),
        ensures
            final(self).inv(),
            Self::bet_effect(old(self)@, pid, amount, final(self)@, old(cmds)@, final(cmds)@),
    {
        match &mut self.state {
            State::AwaitingBets { bets } => {
                if 1 <= amount && amount <= BET_LIMIT {
                    proof {
                        lemma_bet_insert_wf(bets@, pid.0, amount);
                    }
                    bets_insert(bets, pid.0, amount);
                    cmds.reply(Command::TakeMoney(amount));
                    if pid.0 == 0 {
                        cmds.reply(Command::status_new_game());
                    } else {
                        cmds.reply(Command::status_wait());
                    }
                }
            },
            State::PlayingInProgress { .. } => {},
        }
    }
}

/// An outbound message: a command for one participant, or for everyone.
pub type Msg = (Option<PlayerId>, CmdV);

/// What one engine step produces: the new engine state and the replies and
/// sends it appends to the queue.
#[verifier::ext_equal]
pub struct ActionOut {
    pub bj: BlackjackV,
    pub replies: Seq<CmdV>,
    pub sends: Seq<Msg>,
}

/// The recorded wager of a player, or zero if none is recorded.
pub open spec fn bet_or_zero(bets: Seq<(u32, u32)>, pid: u32) -> u32 {
    match bet_of(bets, pid) {
        Some(b) => b,
        None => 0,
    }
}

pub proof fn lemma_bet_or_zero_bound(s: Seq<(u32, u32)>, pid: u32)
    requires
        bets_wf(s),
    ensures
        bet_of(s, pid) is Some ==> 1 <= bet_or_zero(s, pid) <= BET_LIMIT,
    decreases s.len(),
{
    if s.len() > 0 && s[0].0 != pid {
        assert(bets_wf(s.skip(1))) by {
            assert(forall|j: int| 0 <= j < s.skip(1).len() ==> #[trigger] s.skip(1)[j] == s[j + 1]);
        }
        lemma_bet_or_zero_bound(s.skip(1), pid);
    }
}

/// Two cards of the same rank (the condition for a split).
pub open spec fn same_rank(a: Card, b: Card) -> bool {
    a@ % 13 == b@ % 13
}

/// The dealer's auto-play: draw while the policy says to hit (and cards
/// remain), returning the final dealer hand and the remaining deck.
pub open spec fn dealer_play(h17: bool, hand: Seq<Card>, deck: Seq<Card>) -> (Seq<Card>, Seq<Card>)
    decreases deck.len(),
{
    if !spec_dealer_hits(h17, hand) || deck.len() == 0 {
        (hand, deck)
    } else {
        dealer_play(h17, hand.push(deck.last()), deck.drop_last())
    }
}

/// The broadcasts the dealer's auto-play emits: each drawn card and the
/// updated dealer value.
pub open spec fn dealer_msgs(h17: bool, hand: Seq<Card>, deck: Seq<Card>) -> Seq<Msg>
    decreases deck.len(),
{
    if !spec_dealer_hits(h17, hand) || deck.len() == 0 {
        Seq::empty()
    } else {
        let c = deck.last();
        let h2 = hand.push(c);
        seq![
            (None, CmdV::DealerDraw(c@)),
            (None, CmdV::ValueUpdate(None, hand_value(h2) as u8, hand_soft(h2))),
        ] + dealer_msgs(h17, h2, deck.drop_last())
    }
}

/// The settlement messages, one group per finished hand in order: a win
/// pays twice the stake back, a push returns the stake, a loss pays
/// nothing; a doubled hand's stake is twice its wager.
pub open spec fn settle_msgs(
    finished: Seq<(PlayerId, bool, u8)>,
    bets: Seq<(u32, u32)>,
    dealer_value: int,
    dealer_bust: bool,
) -> Seq<Msg>
    decreases finished.len(),
{
    if finished.len() == 0 {
        Seq::empty()
    } else {
        let f = finished[0];
        let b = bet_or_zero(bets, f.0.0);
        let stake: u32 = if f.1 {
            (2 * b) as u32
        } else {
            b
        };
        (if dealer_bust || f.2 > dealer_value {
            seq![(Some(f.0), CmdV::SendMoney((2 * stake) as u32)), (Some(f.0), CmdV::Win)]
        } else if f.2 == dealer_value {
            seq![(Some(f.0), CmdV::SendMoney(stake)), (Some(f.0), CmdV::Draw)]
        } else {
            seq![(Some(f.0), CmdV::Lose)]
        }) + settle_msgs(finished.skip(1), bets, dealer_value, dealer_bust)
    }
}

/// The status line sent to the owner of the newly active hand at the tail
/// of the play queue: everything is legal, splitting only on a pair.
pub open spec fn notify_msg(to_play: Seq<(PlayerId, Seq<Card>)>) -> Msg {
    let t = to_play.last();
    (Some(t.0), status_new_v(same_rank_ids(t.1[0]@, t.1[1]@)))
}

pub open spec fn same_rank_ids(a: u8, b: u8) -> bool {
    a % 13 == b % 13
}

/// Sends the newly active hand's owner their legal actions.
fn notify_new_hand(hands_to_play: &Vec<PlayHand>, cmds: &mut CommandQueue)
    requires
        hands_to_play@.len() >= 1,
        hands_to_play@.last().hand@.len() >= 2,
    ensures
        final(cmds)@.replies == old(cmds)@.replies,
        final(cmds)@.sends == old(cmds)@.sends.push(
            notify_msg(hands_to_play@.map_values(|h: PlayHand| (h.player, h.hand@))),
        ),
{
    let idx = hands_to_play.len() - 1;
    let ph = &hands_to_play[idx];
    let cards = ph.hand.cards();
    let split = cards[0].into_u8() % 13 == cards[1].into_u8() % 13;
    proof {
        let tp = hands_to_play@.map_values(|h: PlayHand| (h.player, h.hand@));
        assert(tp.last() == (ph.player, ph.hand@));
    }
    cmds.send_to(ph.player, Command::status_new(split));
}

// ---------------------------------------------------------------------
// Dealing a round: card positions and messages, by draw order. Cards are
// drawn from the end of the deck: one hole card per better, the dealer's
// hole card, one open card per better, then the dealer's open card.
// ---------------------------------------------------------------------
pub open spec fn hole_card(d: Seq<Card>, i: int) -> Card {
    d[d.len() - 1 - i]
}

pub open spec fn open_card(d: Seq<Card>, n: int, i: int) -> Card {
    d[d.len() - 2 - n - i]
}

pub open spec fn better_hand(d: Seq<Card>, n: int, i: int) -> Seq<Card> {
    seq![hole_card(d, i), open_card(d, n, i)]
}

pub open spec fn dealer_hole(d: Seq<Card>, n: int) -> Card {
    d[d.len() - 1 - n]
}

pub open spec fn dealer_open(d: Seq<Card>, n: int) -> Card {
    d[d.len() - 2 - 2 * n]
}

pub open spec fn spec_dealer_hand(d: Seq<Card>, n: int) -> Seq<Card> {
    seq![dealer_hole(d, n), dealer_open(d, n)]
}

/// The private hole-card deal: each better learns their down card and
/// their one-card value.
pub open spec fn hole_msgs(bets: Seq<(u32, u32)>, d: Seq<Card>, i: int) -> Seq<Msg>
    decreases bets.len() - i,
{
    if i < 0 || i >= bets.len() {
        Seq::empty()
    } else {
        let pid = PlayerId(bets[i].0);
        let c = hole_card(d, i);
        let h = seq![c];
        seq![
            (Some(pid), CmdV::DownCard(c@)),
            (Some(pid), CmdV::ValueUpdate(Some(pid), hand_value(h) as u8, hand_soft(h))),
        ] + hole_msgs(bets, d, i + 1)
    }
}

/// The open deal: everyone sees each better's open card and its value,
/// and the better privately learns their full two-card value.
pub open spec fn open_msgs(bets: Seq<(u32, u32)>, d: Seq<Card>, i: int) -> Seq<Msg>
    decreases bets.len() - i,
{
    if i < 0 || i >= bets.len() {
        Seq::empty()
    } else {
        let n = bets.len() as int;
        let pid = PlayerId(bets[i].0);
        let c = open_card(d, n, i);
        let h1 = seq![c];
        let h2 = better_hand(d, n, i);
        seq![
            (None, CmdV::PlayerDraw(pid, c@)),
            (None, CmdV::ValueUpdate(Some(pid), hand_value(h1) as u8, hand_soft(h1))),
            (Some(pid), CmdV::ValueUpdate(Some(pid), hand_value(h2) as u8, hand_soft(h2))),
        ] + open_msgs(bets, d, i + 1)
    }
}

/// The dealer's open card and its one-card value, broadcast to everyone.
pub open spec fn dealer_open_msgs(d: Seq<Card>, n: int) -> Seq<Msg> {
    let c = dealer_open(d, n);
    let h = seq![c];
    seq![
        (None, CmdV::DealerDraw(c@)),
        (None, CmdV::ValueUpdate(None, hand_value(h) as u8, hand_soft(h))),
    ]
}

/// Revealing the dealer's hole card and full value, broadcast to everyone.
pub open spec fn dealer_reveal_msgs(d: Seq<Card>, n: int) -> Seq<Msg> {
    let dh = spec_dealer_hand(d, n);
    seq![
        (None, CmdV::RevealDown(None, dealer_hole(d, n)@)),
        (None, CmdV::ValueUpdate(None, hand_value(dh) as u8, hand_soft(dh))),
    ]
}

/// Settlement under a dealer natural, in bet order: every hand is revealed;
/// a player natural pushes (the wager comes back), anything else loses.
pub open spec fn natural_settle_msgs(bets: Seq<(u32, u32)>, d: Seq<Card>, i: int) -> Seq<Msg>
    decreases bets.len() - i,
{
    if i < 0 || i >= bets.len() {
        Seq::empty()
    } else {
        let n = bets.len() as int;
        let pid = PlayerId(bets[i].0);
        let h = better_hand(d, n, i);
        seq![
            (None, CmdV::RevealDown(Some(pid), hole_card(d, i)@)),
            (None, CmdV::ValueUpdate(Some(pid), hand_value(h) as u8, hand_soft(h))),
        ] + (if spec_is_natural(h) {
            seq![(Some(pid), CmdV::SendMoney(bets[i].1)), (Some(pid), CmdV::Draw)]
        } else {
            seq![(Some(pid), CmdV::Lose)]
        }) + natural_settle_msgs(bets, d, i + 1)
    }
}

/// Immediate payout of player naturals when the dealer has none, walking
/// the betters from the last down to the first: the natural is revealed
/// and paid two-and-a-half times the wager.
pub open spec fn payout_below(bets: Seq<(u32, u32)>, d: Seq<Card>, i: int) -> Seq<Msg>
    decreases i,
{
    if i <= 0 {
        Seq::empty()
    } else {
        let n = bets.len() as int;
        let pid = PlayerId(bets[i - 1].0);
        let b = bets[i - 1].1;
        let h = better_hand(d, n, i - 1);
        (if spec_is_natural(h) {
            seq![
                (None, CmdV::RevealDown(Some(pid), hole_card(d, i - 1)@)),
                (None, CmdV::ValueUpdate(Some(pid), hand_value(h) as u8, hand_soft(h))),
                (Some(pid), CmdV::SendMoney((2 * b + b / 2) as u32)),
                (Some(pid), CmdV::Win),
            ]
        } else {
            Seq::empty()
        }) + payout_below(bets, d, i - 1)
    }
}

/// The play queue after naturals are paid out: the non-natural hands from
/// the last better down to the first, so that the first better's hand sits
/// at the tail and acts first.
pub open spec fn queue_below(bets: Seq<(u32, u32)>, d: Seq<Card>, i: int) -> Seq<
    (PlayerId, Seq<Card>),
>
    decreases i,
{
    if i <= 0 {
        Seq::empty()
    } else {
        let n = bets.len() as int;
        let h = better_hand(d, n, i - 1);
        (if spec_is_natural(h) {
            Seq::empty()
        } else {
            seq![(PlayerId(bets[i - 1].0), h)]
        }) + queue_below(bets, d, i - 1)
    }
}

/// Whether the deck after the optional reshuffle can cover the deal.
pub open spec fn spec_cap(d: Seq<Card>) -> int {
    if d.len() < LOW_WATER {
        52
    } else {
        d.len() as int
    }
}

/// Starting a round is accepted only from the host, with at least one
/// wager recorded, and with enough cards to deal everyone.
pub open spec fn start_legal(pre: BlackjackV, bets: Seq<(u32, u32)>, pid: PlayerId) -> bool {
    pid.0 == 0 && bets.len() >= 1 && 2 * bets.len() + 2 <= spec_cap(pre.deck)
}

/// The deck the round is dealt from: unchanged when enough cards remain,
/// otherwise some fresh shuffled standard deck.
pub open spec fn deck_prepared(d0: Seq<Card>, d: Seq<Card>) -> bool {
    if d0.len() >= LOW_WATER {
        d == d0
    } else {
        d.len() == 52 && cards_distinct(d) && cards_in_range(d)
    }
}

impl Blackjack {
    pub open spec fn unchanged_out(pre: BlackjackV) -> ActionOut {
        ActionOut { bj: pre, replies: Seq::empty(), sends: Seq::empty() }
    }

    /// The end of a round: reveal the dealer's hole card and value, play
    /// the dealer out, settle every finished hand, and return to betting.
    pub open spec fn end_out(
        pre: BlackjackV,
        bets: Seq<(u32, u32)>,
        dealer: Seq<Card>,
        finished: Seq<(PlayerId, bool, u8)>,
    ) -> ActionOut {
        let r = dealer_play(pre.hit_soft_17, dealer, pre.deck);
        ActionOut {
            bj: BlackjackV {
                deck: r.1,
                hit_soft_17: pre.hit_soft_17,
                state: StateV::AwaitingBets { bets: Seq::empty() },
                dirty_deck: if r.1.len() == pre.deck.len() {
                    pre.dirty_deck
                } else {
                    true
                },
                seats: pre.seats,
            },
            replies: Seq::empty(),
            sends: seq![
                (None, CmdV::RevealDown(None, dealer[0]@)),
                (None, CmdV::ValueUpdate(None, hand_value(dealer) as u8, hand_soft(dealer))),
            ] + dealer_msgs(pre.hit_soft_17, dealer, pre.deck) + settle_msgs(
                finished,
                bets,
                hand_value(r.0),
                hand_value(r.0) > 21,
            ),
        }
    }

    /// Plays the dealer out and settles; see `end_out`. Leaves the engine
    /// awaiting bets.
    fn end_game(
        &mut self,
        bets: Vec<(u32, u32)>,
        mut dealer_hand: Hand,
        finished_hands: Vec<PlayedHand>,
        cmds: &mut CommandQueue,
    )
        requires
            old(self).deck.wf(),
            dealer_hand.wf(),
            dealer_hand@.len() == 2,
            bets_wf(bets@),
        ensures
            final(self).inv(),
            final(self)@ == Self::end_out(
                old(self)@,
                bets@,
                dealer_hand@,
                finished_hands@.map_values(|h: PlayedHand| (h.player, h.doubled, h.value)),
            ).bj,
            final(cmds)@.replies == old(cmds)@.replies,
            final(cmds)@.sends == old(cmds)@.sends + Self::end_out(
                old(self)@,
                bets@,
                dealer_hand@,
                finished_hands@.map_values(|h: PlayedHand| (h.player, h.doubled, h.value)),
            ).sends,
    {
        let ghost pre = self@;
        let ghost dealer0 = dealer_hand@;
        let ghost deck0 = self.deck@;
        let ghost h17 = pre.hit_soft_17;
        let ghost fview = finished_hands@.map_values(|h: PlayedHand| (h.player, h.doubled, h.value));
        let ghost out = Self::end_out(pre, bets@, dealer0, fview);
        let ghost replies0 = cmds@.replies;
        let ghost sends0 = cmds@.sends;

        let cards = dealer_hand.cards();
        let hole = cards[0];
        cmds.broadcast(Command::RevealDown(None, hole));
        cmds.broadcast(Command::ValueUpdate(None, dealer_hand.value(), dealer_hand.is_soft()));
        let ghost sends1 = cmds@.sends;
        let ghost mut emitted: Seq<Msg> = Seq::empty();
        proof {
            assert(sends1 =~= sends0 + seq![
                (None, CmdV::RevealDown(None, dealer0[0]@)),
                (None, CmdV::ValueUpdate(None, hand_value(dealer0) as u8, hand_soft(dealer0))),
            ]);
            assert(emitted + dealer_msgs(h17, dealer_hand@, self.deck@) =~= dealer_msgs(
                h17,
                dealer0,
                deck0,
            ));
        }
        while self.dealer.hits(&dealer_hand) && self.deck.size() > 0
            invariant
                self.deck.wf(),
                dealer_hand.wf(),
                dealer_hand@.len() >= 2,
                self@.hit_soft_17 == h17,
                self@.seats == pre.seats,
                self@.state == pre.state,
                dealer_play(h17, dealer0, deck0) == dealer_play(h17, dealer_hand@, self.deck@),
                dealer_msgs(h17, dealer0, deck0) == emitted + dealer_msgs(
                    h17,
                    dealer_hand@,
                    self.deck@,
                ),
                cmds@.replies == replies0,
                cmds@.sends == sends1 + emitted,
                self.deck@.len() == deck0.len() ==> self@.dirty_deck == pre.dirty_deck,
                self.deck@.len() != deck0.len() ==> self@.dirty_deck == true,
                self.deck@.len() <= deck0.len(),
            decreases self.deck@.len(),
        {
            let ghost hand_before = dealer_hand@;
            let ghost deck_before = self.deck@;
            let card = match draw_card(&mut self.deck, &mut self.dirty_deck) {
                Some(c) => c,
                None => {
                    proof {
                        assert(false);
                    }
                    Card::from_u8(0)
                },
            };
            proof {
                crate::hand::lemma_raw_sum_push(hand_before, card);
                assert(raw_sum(hand_before) <= hand_value(hand_before));
                assert(cards_distinct(self.deck@) && cards_in_range(self.deck@)) by {
                    assert(forall|i: int|
                        0 <= i < self.deck@.len() ==> #[trigger] self.deck@[i]
                            == deck_before.drop_last()[i]);
                    assert(forall|i: int|
                        0 <= i < deck_before.len() - 1 ==> #[trigger] deck_before.drop_last()[i]
                            == deck_before[i]);
                }
            }
            dealer_hand.add_card(card);
            cmds.broadcast(Command::DealerDraw(card));
            cmds.broadcast(
                Command::ValueUpdate(None, dealer_hand.value(), dealer_hand.is_soft()),
            );
            proof {
                let two: Seq<Msg> = seq![
                    (None, CmdV::DealerDraw(card@)),
                    (
                        None,
                        CmdV::ValueUpdate(
                            None,
                            hand_value(dealer_hand@) as u8,
                            hand_soft(dealer_hand@),
                        ),
                    ),
                ];
                assert(dealer_msgs(h17, hand_before, deck_before) == two + dealer_msgs(
                    h17,
                    dealer_hand@,
                    self.deck@,
                ));
                assert(emitted + (two + dealer_msgs(h17, dealer_hand@, self.deck@)) =~= (emitted
                    + two) + dealer_msgs(h17, dealer_hand@, self.deck@));
                assert(cmds@.sends =~= sends1 + (emitted + two));
                emitted = emitted + two;
            }
        }
        proof {
            assert(dealer_play(h17, dealer_hand@, self.deck@) == (dealer_hand@, self.deck@));
            assert(dealer_msgs(h17, dealer_hand@, self.deck@) =~= Seq::<Msg>::empty());
            assert(emitted + Seq::<Msg>::empty() =~= emitted);
            assert(emitted == dealer_msgs(h17, dealer0, deck0));
        }
        let final_dealer_value = dealer_hand.value();
        let dealer_bust = final_dealer_value > 21;
        let ghost dv = hand_value(dealer_play(h17, dealer0, deck0).0);
        let ghost bust = dv > 21;
        let ghost sends2 = cmds@.sends;
        let ghost mut settled: Seq<Msg> = Seq::empty();
        let mut i: usize = 0;
        proof {
            assert(fview.skip(0) =~= fview);
            assert(settled + settle_msgs(fview.skip(0), bets@, dv, bust) =~= settle_msgs(
                fview,
                bets@,
                dv,
                bust,
            ));
        }
        while i < finished_hands.len()
            invariant
                0 <= i <= finished_hands@.len(),
                fview == finished_hands@.map_values(
                    |h: PlayedHand| (h.player, h.doubled, h.value),
                ),
                bets_wf(bets@),
                dv == final_dealer_value as int,
                bust == dealer_bust,
                final_dealer_value as int == dv,
                settle_msgs(fview, bets@, dv, bust) == settled + settle_msgs(
                    fview.skip(i as int),
                    bets@,
                    dv,
                    bust,
                ),
                cmds@.replies == replies0,
                cmds@.sends == sends2 + settled,
            decreases finished_hands@.len() - i,
        {
            let ph = &finished_hands[i];
            let player = ph.player;
            let doubled = ph.doubled;
            let value = ph.value;
            let b = match bets_get(&bets, player.0) {
                Some(b) => b,
                None => 0,
            };
            proof {
                lemma_bet_or_zero_bound(bets@, player.0);
                assert(fview[i as int] == (player, doubled, value));
                assert(fview.skip(i as int)[0] == fview[i as int]);
                assert(fview.skip(i as int).skip(1) =~= fview.skip(i as int + 1));
            }
            let stake: u32 = if doubled {
                2 * b
            } else {
                b
            };
            let ghost group: Seq<Msg>;
            if dealer_bust || value > final_dealer_value {
                cmds.send_to(player, Command::SendMoney(2 * stake));
                cmds.send_to(player, Command::Win);
                proof {
                    group = seq![
                        (Some(player), CmdV::SendMoney((2 * stake) as u32)),
                        (Some(player), CmdV::Win),
                    ];
                }
            } else if value == final_dealer_value {
                cmds.send_to(player, Command::SendMoney(stake));
                cmds.send_to(player, Command::Draw);
                proof {
                    group = seq![
                        (Some(player), CmdV::SendMoney(stake)),
                        (Some(player), CmdV::Draw),
                    ];
                }
            } else {
                cmds.send_to(player, Command::Lose);
                proof {
                    group = seq![(Some(player), CmdV::Lose)];
                }
            }
            proof {
                assert(settle_msgs(fview.skip(i as int), bets@, dv, bust) == group + settle_msgs(
                    fview.skip(i as int + 1),
                    bets@,
                    dv,
                    bust,
                ));
                assert(settled + (group + settle_msgs(fview.skip(i as int + 1), bets@, dv, bust))
                    =~= (settled + group) + settle_msgs(fview.skip(i as int + 1), bets@, dv, bust));
                assert(cmds@.sends =~= sends2 + (settled + group));
                settled = settled + group;
            }
            i = i + 1;
        }
        proof {
            assert(fview.skip(fview.len() as int) =~= Seq::<(PlayerId, bool, u8)>::empty());
            assert(settled + Seq::<Msg>::empty() =~= settled);
            assert(settled == settle_msgs(fview, bets@, dv, bust));
        }
        self.state = State::AwaitingBets { bets: Vec::new() };
        proof {
            assert(self@.state =~~= out.bj.state);
            assert(self@ =~~= out.bj);
            assert(cmds@.sends =~= sends0 + out.sends);
        }
    }

    /// One dealt round from the prepared deck `d`: the deal broadcasts, then
    /// either immediate settlement under a dealer natural, or payout of
    /// player naturals and the transition to play (or straight back to
    /// betting when every hand was a natural).
    /// Everything broadcast while dealing: the round start, the deck-size
    /// note after a reshuffle, both deal passes, and the dealer's open card.
    pub open spec fn deal_msgs(pre: BlackjackV, bets: Seq<(u32, u32)>, d: Seq<Card>) -> Seq<Msg> {
        seq![(None, CmdV::Start)] + (if pre.deck.len() < LOW_WATER {
            seq![(None, CmdV::DeckSize(52))]
        } else {
            Seq::empty()
        }) + hole_msgs(bets, d, 0) + open_msgs(bets, d, 0) + dealer_open_msgs(
            d,
            bets.len() as int,
        )
    }

    pub open spec fn start_out(pre: BlackjackV, bets: Seq<(u32, u32)>, d: Seq<Card>) -> ActionOut {
        let n = bets.len() as int;
        let dealer = spec_dealer_hand(d, n);
        let deck2 = d.take(d.len() - (2 * n + 2));
        let sends_deal = Self::deal_msgs(pre, bets, d);
        if spec_is_natural(dealer) {
            ActionOut {
                bj: BlackjackV {
                    deck: deck2,
                    hit_soft_17: pre.hit_soft_17,
                    state: StateV::AwaitingBets { bets: Seq::empty() },
                    dirty_deck: true,
                    seats: pre.seats,
                },
                replies: Seq::empty(),
                sends: sends_deal + dealer_reveal_msgs(d, n) + natural_settle_msgs(bets, d, 0),
            }
        } else {
            let q = queue_below(bets, d, n);
            if q.len() == 0 {
                ActionOut {
                    bj: BlackjackV {
                        deck: deck2,
                        hit_soft_17: pre.hit_soft_17,
                        state: StateV::AwaitingBets { bets: Seq::empty() },
                        dirty_deck: true,
                        seats: pre.seats,
                    },
                    replies: Seq::empty(),
                    sends: sends_deal + payout_below(bets, d, n) + dealer_reveal_msgs(d, n),
                }
            } else {
                ActionOut {
                    bj: BlackjackV {
                        deck: deck2,
                        hit_soft_17: pre.hit_soft_17,
                        state: StateV::Playing {
                            bets,
                            dealer,
                            to_play: q,
                            finished: Seq::empty(),
                        },
                        dirty_deck: true,
                        seats: pre.seats,
                    },
                    replies: Seq::empty(),
                    sends: sends_deal + payout_below(bets, d, n) + seq![notify_msg(q)],
                }
            }
        }
    }

    /// Hitting: one card is drawn into the active hand; past 21 the hand
    /// is over and lost, with no settlement entry. An exhausted deck
    /// ignores the command; the reshuffle policy keeps that unreachable
    /// in ordinary play.
    pub open spec fn hit_out(pre: BlackjackV, pid: PlayerId) -> ActionOut {
        match pre.state {
            StateV::AwaitingBets { .. } => Self::unchanged_out(pre),
            StateV::Playing { bets, dealer, to_play, finished } => {
                if to_play.len() == 0 || to_play.last().0 != pid || pre.deck.len() == 0 {
                    Self::unchanged_out(pre)
                } else {
                    let card = pre.deck.last();
                    let deck1 = pre.deck.drop_last();
                    let hand1 = to_play.last().1.push(card);
                    let v = hand_value(hand1);
                    let sends0 = seq![
                        (None, CmdV::PlayerDraw(pid, card@)),
                        (None, CmdV::ValueUpdate(Some(pid), v as u8, hand_soft(hand1))),
                    ];
                    if v > 21 {
                        let rest = to_play.drop_last();
                        let replies = seq![status_wait_v(), CmdV::Lose];
                        if rest.len() == 0 {
                            let pre2 = BlackjackV { deck: deck1, dirty_deck: true, ..pre };
                            let e = Self::end_out(pre2, bets, dealer, finished);
                            ActionOut { bj: e.bj, replies, sends: sends0 + e.sends }
                        } else {
                            ActionOut {
                                bj: BlackjackV {
                                    deck: deck1,
                                    dirty_deck: true,
                                    state: StateV::Playing { bets, dealer, to_play: rest, finished },
                                    ..pre
                                },
                                replies,
                                sends: sends0.push(notify_msg(rest)),
                            }
                        }
                    } else {
                        ActionOut {
                            bj: BlackjackV {
                                deck: deck1,
                                dirty_deck: true,
                                state: StateV::Playing {
                                    bets,
                                    dealer,
                                    to_play: to_play.update(to_play.len() - 1, (pid, hand1)),
                                    finished,
                                },
                                ..pre
                            },
                            replies: seq![status_mid_hand_v()],
                            sends: sends0,
                        }
                    }
                }
            },
        }
    }

    /// Draws one card into the active hand; see `hit_out`.
    pub fn hit(&mut self, pid: PlayerId, cmds: &mut CommandQueue)
        requires
            old(self).inv(),
        ensures
            final(self).inv(),
            final(self)@ == Self::hit_out(old(self)@, pid).bj,
            final(cmds)@.replies == old(cmds)@.replies + Self::hit_out(old(self)@, pid).replies,
            final(cmds)@.sends == old(cmds)@.sends + Self::hit_out(old(self)@, pid).sends,
    {
        let ghost pre = self@;
        let ghost out = Self::hit_out(pre, pid);
        let mut state = State::AwaitingBets { bets: Vec::new() };
        core::mem::swap(&mut self.state, &mut state);
        match state {
            State::AwaitingBets { bets } => {
                self.state = State::AwaitingBets { bets };
                proof {
                    assert(self@ =~~= pre);
                    assert(cmds@.replies =~= cmds@.replies + out.replies);
                    assert(cmds@.sends =~= cmds@.sends + out.sends);
                }
            },
            State::PlayingInProgress { bets, dealer_hand, mut hands_to_play, mut finished_hands } => {
                let ghost tp0 = hands_to_play@.map_values(|h: PlayHand| (h.player, h.hand@));
                let ghost fv0 = finished_hands@.map_values(
                    |h: PlayedHand| (h.player, h.doubled, h.value),
                );
                proof {
                    assert(pre.state == StateV::Playing {
                        bets: bets@,
                        dealer: dealer_hand@,
                        to_play: tp0,
                        finished: fv0,
                    });
                }
                let n = hands_to_play.len();
                let active_player = hands_to_play[n - 1].player;
                if active_player != pid || self.deck.size() == 0 {
                    self.state = State::PlayingInProgress {
                        bets,
                        dealer_hand,
                        hands_to_play,
                        finished_hands,
                    };
                    proof {
                        assert(self@ =~~= pre);
                        assert(cmds@.replies =~= cmds@.replies + out.replies);
                        assert(cmds@.sends =~= cmds@.sends + out.sends);
                    }
                    return ;
                }
                let ghost replies0 = cmds@.replies;
                let ghost sends0 = cmds@.sends;
                let ghost deck0 = self.deck@;
                let mut ph = hands_to_play.pop().unwrap();
                let ghost hand0 = ph.hand@;
                let card = match draw_card(&mut self.deck, &mut self.dirty_deck) {
                    Some(c) => c,
                    None => {
                        proof {
                            assert(false);
                        }
                        Card::from_u8(0)
                    },
                };
                proof {
                    crate::hand::lemma_raw_sum_push(hand0, card);
                    assert(raw_sum(hand0) <= hand_value(hand0));
                    crate::card::lemma_drop_last_wf(deck0);
                }
                ph.hand.add_card(card);
                cmds.broadcast(Command::PlayerDraw(pid, card));
                let value = ph.hand.value();
                cmds.broadcast(Command::ValueUpdate(Some(pid), value, ph.hand.is_soft()));
                if value > 21 {
                    cmds.reply(Command::status_wait());
                    cmds.reply(Command::Lose);
                    proof {
                        assert(hands_to_play@.map_values(|h: PlayHand| (h.player, h.hand@))
                            =~= tp0.drop_last());
                    }
                    if hands_to_play.len() == 0 {
                        self.end_game(bets, dealer_hand, finished_hands, cmds);
                        proof {
                            assert(self@ =~~= out.bj);
                            assert(cmds@.replies =~= replies0 + out.replies);
                            assert(cmds@.sends =~= sends0 + out.sends);
                        }
                    } else {
                        notify_new_hand(&hands_to_play, cmds);
                        self.state = State::PlayingInProgress {
                            bets,
                            dealer_hand,
                            hands_to_play,
                            finished_hands,
                        };
                        proof {
                            assert(self@ =~~= out.bj);
                            assert(cmds@.replies =~= replies0 + out.replies);
                            assert(cmds@.sends =~= sends0 + out.sends);
                        }
                    }
                } else {
                    hands_to_play.push(ph);
                    self.state = State::PlayingInProgress {
                        bets,
                        dealer_hand,
                        hands_to_play,
                        finished_hands,
                    };
                    cmds.reply(Command::status_mid_hand());
                    proof {
                        assert(hands_to_play@.map_values(|h: PlayHand| (h.player, h.hand@))
                            =~= tp0.update(tp0.len() - 1, (pid, hand0.push(card))));
                        assert(self@ =~~= out.bj);
                        assert(cmds@.replies =~= replies0 + out.replies);
                        assert(cmds@.sends =~= sends0 + out.sends);
                    }
                }
            },
        }
    }

    /// Doubling down: legal only on a two-card hand with cards remaining;
    /// the wager is debited a second time, exactly one card is drawn, and
    /// the hand is over (lost if bust, kept doubled otherwise). On a hand
    /// with more cards the command is illegal and silently ignored.
    pub open spec fn double_out(pre: BlackjackV, pid: PlayerId) -> ActionOut {
        match pre.state {
            StateV::AwaitingBets { .. } => Self::unchanged_out(pre),
            StateV::Playing { bets, dealer, to_play, finished } => {
                if to_play.len() == 0 || to_play.last().0 != pid {
                    Self::unchanged_out(pre)
                } else if to_play.last().1.len() != 2 {
                    Self::unchanged_out(pre)
                } else if pre.deck.len() == 0 {
                    Self::unchanged_out(pre)
                } else {
                    let b = bet_or_zero(bets, pid.0);
                    let card = pre.deck.last();
                    let deck1 = pre.deck.drop_last();
                    let hand1 = to_play.last().1.push(card);
                    let v = hand_value(hand1);
                    let lost = v > 21;
                    let replies = seq![CmdV::TakeMoney(b), status_wait_v()] + (if lost {
                        seq![CmdV::Lose]
                    } else {
                        Seq::empty()
                    });
                    let sends0 = seq![
                        (None, CmdV::PlayerDraw(pid, card@)),
                        (None, CmdV::ValueUpdate(Some(pid), v as u8, hand_soft(hand1))),
                    ];
                    let finished2 = if lost {
                        finished
                    } else {
                        finished.push((pid, true, v as u8))
                    };
                    let rest = to_play.drop_last();
                    if rest.len() == 0 {
                        let pre2 = BlackjackV { deck: deck1, dirty_deck: true, ..pre };
                        let e = Self::end_out(pre2, bets, dealer, finished2);
                        ActionOut { bj: e.bj, replies, sends: sends0 + e.sends }
                    } else {
                        ActionOut {
                            bj: BlackjackV {
                                deck: deck1,
                                dirty_deck: true,
                                state: StateV::Playing {
                                    bets,
                                    dealer,
                                    to_play: rest,
                                    finished: finished2,
                                },
                                ..pre
                            },
                            replies,
                            sends: sends0.push(notify_msg(rest)),
                        }
                    }
                }
            },
        }
    }

    /// Doubles down on the active hand; see `double_out`.
    pub fn double_down(&mut self, pid: PlayerId, cmds: &mut CommandQueue)
        requires
            old(self).inv(),
        ensures
            final(self).inv(),
            final(self)@ == Self::double_out(old(self)@, pid).bj,
            final(cmds)@.replies == old(cmds)@.replies + Self::double_out(old(self)@, pid).replies,
            final(cmds)@.sends == old(cmds)@.sends + Self::double_out(old(self)@, pid).sends,
    {
        let ghost pre = self@;
        let ghost out = Self::double_out(pre, pid);
        let mut state = State::AwaitingBets { bets: Vec::new() };
        core::mem::swap(&mut self.state, &mut state);
        match state {
            State::AwaitingBets { bets } => {
                self.state = State::AwaitingBets { bets };
                proof {
                    assert(self@ =~~= pre);
                    assert(cmds@.replies =~= cmds@.replies + out.replies);
                    assert(cmds@.sends =~= cmds@.sends + out.sends);
                }
            },
            State::PlayingInProgress { bets, dealer_hand, mut hands_to_play, mut finished_hands } => {
                let ghost tp0 = hands_to_play@.map_values(|h: PlayHand| (h.player, h.hand@));
                let ghost fv0 = finished_hands@.map_values(
                    |h: PlayedHand| (h.player, h.doubled, h.value),
                );
                proof {
                    assert(pre.state == StateV::Playing {
                        bets: bets@,
                        dealer: dealer_hand@,
                        to_play: tp0,
                        finished: fv0,
                    });
                }
                let n = hands_to_play.len();
                let active_player = hands_to_play[n - 1].player;
                if active_player != pid {
                    self.state = State::PlayingInProgress {
                        bets,
                        dealer_hand,
                        hands_to_play,
                        finished_hands,
                    };
                    proof {
                        assert(self@ =~~= pre);
                        assert(cmds@.replies =~= cmds@.replies + out.replies);
                        assert(cmds@.sends =~= cmds@.sends + out.sends);
                    }
                    return ;
                }
                let active_len = hands_to_play[n - 1].hand.cards().len();
                if active_len != 2 {
                    self.state = State::PlayingInProgress {
                        bets,
                        dealer_hand,
                        hands_to_play,
                        finished_hands,
                    };
                    proof {
                        assert(self@ =~~= pre);
                        assert(cmds@.replies =~= cmds@.replies + out.replies);
                        assert(cmds@.sends =~= cmds@.sends + out.sends);
                    }
                    return ;
                }
                if self.deck.size() == 0 {
                    self.state = State::PlayingInProgress {
                        bets,
                        dealer_hand,
                        hands_to_play,
                        finished_hands,
                    };
                    proof {
                        assert(self@ =~~= pre);
                        assert(cmds@.replies =~= cmds@.replies + out.replies);
                        assert(cmds@.sends =~= cmds@.sends + out.sends);
                    }
                    return ;
                }
                let ghost replies0 = cmds@.replies;
                let ghost sends0 = cmds@.sends;
                let ghost deck0 = self.deck@;
                let b = match bets_get(&bets, pid.0) {
                    Some(b) => b,
                    None => 0,
                };
                cmds.reply(Command::TakeMoney(b));
                let mut ph = hands_to_play.pop().unwrap();
                let ghost hand0 = ph.hand@;
                let card = match draw_card(&mut self.deck, &mut self.dirty_deck) {
                    Some(c) => c,
                    None => {
                        proof {
                            assert(false);
                        }
                        Card::from_u8(0)
                    },
                };
                proof {
                    crate::hand::lemma_raw_sum_push(hand0, card);
                    assert(raw_sum(hand0) <= hand_value(hand0));
                    crate::card::lemma_drop_last_wf(deck0);
                }
                ph.hand.add_card(card);
                cmds.broadcast(Command::PlayerDraw(pid, card));
                let value = ph.hand.value();
                cmds.broadcast(Command::ValueUpdate(Some(pid), value, ph.hand.is_soft()));
                cmds.reply(Command::status_wait());
                let lost = value > 21;
                if lost {
                    cmds.reply(Command::Lose);
                } else {
                    finished_hands.push(PlayedHand { player: pid, doubled: true, value });
                }
                proof {
                    assert(hands_to_play@.map_values(|h: PlayHand| (h.player, h.hand@))
                        =~= tp0.drop_last());
                    if !lost {
                        assert(finished_hands@.map_values(
                            |h: PlayedHand| (h.player, h.doubled, h.value),
                        ) =~= fv0.push((pid, true, hand_value(hand0.push(card)) as u8)));
                    }
                }
                if hands_to_play.len() == 0 {
                    self.end_game(bets, dealer_hand, finished_hands, cmds);
                    proof {
                        assert(self@ =~~= out.bj);
                        assert(cmds@.replies =~= replies0 + out.replies);
                        assert(cmds@.sends =~= sends0 + out.sends);
                    }
                } else {
                    notify_new_hand(&hands_to_play, cmds);
                    self.state = State::PlayingInProgress {
                        bets,
                        dealer_hand,
                        hands_to_play,
                        finished_hands,
                    };
                    proof {
                        assert(self@ =~~= out.bj);
                        assert(cmds@.replies =~= replies0 + out.replies);
                        assert(cmds@.sends =~= sends0 + out.sends);
                    }
                }
            },
        }
    }

    /// Splitting: legal only on a pair (two cards of one rank, with two
    /// cards left in the deck). The active hand keeps its first card and
    /// draws one; the second card starts a new hand that also draws one
    /// and plays immediately after the current hand finishes.
    pub open spec fn split_out(pre: BlackjackV, pid: PlayerId) -> ActionOut {
        match pre.state {
            StateV::AwaitingBets { .. } => Self::unchanged_out(pre),
            StateV::Playing { bets, dealer, to_play, finished } => {
                if to_play.len() == 0 || to_play.last().0 != pid {
                    Self::unchanged_out(pre)
                } else if to_play.last().1.len() != 2 || !same_rank(
                    to_play.last().1[0],
                    to_play.last().1[1],
                ) {
                    Self::unchanged_out(pre)
                } else if pre.deck.len() < 2 {
                    Self::unchanged_out(pre)
                } else {
                    let one = to_play.last().1[0];
                    let two = to_play.last().1[1];
                    let c1 = pre.deck.last();
                    let d1 = pre.deck.drop_last();
                    let c2 = d1.last();
                    let d2 = d1.drop_last();
                    let cur = seq![one, c1];
                    let newh = seq![two, c2];
                    ActionOut {
                        bj: BlackjackV {
                            deck: d2,
                            dirty_deck: true,
                            state: StateV::Playing {
                                bets,
                                dealer,
                                to_play: to_play.drop_last().push((pid, newh)).push((pid, cur)),
                                finished,
                            },
                            ..pre
                        },
                        replies: seq![status_new_v(same_rank(one, c1))],
                        sends: seq![
                            (None, CmdV::PlayerDraw(pid, c1@)),
                            (
                                None,
                                CmdV::ValueUpdate(
                                    Some(pid),
                                    hand_value(cur) as u8,
                                    hand_soft(cur),
                                ),
                            ),
                            (None, CmdV::PlayerDraw(pid, c2@)),
                        ],
                    }
                }
            },
        }
    }

    /// Splits the active pair; see `split_out`.
    pub fn split(&mut self, pid: PlayerId, cmds: &mut CommandQueue)
        requires
            old(self).inv(),
        ensures
            final(self).inv(),
            final(self)@ == Self::split_out(old(self)@, pid).bj,
            final(cmds)@.replies == old(cmds)@.replies + Self::split_out(old(self)@, pid).replies,
            final(cmds)@.sends == old(cmds)@.sends + Self::split_out(old(self)@, pid).sends,
    {
        let ghost pre = self@;
        let ghost out = Self::split_out(pre, pid);
        let mut state = State::AwaitingBets { bets: Vec::new() };
        core::mem::swap(&mut self.state, &mut state);
        match state {
            State::AwaitingBets { bets } => {
                self.state = State::AwaitingBets { bets };
                proof {
                    assert(self@ =~~= pre);
                    assert(cmds@.replies =~= cmds@.replies + out.replies);
                    assert(cmds@.sends =~= cmds@.sends + out.sends);
                }
            },
            State::PlayingInProgress { bets, dealer_hand, mut hands_to_play, finished_hands } => {
                let ghost tp0 = hands_to_play@.map_values(|h: PlayHand| (h.player, h.hand@));
                let ghost fv0 = finished_hands@.map_values(
                    |h: PlayedHand| (h.player, h.doubled, h.value),
                );
                proof {
                    assert(pre.state == StateV::Playing {
                        bets: bets@,
                        dealer: dealer_hand@,
                        to_play: tp0,
                        finished: fv0,
                    });
                }
                let n = hands_to_play.len();
                let active_player = hands_to_play[n - 1].player;
                let active_len = hands_to_play[n - 1].hand.cards().len();
                if active_player != pid || active_len != 2 {
                    self.state = State::PlayingInProgress {
                        bets,
                        dealer_hand,
                        hands_to_play,
                        finished_hands,
                    };
                    proof {
                        assert(self@ =~~= pre);
                        assert(cmds@.replies =~= cmds@.replies + out.replies);
                        assert(cmds@.sends =~= cmds@.sends + out.sends);
                    }
                    return ;
                }
                let one = hands_to_play[n - 1].hand.cards()[0];
                let two = hands_to_play[n - 1].hand.cards()[1];
                if one.into_u8() % 13 != two.into_u8() % 13 || self.deck.size() < 2 {
                    self.state = State::PlayingInProgress {
                        bets,
                        dealer_hand,
                        hands_to_play,
                        finished_hands,
                    };
                    proof {
                        assert(self@ =~~= pre);
                        assert(cmds@.replies =~= cmds@.replies + out.replies);
                        assert(cmds@.sends =~= cmds@.sends + out.sends);
                    }
                    return ;
                }
                let ghost replies0 = cmds@.replies;
                let ghost sends0 = cmds@.sends;
                let ghost deck0 = self.deck@;
                let mut ph = hands_to_play.pop().unwrap();
                let card1 = match draw_card(&mut self.deck, &mut self.dirty_deck) {
                    Some(c) => c,
                    None => {
                        proof {
                            assert(false);
                        }
                        Card::from_u8(0)
                    },
                };
                proof {
                    crate::card::lemma_drop_last_wf(deck0);
                    crate::hand::lemma_two_card_value(one, card1);
                    assert(seq![one].push(card1) =~= seq![one, card1]);
                    assert(raw_sum(seq![one]) <= 10) by {
                        assert(seq![one].drop_last() =~= Seq::<Card>::empty());
                        assert(raw_sum(Seq::<Card>::empty()) == 0);
                        crate::hand::lemma_raw_sum_push(Seq::<Card>::empty(), one);
                        assert(Seq::<Card>::empty().push(one) =~= seq![one]);
                    }
                }
                let arr1 = [one];
                proof {
                    assert(arr1@ =~= seq![one]);
                }
                ph.hand = Hand::new(&arr1);
                ph.hand.add_card(card1);
                cmds.broadcast(Command::PlayerDraw(pid, card1));
                cmds.broadcast(Command::ValueUpdate(Some(pid), ph.hand.value(), ph.hand.is_soft()));
                let split_again = one.into_u8() % 13 == card1.into_u8() % 13;
                let ghost deck1 = self.deck@;
                let card2 = match draw_card(&mut self.deck, &mut self.dirty_deck) {
                    Some(c) => c,
                    None => {
                        proof {
                            assert(false);
                        }
                        Card::from_u8(0)
                    },
                };
                proof {
                    crate::card::lemma_drop_last_wf(deck1);
                    crate::hand::lemma_two_card_value(two, card2);
                }
                cmds.broadcast(Command::PlayerDraw(pid, card2));
                let arr2 = [two, card2];
                proof {
                    assert(arr2@ =~= seq![two, card2]);
                }
                let new_hand = Hand::new(&arr2);
                hands_to_play.push(PlayHand { player: pid, hand: new_hand });
                hands_to_play.push(ph);
                self.state = State::PlayingInProgress {
                    bets,
                    dealer_hand,
                    hands_to_play,
                    finished_hands,
                };
                cmds.reply(Command::status_new(split_again));
                proof {
                    assert(hands_to_play@.map_values(|h: PlayHand| (h.player, h.hand@))
                        =~= tp0.drop_last().push((pid, seq![two, card2])).push(
                        (pid, seq![one, card1]),
                    ));
                    assert(self@ =~~= out.bj);
                    assert(cmds@.replies =~= replies0 + out.replies);
                    assert(cmds@.sends =~= sends0 + out.sends);
                }
            },
        }
    }

    /// Deals each better their private hole card (with its one-card value)
    /// from the prepared deck `d`, drawing from the end.
    fn deal_holes(
        &mut self,
        betsv: &Vec<(u32, u32)>,
        cmds: &mut CommandQueue,
        Ghost(d): Ghost<Seq<Card>>,
    ) -> (holes: Vec<Card>)
        requires
            old(self).deck@ == d,
            cards_distinct(d),
            cards_in_range(d),
            betsv@.len() >= 1,
            2 * betsv@.len() + 2 <= d.len(),
        ensures
            final(self)@ == (BlackjackV {
                deck: d.take(d.len() - betsv@.len()),
                dirty_deck: true,
                ..old(self)@
            }),
            holes@.len() == betsv@.len(),
            forall|j: int| 0 <= j < holes@.len() ==> holes@[j] == hole_card(d, j),
            final(cmds)@.replies == old(cmds)@.replies,
            final(cmds)@.sends == old(cmds)@.sends + hole_msgs(betsv@, d, 0),
    {
        let ghost pre = self@;
        let ghost n = betsv@.len() as int;
        let ghost replies0 = cmds@.replies;
        let ghost sends0 = cmds@.sends;
        let mut holes: Vec<Card> = Vec::new();
        let mut i: usize = 0;
        let ghost mut emitted: Seq<Msg> = Seq::empty();
        proof {
            assert(self.deck@ =~= d.take(d.len() as int - 0));
            assert(emitted + hole_msgs(betsv@, d, 0) =~= hole_msgs(betsv@, d, 0));
        }
        while i < betsv.len()
            invariant
                0 <= i <= betsv@.len(),
                n == betsv@.len(),
                2 * n + 2 <= d.len(),
                self.deck@ == d.take(d.len() - i as int),
                self@.hit_soft_17 == pre.hit_soft_17,
                self@.seats == pre.seats,
                self@.state == pre.state,
                i > 0 ==> self@.dirty_deck,
                i == 0 ==> self@.dirty_deck == pre.dirty_deck,
                holes@.len() == i,
                forall|j: int| 0 <= j < i ==> holes@[j] == hole_card(d, j),
                cmds@.replies == replies0,
                cmds@.sends == sends0 + emitted,
                hole_msgs(betsv@, d, 0) == emitted + hole_msgs(betsv@, d, i as int),
            decreases betsv@.len() - i,
        {
            let e = betsv[i];
            let p = PlayerId(e.0);
            let ghost deck_before = self.deck@;
            let card = match draw_card(&mut self.deck, &mut self.dirty_deck) {
                Some(c) => c,
                None => {
                    proof {
                        assert(false);
                    }
                    Card::from_u8(0)
                },
            };
            proof {
                assert(deck_before.last() == d[d.len() - 1 - i as int]);
                assert(card == hole_card(d, i as int));
                assert(self.deck@ =~= d.take(d.len() - (i as int + 1)));
                crate::hand::lemma_raw_sum_push(Seq::<Card>::empty(), card);
                assert(Seq::<Card>::empty().push(card) =~= seq![card]);
            }
            cmds.send_to(p, Command::DownCard(card));
            let arr = [card];
            proof {
                assert(arr@ =~= seq![card]);
            }
            let h = Hand::new(&arr);
            cmds.send_to(p, Command::ValueUpdate(Some(p), h.value(), h.is_soft()));
            holes.push(card);
            proof {
                let two: Seq<Msg> = seq![
                    (Some(p), CmdV::DownCard(card@)),
                    (
                        Some(p),
                        CmdV::ValueUpdate(
                            Some(p),
                            hand_value(seq![card]) as u8,
                            hand_soft(seq![card]),
                        ),
                    ),
                ];
                assert(hole_msgs(betsv@, d, i as int) == two + hole_msgs(betsv@, d, i as int + 1));
                assert(emitted + (two + hole_msgs(betsv@, d, i as int + 1)) =~= (emitted + two)
                    + hole_msgs(betsv@, d, i as int + 1));
                assert(cmds@.sends =~= sends0 + (emitted + two));
                emitted = emitted + two;
            }
            i = i + 1;
        }
        proof {
            assert(hole_msgs(betsv@, d, n) =~= Seq::<Msg>::empty());
            assert(emitted + Seq::<Msg>::empty() =~= emitted);
            assert(self@ =~~= (BlackjackV {
                deck: d.take(d.len() - betsv@.len()),
                dirty_deck: true,
                ..pre
            }));
        }
        holes
    }

    /// Deals each better their open card, broadcasting it and its one-card
    /// value and privately sending the full two-card value; returns the
    /// two-card hands.
    fn deal_opens(
        &mut self,
        betsv: &Vec<(u32, u32)>,
        holes: &Vec<Card>,
        cmds: &mut CommandQueue,
        Ghost(d): Ghost<Seq<Card>>,
    ) -> (hands: Vec<Hand>)
        requires
            old(self).deck@ == d.take(d.len() - (betsv@.len() + 1)),
            betsv@.len() >= 1,
            2 * betsv@.len() + 2 <= d.len(),
            holes@.len() == betsv@.len(),
            forall|j: int| 0 <= j < holes@.len() ==> holes@[j] == hole_card(d, j),
        ensures
            final(self)@ == (BlackjackV {
                deck: d.take(d.len() - (2 * betsv@.len() + 1)),
                dirty_deck: true,
                ..old(self)@
            }),
            hands@.len() == betsv@.len(),
            forall|j: int|
                0 <= j < hands@.len() ==> (#[trigger] hands@[j]).wf() && hands@[j]@ == better_hand(
                    d,
                    betsv@.len() as int,
                    j,
                ),
            final(cmds)@.replies == old(cmds)@.replies,
            final(cmds)@.sends == old(cmds)@.sends + open_msgs(betsv@, d, 0),
    {
        let ghost pre = self@;
        let ghost n = betsv@.len() as int;
        let ghost replies0 = cmds@.replies;
        let ghost sends0 = cmds@.sends;
        let mut hands: Vec<Hand> = Vec::new();
        let mut i: usize = 0;
        let ghost mut emitted: Seq<Msg> = Seq::empty();
        proof {
            assert(emitted + open_msgs(betsv@, d, 0) =~= open_msgs(betsv@, d, 0));
        }
        while i < betsv.len()
            invariant
                0 <= i <= betsv@.len(),
                n == betsv@.len(),
                2 * n + 2 <= d.len(),
                self.deck@ == d.take(d.len() - (n + 1) - i as int),
                self@.hit_soft_17 == pre.hit_soft_17,
                self@.seats == pre.seats,
                self@.state == pre.state,
                i > 0 ==> self@.dirty_deck,
                i == 0 ==> self@.dirty_deck == pre.dirty_deck,
                holes@.len() == n,
                forall|j: int| 0 <= j < n ==> holes@[j] == hole_card(d, j),
                hands@.len() == i,
                forall|j: int|
                    0 <= j < i ==> (#[trigger] hands@[j]).wf() && hands@[j]@ == better_hand(
                        d,
                        n,
                        j,
                    ),
                cmds@.replies == replies0,
                cmds@.sends == sends0 + emitted,
                open_msgs(betsv@, d, 0) == emitted + open_msgs(betsv@, d, i as int),
            decreases betsv@.len() - i,
        {
            let e = betsv[i];
            let p = PlayerId(e.0);
            let ghost deck_before = self.deck@;
            let card = match draw_card(&mut self.deck, &mut self.dirty_deck) {
                Some(c) => c,
                None => {
                    proof {
                        assert(false);
                    }
                    Card::from_u8(0)
                },
            };
            proof {
                assert(deck_before.last() == d[d.len() - 2 - n - i as int]);
                assert(card == open_card(d, n, i as int));
                assert(self.deck@ =~= d.take(d.len() - (n + 1) - (i as int + 1)));
                crate::hand::lemma_raw_sum_push(Seq::<Card>::empty(), card);
                assert(Seq::<Card>::empty().push(card) =~= seq![card]);
                crate::hand::lemma_two_card_value(holes@[i as int], card);
            }
            cmds.broadcast(Command::PlayerDraw(p, card));
            let arr1 = [card];
            proof {
                assert(arr1@ =~= seq![card]);
            }
            let oh = Hand::new(&arr1);
            cmds.broadcast(Command::ValueUpdate(Some(p), oh.value(), oh.is_soft()));
            let hole = holes[i];
            let arr2 = [hole, card];
            proof {
                assert(arr2@ =~= seq![hole, card]);
            }
            let h = Hand::new(&arr2);
            cmds.send_to(p, Command::ValueUpdate(Some(p), h.value(), h.is_soft()));
            hands.push(h);
            proof {
                assert(h@ =~= better_hand(d, n, i as int));
                let three: Seq<Msg> = seq![
                    (None, CmdV::PlayerDraw(p, card@)),
                    (
                        None,
                        CmdV::ValueUpdate(
                            Some(p),
                            hand_value(seq![card]) as u8,
                            hand_soft(seq![card]),
                        ),
                    ),
                    (
                        Some(p),
                        CmdV::ValueUpdate(
                            Some(p),
                            hand_value(better_hand(d, n, i as int)) as u8,
                            hand_soft(better_hand(d, n, i as int)),
                        ),
                    ),
                ];
                assert(open_msgs(betsv@, d, i as int) == three + open_msgs(
                    betsv@,
                    d,
                    i as int + 1,
                ));
                assert(emitted + (three + open_msgs(betsv@, d, i as int + 1)) =~= (emitted + three)
                    + open_msgs(betsv@, d, i as int + 1));
                assert(cmds@.sends =~= sends0 + (emitted + three));
                emitted = emitted + three;
            }
            i = i + 1;
        }
        proof {
            assert(open_msgs(betsv@, d, n) =~= Seq::<Msg>::empty());
            assert(emitted + Seq::<Msg>::empty() =~= emitted);
            assert(self@ =~~= (BlackjackV {
                deck: d.take(d.len() - (2 * betsv@.len() + 1)),
                dirty_deck: true,
                ..pre
            }));
        }
        hands
    }

    /// Settlement under a dealer natural: every hand is revealed; player
    /// naturals push, everything else loses.
    fn settle_dealer_natural(
        betsv: &Vec<(u32, u32)>,
        holes: &Vec<Card>,
        hands: &Vec<Hand>,
        cmds: &mut CommandQueue,
        Ghost(d): Ghost<Seq<Card>>,
    )
        requires
            2 * betsv@.len() + 2 <= d.len(),
            holes@.len() == betsv@.len(),
            forall|j: int| 0 <= j < holes@.len() ==> holes@[j] == hole_card(d, j),
            hands@.len() == betsv@.len(),
            forall|j: int|
                0 <= j < hands@.len() ==> (#[trigger] hands@[j]).wf() && hands@[j]@ == better_hand(
                    d,
                    betsv@.len() as int,
                    j,
                ),
        ensures
            final(cmds)@.replies == old(cmds)@.replies,
            final(cmds)@.sends == old(cmds)@.sends + natural_settle_msgs(betsv@, d, 0),
    {
        let ghost n = betsv@.len() as int;
        let ghost replies0 = cmds@.replies;
        let ghost sends0 = cmds@.sends;
        let mut k: usize = 0;
        let ghost mut emitted: Seq<Msg> = Seq::empty();
        proof {
            assert(emitted + natural_settle_msgs(betsv@, d, 0) =~= natural_settle_msgs(
                betsv@,
                d,
                0,
            ));
        }
        while k < betsv.len()
            invariant
                0 <= k <= betsv@.len(),
                n == betsv@.len(),
                2 * n + 2 <= d.len(),
                holes@.len() == n,
                forall|j: int| 0 <= j < n ==> holes@[j] == hole_card(d, j),
                hands@.len() == n,
                forall|j: int|
                    0 <= j < n ==> (#[trigger] hands@[j]).wf() && hands@[j]@ == better_hand(
                        d,
                        n,
                        j,
                    ),
                cmds@.replies == replies0,
                cmds@.sends == sends0 + emitted,
                natural_settle_msgs(betsv@, d, 0) == emitted + natural_settle_msgs(
                    betsv@,
                    d,
                    k as int,
                ),
            decreases betsv@.len() - k,
        {
            let e = betsv[k];
            let p = PlayerId(e.0);
            let hole = holes[k];
            cmds.broadcast(Command::RevealDown(Some(p), hole));
            let hv = hands[k].value();
            let hs = hands[k].is_soft();
            cmds.broadcast(Command::ValueUpdate(Some(p), hv, hs));
            let natural = hands[k].is_natural();
            let ghost group: Seq<Msg>;
            if natural {
                cmds.send_to(p, Command::SendMoney(e.1));
                cmds.send_to(p, Command::Draw);
                proof {
                    group = seq![(Some(p), CmdV::SendMoney(e.1)), (Some(p), CmdV::Draw)];
                }
            } else {
                cmds.send_to(p, Command::Lose);
                proof {
                    group = seq![(Some(p), CmdV::Lose)];
                }
            }
            proof {
                let h = better_hand(d, n, k as int);
                let two: Seq<Msg> = seq![
                    (None, CmdV::RevealDown(Some(p), hole_card(d, k as int)@)),
                    (None, CmdV::ValueUpdate(Some(p), hand_value(h) as u8, hand_soft(h))),
                ];
                assert(natural_settle_msgs(betsv@, d, k as int) == (two + group)
                    + natural_settle_msgs(betsv@, d, k as int + 1));
                assert(emitted + ((two + group) + natural_settle_msgs(betsv@, d, k as int + 1))
                    =~= (emitted + (two + group)) + natural_settle_msgs(betsv@, d, k as int + 1));
                assert(cmds@.sends =~= sends0 + (emitted + (two + group)));
                emitted = emitted + (two + group);
            }
            k = k + 1;
        }
        proof {
            assert(natural_settle_msgs(betsv@, d, n) =~= Seq::<Msg>::empty());
            assert(emitted + Seq::<Msg>::empty() =~= emitted);
        }
    }

    /// With no dealer natural: walk the betters from the last to the
    /// first, paying naturals two-and-a-half times their wager at once and
    /// queueing every other hand for play (so the first better's hand ends
    /// up at the tail and acts first).
    fn payout_naturals(
        betsv: &Vec<(u32, u32)>,
        holes: &Vec<Card>,
        mut hands: Vec<Hand>,
        cmds: &mut CommandQueue,
        Ghost(d): Ghost<Seq<Card>>,
    ) -> (to_play: Vec<PlayHand>)
        requires
            bets_wf(betsv@),
            2 * betsv@.len() + 2 <= d.len(),
            holes@.len() == betsv@.len(),
            forall|j: int| 0 <= j < holes@.len() ==> holes@[j] == hole_card(d, j),
            hands@.len() == betsv@.len(),
            forall|j: int|
                0 <= j < hands@.len() ==> (#[trigger] hands@[j]).wf() && hands@[j]@ == better_hand(
                    d,
                    betsv@.len() as int,
                    j,
                ),
        ensures
            to_play@.map_values(|h: PlayHand| (h.player, h.hand@)) == queue_below(
                betsv@,
                d,
                betsv@.len() as int,
            ),
            forall|j: int|
                0 <= j < to_play@.len() ==> {
                    let ph = #[trigger] to_play@[j];
                    &&& ph.hand.wf()
                    &&& ph.hand@.len() == 2
                    &&& hand_value(ph.hand@) <= 21
                    &&& bet_of(betsv@, ph.player.0) is Some
                },
            final(cmds)@.replies == old(cmds)@.replies,
            final(cmds)@.sends == old(cmds)@.sends + payout_below(
                betsv@,
                d,
                betsv@.len() as int,
            ),
    {
        let ghost n = betsv@.len() as int;
        let ghost replies0 = cmds@.replies;
        let ghost sends0 = cmds@.sends;
        let mut to_play: Vec<PlayHand> = Vec::new();
        let mut k = betsv.len();
        let ghost mut emitted: Seq<Msg> = Seq::empty();
        proof {
            assert(emitted + payout_below(betsv@, d, n) =~= payout_below(betsv@, d, n));
            assert(to_play@.map_values(|h: PlayHand| (h.player, h.hand@)) + queue_below(
                betsv@,
                d,
                n,
            ) =~= queue_below(betsv@, d, n));
        }
        while k > 0
            invariant
                0 <= k <= betsv@.len(),
                n == betsv@.len(),
                2 * n + 2 <= d.len(),
                bets_wf(betsv@),
                holes@.len() == n,
                forall|j: int| 0 <= j < n ==> holes@[j] == hole_card(d, j),
                hands@.len() == k,
                forall|j: int|
                    0 <= j < k ==> (#[trigger] hands@[j]).wf() && hands@[j]@ == better_hand(
                        d,
                        n,
                        j,
                    ),
                cmds@.replies == replies0,
                cmds@.sends == sends0 + emitted,
                payout_below(betsv@, d, n) == emitted + payout_below(betsv@, d, k as int),
                to_play@.map_values(|h: PlayHand| (h.player, h.hand@)) + queue_below(
                    betsv@,
                    d,
                    k as int,
                ) == queue_below(betsv@, d, n),
                forall|j: int|
                    0 <= j < to_play@.len() ==> {
                        let ph = #[trigger] to_play@[j];
                        &&& ph.hand.wf()
                        &&& ph.hand@.len() == 2
                        &&& hand_value(ph.hand@) <= 21
                        &&& bet_of(betsv@, ph.player.0) is Some
                    },
            decreases k,
        {
            k = k - 1;
            let h = hands.pop().unwrap();
            let e = betsv[k];
            let p = PlayerId(e.0);
            let ghost group: Seq<Msg>;
            proof {
                crate::hand::lemma_two_card_value(hole_card(d, k as int), open_card(d, n, k as int));
                lemma_bet_of_index(betsv@, k as int);
            }
            if h.is_natural() {
                let hole = holes[k];
                cmds.broadcast(Command::RevealDown(Some(p), hole));
                cmds.broadcast(Command::ValueUpdate(Some(p), h.value(), h.is_soft()));
                cmds.send_to(p, Command::SendMoney(2 * e.1 + e.1 / 2));
                cmds.send_to(p, Command::Win);
                proof {
                    let bh = better_hand(d, n, k as int);
                    group = seq![
                        (None, CmdV::RevealDown(Some(p), hole_card(d, k as int)@)),
                        (None, CmdV::ValueUpdate(Some(p), hand_value(bh) as u8, hand_soft(bh))),
                        (Some(p), CmdV::SendMoney((2 * e.1 + e.1 / 2) as u32)),
                        (Some(p), CmdV::Win),
                    ];
                    assert(to_play@.map_values(|hh: PlayHand| (hh.player, hh.hand@)) + queue_below(
                        betsv@,
                        d,
                        k as int,
                    ) =~= queue_below(betsv@, d, n));
                }
            } else {
                to_play.push(PlayHand { player: p, hand: h });
                proof {
                    group = Seq::empty();
                    assert(to_play@.map_values(|hh: PlayHand| (hh.player, hh.hand@))
                        =~= to_play@.drop_last().map_values(|hh: PlayHand| (hh.player, hh.hand@)).push(
                        (p, better_hand(d, n, k as int)),
                    ));
                    assert(to_play@.map_values(|hh: PlayHand| (hh.player, hh.hand@)) + queue_below(
                        betsv@,
                        d,
                        k as int,
                    ) =~= queue_below(betsv@, d, n));
                }
            }
            proof {
                assert(payout_below(betsv@, d, k as int + 1) == group + payout_below(
                    betsv@,
                    d,
                    k as int,
                ));
                assert(emitted + (group + payout_below(betsv@, d, k as int)) =~= (emitted + group)
                    + payout_below(betsv@, d, k as int));
                assert(cmds@.sends =~= sends0 + (emitted + group));
                emitted = emitted + group;
            }
        }
        proof {
            assert(payout_below(betsv@, d, 0) =~= Seq::<Msg>::empty());
            assert(emitted + Seq::<Msg>::empty() =~= emitted);
            assert(queue_below(betsv@, d, 0) =~= Seq::<(PlayerId, Seq<Card>)>::empty());
            assert(to_play@.map_values(|h: PlayHand| (h.player, h.hand@)) + Seq::<
                (PlayerId, Seq<Card>),
            >::empty() =~= to_play@.map_values(|h: PlayHand| (h.player, h.hand@)));
        }
        to_play
    }

    /// Deals a round; see `start_out`. Only the host can start, only with
    /// at least one wager, and only when the (reshuffled) deck covers the
    /// deal; otherwise nothing happens. The freshly shuffled deck is not
    /// determined by the inputs, so the contract quantifies over it.
    #[verifier::rlimit(100)]
    pub fn start_round(&mut self, pid: PlayerId, cmds: &mut CommandQueue)
        requires
            old(self).inv(),
        ensures
            final(self).inv(),
            match old(self)@.state {
                StateV::Playing { .. } => final(self)@ == old(self)@ && final(cmds)@.replies == old(
                    cmds,
                )@.replies && final(cmds)@.sends == old(cmds)@.sends,
                StateV::AwaitingBets { bets } => if !start_legal(old(self)@, bets, pid) {
                    final(self)@ == old(self)@ && final(cmds)@.replies == old(cmds)@.replies
                        && final(cmds)@.sends == old(cmds)@.sends
                } else {
                    &&& final(cmds)@.replies == old(cmds)@.replies
                    &&& exists|d: Seq<Card>|
                        {
                            &&& #[trigger] deck_prepared(old(self)@.deck, d)
                            &&& final(self)@ == Self::start_out(old(self)@, bets, d).bj
                            &&& final(cmds)@.sends == old(cmds)@.sends + Self::start_out(
                                old(self)@,
                                bets,
                                d,
                            ).sends
                        }
                },
            },
    {
        let ghost pre = self@;
        let ghost replies0 = cmds@.replies;
        let ghost sends0 = cmds@.sends;
        let mut state = State::AwaitingBets { bets: Vec::new() };
        core::mem::swap(&mut self.state, &mut state);
        match state {
            State::PlayingInProgress { bets, dealer_hand, hands_to_play, finished_hands } => {
                self.state = State::PlayingInProgress {
                    bets,
                    dealer_hand,
                    hands_to_play,
                    finished_hands,
                };
                proof {
                    assert(self@ =~~= pre);
                }
            },
            State::AwaitingBets { bets: betsv } => {
                proof {
                    assert(pre.state == StateV::AwaitingBets { bets: betsv@ });
                }
                let nb = betsv.len();
                proof {
                    crate::card::lemma_deck_size_le_52(self.deck@);
                }
                let cur = self.deck.size();
                let cap: usize = if cur < LOW_WATER {
                    52
                } else {
                    cur
                };
                if !(pid.0 == 0 && nb >= 1 && nb <= (cap - 2) / 2) {
                    self.state = State::AwaitingBets { bets: betsv };
                    proof {
                        assert(!start_legal(pre, betsv@, pid));
                        assert(self@ =~~= pre);
                    }
                    return ;
                }
                proof {
                    assert(start_legal(pre, betsv@, pid));
                }
                cmds.broadcast(Command::Start);
                if cur < LOW_WATER {
                    let ghost ns: Seq<Card>;
                    self.deck = Deck::new_standard();
                    proof {
                        ns = self.deck@;
                    }
                    self.deck.shuffle();
                    proof {
                        crate::card::lemma_permutation_preserves_wf(ns, self.deck@);
                    }
                    let sz = self.deck.size();
                    cmds.broadcast(Command::DeckSize(sz as u8));
                }
                let ghost d = self.deck@;
                let ghost n = betsv@.len() as int;
                let ghost out = Self::start_out(pre, betsv@, d);
                proof {
                    assert(deck_prepared(pre.deck, d));
                    assert(cards_distinct(d) && cards_in_range(d));
                    assert(2 * n + 2 <= d.len());
                    assert(cmds@.sends =~= sends0 + (seq![(None, CmdV::Start)] + (if pre.deck.len()
                        < LOW_WATER {
                        seq![(None, CmdV::DeckSize(52))]
                    } else {
                        Seq::<Msg>::empty()
                    })));
                }
                let ghost sends_a = cmds@.sends;

                let holes = self.deal_holes(&betsv, cmds, Ghost(d));

                let ghost deck_before = self.deck@;
                let dealer_hole_c = match draw_card(&mut self.deck, &mut self.dirty_deck) {
                    Some(c) => c,
                    None => {
                        proof {
                            assert(false);
                        }
                        Card::from_u8(0)
                    },
                };
                proof {
                    assert(deck_before.last() == d[d.len() - 1 - n]);
                    assert(dealer_hole_c == dealer_hole(d, n));
                    assert(self.deck@ =~= d.take(d.len() - (n + 1)));
                }

                let hands = self.deal_opens(&betsv, &holes, cmds, Ghost(d));

                let ghost deck_before3 = self.deck@;
                let dealer_open_c = match draw_card(&mut self.deck, &mut self.dirty_deck) {
                    Some(c) => c,
                    None => {
                        proof {
                            assert(false);
                        }
                        Card::from_u8(0)
                    },
                };
                proof {
                    assert(deck_before3.last() == d[d.len() - 2 - 2 * n]);
                    assert(dealer_open_c == dealer_open(d, n));
                    assert(self.deck@ =~= d.take(d.len() - (2 * n + 2)));
                    crate::hand::lemma_two_card_value(dealer_hole_c, dealer_open_c);
                    crate::hand::lemma_raw_sum_push(Seq::<Card>::empty(), dealer_open_c);
                    assert(Seq::<Card>::empty().push(dealer_open_c) =~= seq![dealer_open_c]);
                }
                let arrd = [dealer_hole_c, dealer_open_c];
                proof {
                    assert(arrd@ =~= seq![dealer_hole_c, dealer_open_c]);
                }
                let dealer_hand = Hand::new(&arrd);
                cmds.broadcast(Command::DealerDraw(dealer_open_c));
                let arro = [dealer_open_c];
                proof {
                    assert(arro@ =~= seq![dealer_open_c]);
                }
                let oh = Hand::new(&arro);
                cmds.broadcast(Command::ValueUpdate(None, oh.value(), oh.is_soft()));
                proof {
                    assert(dealer_hand@ =~= spec_dealer_hand(d, n));
                    assert(cmds@.sends =~= sends_a + (hole_msgs(betsv@, d, 0) + open_msgs(
                        betsv@,
                        d,
                        0,
                    ) + dealer_open_msgs(d, n)));
                }
                proof {
                    assert(cmds@.sends == sends0 + Self::deal_msgs(pre, betsv@, d));
                }
                self.start_outcome(
                    betsv,
                    holes,
                    hands,
                    dealer_hole_c,
                    dealer_hand,
                    cmds,
                    Ghost(pre),
                    Ghost(d),
                    Ghost(sends0),
                );
                proof {
                    assert(self@ == out.bj);
                }
            },
        }
    }

    /// Resolves a freshly dealt round: settle at once under a dealer
    /// natural, otherwise pay player naturals out and either move to play
    /// or settle the dealer's hand alone.
    #[verifier::rlimit(100)]
    fn start_outcome(
        &mut self,
        betsv: Vec<(u32, u32)>,
        holes: Vec<Card>,
        hands: Vec<Hand>,
        dealer_hole_c: Card,
        dealer_hand: Hand,
        cmds: &mut CommandQueue,
        Ghost(pre): Ghost<BlackjackV>,
        Ghost(d): Ghost<Seq<Card>>,
        Ghost(sends0): Ghost<Seq<Msg>>,
    )
        requires
            bets_wf(betsv@),
            betsv@.len() >= 1,
            2 * betsv@.len() + 2 <= d.len(),
            cards_distinct(d),
            cards_in_range(d),
            holes@.len() == betsv@.len(),
            forall|j: int| 0 <= j < holes@.len() ==> holes@[j] == hole_card(d, j),
            hands@.len() == betsv@.len(),
            forall|j: int|
                0 <= j < hands@.len() ==> (#[trigger] hands@[j]).wf() && hands@[j]@ == better_hand(
                    d,
                    betsv@.len() as int,
                    j,
                ),
            dealer_hand.wf(),
            dealer_hand@ == spec_dealer_hand(d, betsv@.len() as int),
            dealer_hole_c == dealer_hole(d, betsv@.len() as int),
            old(self).deck@ == d.take(d.len() - (2 * betsv@.len() + 2)),
            old(self)@.dirty_deck == true,
            old(self)@.hit_soft_17 == pre.hit_soft_17,
            old(self)@.seats == pre.seats,
            old(cmds)@.sends == sends0 + Self::deal_msgs(pre, betsv@, d),
        ensures
            final(self).inv(),
            final(self)@ == Self::start_out(pre, betsv@, d).bj,
            final(cmds)@.replies == old(cmds)@.replies,
            final(cmds)@.sends == sends0 + Self::start_out(pre, betsv@, d).sends,
    {
        let ghost n = betsv@.len() as int;
        let ghost out = Self::start_out(pre, betsv@, d);
        let ghost deck_dealt = self.deck@;
        proof {
            assert(cards_distinct(deck_dealt) && cards_in_range(deck_dealt)) by {
                assert(forall|k: int|
                    0 <= k < deck_dealt.len() ==> #[trigger] deck_dealt[k] == d[k]);
            }
        }
        if dealer_hand.is_natural() {
            cmds.broadcast(Command::RevealDown(None, dealer_hole_c));
            cmds.broadcast(Command::ValueUpdate(None, dealer_hand.value(), dealer_hand.is_soft()));
            Self::settle_dealer_natural(&betsv, &holes, &hands, cmds, Ghost(d));
            self.state = State::AwaitingBets { bets: Vec::new() };
            proof {
                assert(self@ =~~= out.bj);
                assert(cmds@.sends =~= sends0 + out.sends);
            }
        } else {
            let to_play = Self::payout_naturals(&betsv, &holes, hands, cmds, Ghost(d));
            if to_play.len() == 0 {
                cmds.broadcast(Command::RevealDown(None, dealer_hole_c));
                cmds.broadcast(
                    Command::ValueUpdate(None, dealer_hand.value(), dealer_hand.is_soft()),
                );
                self.state = State::AwaitingBets { bets: Vec::new() };
                proof {
                    assert(queue_below(betsv@, d, n).len() == 0);
                    assert(self@ =~~= out.bj);
                    assert(cmds@.sends =~= sends0 + out.sends);
                }
            } else {
                notify_new_hand(&to_play, cmds);
                self.state = State::PlayingInProgress {
                    bets: betsv,
                    dealer_hand,
                    hands_to_play: to_play,
                    finished_hands: Vec::new(),
                };
                proof {
                    assert(self@ =~~= out.bj);
                    assert(cmds@.sends =~= sends0 + out.sends);
                }
            }
        }
    }

    /// Standing: the active hand is over and kept for settlement at its
    /// current value.
    pub open spec fn stand_out(pre: BlackjackV, pid: PlayerId) -> ActionOut {
        match pre.state {
            StateV::AwaitingBets { .. } => Self::unchanged_out(pre),
            StateV::Playing { bets, dealer, to_play, finished } => {
                if to_play.len() == 0 || to_play.last().0 != pid {
                    Self::unchanged_out(pre)
                } else {
                    let v = hand_value(to_play.last().1) as u8;
                    let finished2 = finished.push((pid, false, v));
                    let rest = to_play.drop_last();
                    let replies = seq![status_wait_v()];
                    if rest.len() == 0 {
                        let e = Self::end_out(pre, bets, dealer, finished2);
                        ActionOut { bj: e.bj, replies, sends: e.sends }
                    } else {
                        ActionOut {
                            bj: BlackjackV {
                                state: StateV::Playing { bets, dealer, to_play: rest, finished: finished2 },
                                ..pre
                            },
                            replies,
                            sends: seq![notify_msg(rest)],
                        }
                    }
                }
            },
        }
    }

    /// Stands the active hand; see `stand_out`.
    pub fn stand(&mut self, pid: PlayerId, cmds: &mut CommandQueue)
        requires
            old(self).inv(),
        ensures
            final(self).inv(),
            final(self)@ == Self::stand_out(old(self)@, pid).bj,
            final(cmds)@.replies == old(cmds)@.replies + Self::stand_out(old(self)@, pid).replies,
            final(cmds)@.sends == old(cmds)@.sends + Self::stand_out(old(self)@, pid).sends,
    {
        let ghost pre = self@;
        let ghost out = Self::stand_out(pre, pid);
        let mut state = State::AwaitingBets { bets: Vec::new() };
        core::mem::swap(&mut self.state, &mut state);
        match state {
            State::AwaitingBets { bets } => {
                self.state = State::AwaitingBets { bets };
                proof {
                    assert(self@ =~~= pre);
                    assert(cmds@.replies =~= cmds@.replies + out.replies);
                    assert(cmds@.sends =~= cmds@.sends + out.sends);
                }
            },
            State::PlayingInProgress { bets, dealer_hand, mut hands_to_play, mut finished_hands } => {
                let ghost tp0 = hands_to_play@.map_values(|h: PlayHand| (h.player, h.hand@));
                let ghost fv0 = finished_hands@.map_values(
                    |h: PlayedHand| (h.player, h.doubled, h.value),
                );
                proof {
                    assert(pre.state == StateV::Playing {
                        bets: bets@,
                        dealer: dealer_hand@,
                        to_play: tp0,
                        finished: fv0,
                    });
                }
                let n = hands_to_play.len();
                let active_player = hands_to_play[n - 1].player;
                if active_player != pid {
                    self.state = State::PlayingInProgress {
                        bets,
                        dealer_hand,
                        hands_to_play,
                        finished_hands,
                    };
                    proof {
                        assert(self@ =~~= pre);
                        assert(cmds@.replies =~= cmds@.replies + out.replies);
                        assert(cmds@.sends =~= cmds@.sends + out.sends);
                    }
                    return ;
                }
                let ghost replies0 = cmds@.replies;
                let ghost sends0 = cmds@.sends;
                cmds.reply(Command::status_wait());
                let ph = hands_to_play.pop().unwrap();
                let v = ph.hand.value();
                finished_hands.push(PlayedHand { player: ph.player, doubled: false, value: v });
                proof {
                    assert(hands_to_play@.map_values(|h: PlayHand| (h.player, h.hand@))
                        =~= tp0.drop_last());
                    assert(finished_hands@.map_values(
                        |h: PlayedHand| (h.player, h.doubled, h.value),
                    ) =~= fv0.push((pid, false, hand_value(tp0.last().1) as u8)));
                }
                if hands_to_play.len() == 0 {
                    self.end_game(bets, dealer_hand, finished_hands, cmds);
                    proof {
                        assert(self@ =~~= out.bj);
                        assert(cmds@.replies =~= replies0 + out.replies);
                        assert(cmds@.sends =~= sends0 + out.sends);
                    }
                } else {
                    notify_new_hand(&hands_to_play, cmds);
                    self.state = State::PlayingInProgress {
                        bets,
                        dealer_hand,
                        hands_to_play,
                        finished_hands,
                    };
                    proof {
                        assert(self@ =~~= out.bj);
                        assert(cmds@.replies =~= replies0 + out.replies);
                        assert(cmds@.sends =~= sends0 + out.sends);
                    }
                }
            },
        }
    }

    /// Surrendering: legal only on a two-card hand; half the wager comes
    /// back and the hand is over as a loss. On a hand with more cards the
    /// command is illegal and silently ignored.
    pub open spec fn surrender_out(pre: BlackjackV, pid: PlayerId) -> ActionOut {
        match pre.state {
            StateV::AwaitingBets { .. } => Self::unchanged_out(pre),
            StateV::Playing { bets, dealer, to_play, finished } => {
                if to_play.len() == 0 || to_play.last().0 != pid {
                    Self::unchanged_out(pre)
                } else if to_play.last().1.len() != 2 {
                    Self::unchanged_out(pre)
                } else {
                    let b = bet_or_zero(bets, pid.0);
                    let rest = to_play.drop_last();
                    let replies = seq![
                        CmdV::SendMoney(b / 2),
                        status_wait_v(),
                        CmdV::Lose,
                    ];
                    if rest.len() == 0 {
                        let e = Self::end_out(pre, bets, dealer, finished);
                        ActionOut { bj: e.bj, replies, sends: e.sends }
                    } else {
                        ActionOut {
                            bj: BlackjackV {
                                state: StateV::Playing { bets, dealer, to_play: rest, finished },
                                ..pre
                            },
                            replies,
                            sends: seq![notify_msg(rest)],
                        }
                    }
                }
            },
        }
    }

    /// Surrenders the active hand; see `surrender_out`.
    pub fn surrender(&mut self, pid: PlayerId, cmds: &mut CommandQueue)
        requires
            old(self).inv(),
        ensures
            final(self).inv(),
            final(self)@ == Self::surrender_out(old(self)@, pid).bj,
            final(cmds)@.replies == old(cmds)@.replies + Self::surrender_out(
                old(self)@,
                pid,
            ).replies,
            final(cmds)@.sends == old(cmds)@.sends + Self::surrender_out(old(self)@, pid).sends,
    {
        let ghost pre = self@;
        let ghost out = Self::surrender_out(pre, pid);
        let mut state = State::AwaitingBets { bets: Vec::new() };
        core::mem::swap(&mut self.state, &mut state);
        match state {
            State::AwaitingBets { bets } => {
                self.state = State::AwaitingBets { bets };
                proof {
                    assert(self@ =~~= pre);
                    assert(cmds@.replies =~= cmds@.replies + out.replies);
                    assert(cmds@.sends =~= cmds@.sends + out.sends);
                }
            },
            State::PlayingInProgress { bets, dealer_hand, mut hands_to_play, finished_hands } => {
                let ghost tp0 = hands_to_play@.map_values(|h: PlayHand| (h.player, h.hand@));
                let ghost fv0 = finished_hands@.map_values(
                    |h: PlayedHand| (h.player, h.doubled, h.value),
                );
                proof {
                    assert(pre.state == StateV::Playing {
                        bets: bets@,
                        dealer: dealer_hand@,
                        to_play: tp0,
                        finished: fv0,
                    });
                }
                let n = hands_to_play.len();
                let active_player = hands_to_play[n - 1].player;
                let active_len = hands_to_play[n - 1].hand.cards().len();
                if active_player != pid {
                    self.state = State::PlayingInProgress {
                        bets,
                        dealer_hand,
                        hands_to_play,
                        finished_hands,
                    };
                    proof {
                        assert(self@ =~~= pre);
                        assert(cmds@.replies =~= cmds@.replies + out.replies);
                        assert(cmds@.sends =~= cmds@.sends + out.sends);
                    }
                    return ;
                }
                if active_len != 2 {
                    self.state = State::PlayingInProgress {
                        bets,
                        dealer_hand,
                        hands_to_play,
                        finished_hands,
                    };
                    proof {
                        assert(self@ =~~= pre);
                        assert(cmds@.replies =~= cmds@.replies + out.replies);
                        assert(cmds@.sends =~= cmds@.sends + out.sends);
                    }
                    return ;
                }
                let ghost replies0 = cmds@.replies;
                let ghost sends0 = cmds@.sends;
                let b = match bets_get(&bets, pid.0) {
                    Some(b) => b,
                    None => 0,
                };
                cmds.reply(Command::SendMoney(b / 2));
                cmds.reply(Command::status_wait());
                let _ph = hands_to_play.pop().unwrap();
                cmds.reply(Command::Lose);
                proof {
                    assert(hands_to_play@.map_values(|h: PlayHand| (h.player, h.hand@))
                        =~= tp0.drop_last());
                }
                if hands_to_play.len() == 0 {
                    self.end_game(bets, dealer_hand, finished_hands, cmds);
                    proof {
                        assert(self@ =~~= out.bj);
                        assert(cmds@.replies =~= replies0 + out.replies);
                        assert(cmds@.sends =~= sends0 + out.sends);
                    }
                } else {
                    notify_new_hand(&hands_to_play, cmds);
                    self.state = State::PlayingInProgress {
                        bets,
                        dealer_hand,
                        hands_to_play,
                        finished_hands,
                    };
                    proof {
                        assert(self@ =~~= out.bj);
                        assert(cmds@.replies =~= replies0 + out.replies);
                        assert(cmds@.sends =~= sends0 + out.sends);
                    }
                }
            },
        }
    }
}

impl Blackjack {
    /// The step `out` took effect: the engine moved to `out.bj` and the
    /// queue grew by exactly `out`'s replies and sends.
    pub open spec fn applies(out: ActionOut, q0: QueueV, post: BlackjackV, q1: QueueV) -> bool {
        post == out.bj && q1.replies == q0.replies + out.replies && q1.sends == q0.sends
            + out.sends
    }

    /// Dispatches one inbound command to the action it names; any command
    /// with no meaning for the engine is silently ignored, whatever the
    /// state — a deliberate leniency towards stale or duplicate client
    /// lines.
    pub fn handle_cmd(&mut self, pid: PlayerId, cmd: Command, cmds: &mut CommandQueue)
        requires
            old(self).inv(),
        ensures
            final(self).inv(),
            match cmd@ {
                CmdV::Bet(b) => Self::bet_effect(
                    old(self)@,
                    pid,
                    b,
                    final(self)@,
                    old(cmds)@,
                    final(cmds)@,
                ),
                CmdV::Start => match old(self)@.state {
                    StateV::Playing { .. } => final(self)@ == old(self)@ && final(cmds)@.replies
                        == old(cmds)@.replies && final(cmds)@.sends == old(cmds)@.sends,
                    StateV::AwaitingBets { bets } => if !start_legal(old(self)@, bets, pid) {
                        final(self)@ == old(self)@ && final(cmds)@.replies == old(cmds)@.replies
                            && final(cmds)@.sends == old(cmds)@.sends
                    } else {
                        &&& final(cmds)@.replies == old(cmds)@.replies
                        &&& exists|d: Seq<Card>|
                            {
                                &&& #[trigger] deck_prepared(old(self)@.deck, d)
                                &&& final(self)@ == Self::start_out(old(self)@, bets, d).bj
                                &&& final(cmds)@.sends == old(cmds)@.sends + Self::start_out(
                                    old(self)@,
                                    bets,
                                    d,
                                ).sends
                            }
                    },
                },
                CmdV::Hit => Self::applies(Self::hit_out(old(self)@, pid), old(cmds)@, final(self)@, final(cmds)@),
                CmdV::Stand => Self::applies(Self::stand_out(old(self)@, pid), old(cmds)@, final(self)@, final(cmds)@),
                CmdV::DoubleDown => Self::applies(Self::double_out(old(self)@, pid), old(cmds)@, final(self)@, final(cmds)@),
                CmdV::Surrender => Self::applies(Self::surrender_out(old(self)@, pid), old(cmds)@, final(self)@, final(cmds)@),
                CmdV::Split => Self::applies(Self::split_out(old(self)@, pid), old(cmds)@, final(self)@, final(cmds)@),
                _ => final(self)@ == old(self)@ && final(cmds)@.replies == old(cmds)@.replies
                    && final(cmds)@.sends == old(cmds)@.sends,
            },
    {
        match cmd {
            Command::Bet(b) => self.bet(pid, b, cmds),
            Command::Start => self.start_round(pid, cmds),
            Command::Hit => self.hit(pid, cmds),
            Command::Stand => self.stand(pid, cmds),
            Command::DoubleDown => self.double_down(pid, cmds),
            Command::Surrender => self.surrender(pid, cmds),
            Command::Split => self.split(pid, cmds),
            _ => {},
        }
    }
}

proof fn lemma_contains_left<T>(a: Seq<T>, b: Seq<T>, x: T)
    requires
        a.contains(x),
    ensures
        (a + b).contains(x),
{
    let k = choose|k: int| 0 <= k < a.len() && a[k] == x;
    assert((a + b)[k] == x);
}

proof fn lemma_contains_right<T>(a: Seq<T>, b: Seq<T>, x: T)
    requires
        b.contains(x),
    ensures
        (a + b).contains(x),
{
    let k = choose|k: int| 0 <= k < b.len() && b[k] == x;
    assert((a + b)[a.len() + k] == x);
}

/// A natural better's reveal, payout and win announcement all occur among
/// the payout messages of any walk that covers that better.
proof fn lemma_payout_below_contains(bets: Seq<(u32, u32)>, d: Seq<Card>, i: int, m: int)
    requires
        0 <= i < m <= bets.len(),
        spec_is_natural(better_hand(d, bets.len() as int, i)),
    ensures
        payout_below(bets, d, m).contains(
            (None, CmdV::RevealDown(Some(PlayerId(bets[i].0)), hole_card(d, i)@)),
        ),
        payout_below(bets, d, m).contains(
            (
                Some(PlayerId(bets[i].0)),
                CmdV::SendMoney((2 * bets[i].1 + bets[i].1 / 2) as u32),
            ),
        ),
        payout_below(bets, d, m).contains((Some(PlayerId(bets[i].0)), CmdV::Win)),
    decreases m,
{
    let n = bets.len() as int;
    let p = PlayerId(bets[m - 1].0);
    let bm = bets[m - 1].1;
    let h = better_hand(d, n, m - 1);
    let part: Seq<Msg> = if spec_is_natural(h) {
        seq![
            (None, CmdV::RevealDown(Some(p), hole_card(d, m - 1)@)),
            (None, CmdV::ValueUpdate(Some(p), hand_value(h) as u8, hand_soft(h))),
            (Some(p), CmdV::SendMoney((2 * bm + bm / 2) as u32)),
            (Some(p), CmdV::Win),
        ]
    } else {
        Seq::empty()
    };
    assert(payout_below(bets, d, m) == part + payout_below(bets, d, m - 1));
    if i == m - 1 {
        assert(payout_below(bets, d, m)[0] == (
            None::<PlayerId>,
            CmdV::RevealDown(Some(PlayerId(bets[i].0)), hole_card(d, i)@),
        ));
        assert(payout_below(bets, d, m)[2] == (
            Some(PlayerId(bets[i].0)),
            CmdV::SendMoney((2 * bets[i].1 + bets[i].1 / 2) as u32),
        ));
        assert(payout_below(bets, d, m)[3] == (Some(PlayerId(bets[i].0)), CmdV::Win));
    } else {
        lemma_payout_below_contains(bets, d, i, m - 1);
        lemma_contains_right(
            part,
            payout_below(bets, d, m - 1),
            (None, CmdV::RevealDown(Some(PlayerId(bets[i].0)), hole_card(d, i)@)),
        );
        lemma_contains_right(
            part,
            payout_below(bets, d, m - 1),
            (
                Some(PlayerId(bets[i].0)),
                CmdV::SendMoney((2 * bets[i].1 + bets[i].1 / 2) as u32),
            ),
        );
        lemma_contains_right(
            part,
            payout_below(bets, d, m - 1),
            (Some(PlayerId(bets[i].0)), CmdV::Win),
        );
    }
}

/// A natural better owns no hand in the play queue.
proof fn lemma_queue_below_players(bets: Seq<(u32, u32)>, d: Seq<Card>, i: int, m: int)
    requires
        bets_wf(bets),
        0 <= i < bets.len(),
        0 <= m <= bets.len(),
        spec_is_natural(better_hand(d, bets.len() as int, i)),
    ensures
        forall|k: int|
            0 <= k < queue_below(bets, d, m).len() ==> (#[trigger] queue_below(bets, d, m)[k]).0
                != PlayerId(bets[i].0),
    decreases m,
{
    if m > 0 {
        lemma_queue_below_players(bets, d, i, m - 1);
        let n = bets.len() as int;
        let h = better_hand(d, n, m - 1);
        let part: Seq<(PlayerId, Seq<Card>)> = if spec_is_natural(h) {
            Seq::empty()
        } else {
            seq![(PlayerId(bets[m - 1].0), h)]
        };
        assert(queue_below(bets, d, m) == part + queue_below(bets, d, m - 1));
        if m - 1 != i {
            if m - 1 < i {
                assert(bets[m - 1].0 < bets[i].0);
            } else {
                assert(bets[i].0 < bets[m - 1].0);
            }
        }
        assert forall|k: int|
            0 <= k < queue_below(bets, d, m).len() implies (#[trigger] queue_below(bets, d, m)[k]).0
            != PlayerId(bets[i].0) by {
            if k < part.len() {
                assert(queue_below(bets, d, m)[k] == part[k]);
            } else {
                assert(queue_below(bets, d, m)[k] == queue_below(bets, d, m - 1)[k - part.len()]);
            }
        }
    }
}

/// When every dealt hand is a natural, nothing is queued for play.
proof fn lemma_queue_below_all_natural(bets: Seq<(u32, u32)>, d: Seq<Card>, m: int)
    requires
        0 <= m <= bets.len(),
        forall|j: int|
            0 <= j < m ==> spec_is_natural(#[trigger] better_hand(d, bets.len() as int, j)),
    ensures
        queue_below(bets, d, m).len() == 0,
    decreases m,
{
    if m > 0 {
        lemma_queue_below_all_natural(bets, d, m - 1);
        assert(queue_below(bets, d, m) =~= Seq::<(PlayerId, Seq<Card>)>::empty() + queue_below(
            bets,
            d,
            m - 1,
        ));
    }
}

/// Immediate payout of a player natural, for any deck the round is dealt
/// from: when the dealer's dealt hand is no natural and better `i`'s two
/// dealt cards are one, the round's messages reveal that better's hole
/// card to everyone and send them two-and-a-half times their wager and a
/// win at once, and no hand of theirs is queued for play. When every dealt
/// hand is a natural, the play queue is empty and the engine goes straight
/// back to collecting bets.
pub proof fn lemma_natural_payout(pre: BlackjackV, bets: Seq<(u32, u32)>, d: Seq<Card>, i: int)
    requires
        bets_wf(bets),
        0 <= i < bets.len(),
        !spec_is_natural(spec_dealer_hand(d, bets.len() as int)),
        spec_is_natural(better_hand(d, bets.len() as int, i)),
    ensures
        ({
            let n = bets.len() as int;
            let pid = PlayerId(bets[i].0);
            let b = bets[i].1;
            let out = Blackjack::start_out(pre, bets, d);
            &&& out.sends.contains((None, CmdV::RevealDown(Some(pid), hole_card(d, i)@)))
            &&& out.sends.contains((Some(pid), CmdV::SendMoney((2 * b + b / 2) as u32)))
            &&& out.sends.contains((Some(pid), CmdV::Win))
            &&& forall|k: int|
                0 <= k < queue_below(bets, d, n).len() ==> (#[trigger] queue_below(bets, d, n)[k]).0
                    != pid
            &&& (forall|j: int| 0 <= j < n ==> spec_is_natural(#[trigger] better_hand(d, n, j)))
                ==> out.bj.state is AwaitingBets
        }),
{
    let n = bets.len() as int;
    let pid = PlayerId(bets[i].0);
    let b = bets[i].1;
    let out = Blackjack::start_out(pre, bets, d);
    let deal = Blackjack::deal_msgs(pre, bets, d);
    let pay = payout_below(bets, d, n);
    let q = queue_below(bets, d, n);
    let m1 = (None, CmdV::RevealDown(Some(pid), hole_card(d, i)@));
    let m2 = (Some(pid), CmdV::SendMoney((2 * b + b / 2) as u32));
    let m3 = (Some(pid), CmdV::Win);
    lemma_payout_below_contains(bets, d, i, n);
    lemma_contains_right(deal, pay, m1);
    lemma_contains_right(deal, pay, m2);
    lemma_contains_right(deal, pay, m3);
    if q.len() == 0 {
        assert(out.sends == deal + pay + dealer_reveal_msgs(d, n));
        lemma_contains_left(deal + pay, dealer_reveal_msgs(d, n), m1);
        lemma_contains_left(deal + pay, dealer_reveal_msgs(d, n), m2);
        lemma_contains_left(deal + pay, dealer_reveal_msgs(d, n), m3);
    } else {
        assert(out.sends == deal + pay + seq![notify_msg(q)]);
        lemma_contains_left(deal + pay, seq![notify_msg(q)], m1);
        lemma_contains_left(deal + pay, seq![notify_msg(q)], m2);
        lemma_contains_left(deal + pay, seq![notify_msg(q)], m3);
    }
    lemma_queue_below_players(bets, d, i, n);
    if forall|j: int| 0 <= j < n ==> spec_is_natural(#[trigger] better_hand(d, n, j)) {
        lemma_queue_below_all_natural(bets, d, n);
    }
}

impl Game for Blackjack {
    open spec fn ginv(&self) -> bool {
        self.inv()
    }

    open spec fn spec_has_space(&self) -> bool {
        self.spec_space()
    }

    fn join(&mut self, _pid: PlayerId) {
        self.seat_joined();
    }

    fn leave(&mut self, _pid: PlayerId) {
        self.seat_left();
    }

    fn has_space(&self) -> (r: bool) {
        self.seats < MAX_PLAYERS
    }

    fn tick(&mut self, cmds: &mut CommandQueue) -> (r: bool) {
        self.tick_pass(cmds)
    }

    fn handle(&mut self, pid: PlayerId, cmd: Command, cmds: &mut CommandQueue) {
        self.handle_cmd(pid, cmd, cmds)
    }
}

} // verus!
