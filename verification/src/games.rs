//! The capability set a hosted room expects of a game: seat management,
//! periodic ticks, and handling of inbound commands. The registry is
//! generic over this trait; blackjack is the one real implementation.

use vstd::prelude::*;

use crate::protocol::{Command, PlayerId};
use crate::session::CommandQueue;

verus! {

pub trait Game {
    /// The game's internal consistency, which every operation preserves.
    spec fn ginv(&self) -> bool;

    /// Whether another participant may join.
    spec fn spec_has_space(&self) -> bool;

    /// Lets the game track a newly seated participant.
    fn join(&mut self, pid: PlayerId)
        requires
            old(self).ginv(),
        ensures
            final(self).ginv(),
    ;

    /// Lets the game drop a departed participant's seat.
    fn leave(&mut self, pid: PlayerId)
        requires
            old(self).ginv(),
        ensures
            final(self).ginv(),
    ;

    fn has_space(&self) -> (r: bool)
        ensures
            r == self.spec_has_space(),
    ;

    /// A periodic pass with no inbound command; returns true when the game
    /// wants another pass immediately.
    fn tick(&mut self, cmds: &mut CommandQueue) -> (r: bool)
        requires
            old(self).ginv(),
        ensures
            final(self).ginv(),
    ;

    /// Applies one inbound command from one participant.
    fn handle(&mut self, pid: PlayerId, cmd: Command, cmds: &mut CommandQueue)
        requires
            old(self).ginv(),
        ensures
            final(self).ginv(),
    ;
}

/// A game that does nothing and admits nobody.
pub struct Empty;

impl Game for Empty {
    open spec fn ginv(&self) -> bool {
        true
    }

    open spec fn spec_has_space(&self) -> bool {
        false
    }

    fn join(&mut self, _pid: PlayerId) {
    }

    fn leave(&mut self, _pid: PlayerId) {
    }

    fn has_space(&self) -> (r: bool) {
        false
    }

    fn tick(&mut self, _cmds: &mut CommandQueue) -> (r: bool) {
        false
    }

    fn handle(&mut self, _pid: PlayerId, _cmd: Command, _cmds: &mut CommandQueue) {
    }
}

} // verus!

mod blackjack;

pub use self::blackjack::{
    bet_of, bet_or_zero, bets_wf, better_hand, dealer_hole, dealer_msgs, dealer_open,
    dealer_open_msgs, dealer_play, dealer_reveal_msgs, deck_prepared, hole_card, hole_msgs,
    lemma_bet_insert_wf, lemma_bet_of_index, lemma_bet_of_key, lemma_bet_or_zero_bound,
    natural_settle_msgs, notify_msg, open_card, open_msgs, payout_below, queue_below, same_rank,
    same_rank_ids, settle_msgs, spec_bet_insert, spec_cap, spec_dealer_hand, start_legal,
    status_mid_hand_v, status_new_game_v, status_new_v, status_wait_v, ActionOut, Blackjack,
    BlackjackV, Msg, StateV, BET_LIMIT, LOW_WATER, MAX_PLAYERS,
};
