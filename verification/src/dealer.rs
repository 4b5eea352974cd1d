//! The dealer's drawing policy: stand or hit on a soft 17.

use vstd::prelude::*;

use crate::hand::{hand_soft, hand_value, Hand};

verus! {

#[derive(Debug, Clone, Copy, PartialEq, Eq, Structural)]
pub struct Dealer {
    /// If false, stands on soft 17, if true, hits on soft 17.
    hit_soft_17: bool,
}

/// Whether a dealer with the given soft-17 policy draws another card into
/// the given hand.
pub open spec fn spec_dealer_hits(hit_soft_17: bool, s: Seq<crate::card::Card>) -> bool {
    hand_value(s) < 17 || (hit_soft_17 && hand_value(s) == 17 && hand_soft(s))
}

impl Dealer {
    pub closed spec fn spec_hits_soft_17(&self) -> bool {
        self.hit_soft_17
    }

    /// A dealer that stands on soft 17.
    pub fn s17() -> (r: Self)
        ensures
            !r.spec_hits_soft_17(),
    {
        Dealer { hit_soft_17: false }
    }

    /// A dealer that hits on soft 17.
    pub fn h17() -> (r: Self)
        ensures
            r.spec_hits_soft_17(),
    {
        Dealer { hit_soft_17: true }
    }

    pub fn hits(&self, dealer_hand: &Hand) -> (r: bool)
        requires
            dealer_hand.wf(),
        ensures
            r == spec_dealer_hits(self.spec_hits_soft_17(), dealer_hand@),
    {
        dealer_hand.value() < 17 || (self.hit_soft_17 && dealer_hand.value() == 17
            && dealer_hand.is_soft())
    }
}

} // verus!
