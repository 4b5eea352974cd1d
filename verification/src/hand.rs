//! A blackjack hand: an ordered sequence of cards together with its derived
//! best value and "soft" flag.
//!
//! Card points: an Ace counts 1 (or 11 when that does not bust), the face
//! cards and the Ten count 10, every other card its rank. The hand's value
//! is the raw sum, plus 10 when an Ace is present and the raw sum is at most
//! 11 ("soft"). The derived fields are recomputed on every mutation, so they
//! are always consistent with the cards.

use core::cmp::Ordering;
use vstd::prelude::*;

use crate::card::Card;

verus! {

/// The points a card adds to the raw sum: Ace 1, Ten and face cards 10,
/// the rest their rank.
pub open spec fn card_points(c: Card) -> int {
    if c@ % 13 == 0 {
        1
    } else if c@ % 13 >= 9 {
        10
    } else {
        c@ % 13 + 1
    }
}

/// The raw (Ace-as-1) sum of a sequence of cards.
pub open spec fn raw_sum(s: Seq<Card>) -> int
    decreases s.len(),
{
    if s.len() == 0 {
        0
    } else {
        raw_sum(s.drop_last()) + card_points(s.last())
    }
}

pub open spec fn has_ace(s: Seq<Card>) -> bool {
    exists|i: int| 0 <= i < s.len() && s[i]@ % 13 == 0
}

/// Whether an Ace is counted as 11 in the best value.
pub open spec fn hand_soft(s: Seq<Card>) -> bool {
    has_ace(s) && raw_sum(s) <= 11
}

/// The best blackjack value of a sequence of cards.
pub open spec fn hand_value(s: Seq<Card>) -> int {
    if hand_soft(s) {
        raw_sum(s) + 10
    } else {
        raw_sum(s)
    }
}

/// A two-card 21: a natural (blackjack).
pub open spec fn spec_is_natural(s: Seq<Card>) -> bool {
    s.len() == 2 && hand_value(s) == 21
}

/// How two finished hands compare at settlement: a natural beats any
/// non-natural hand, a bust loses to any non-bust, and otherwise the higher
/// value wins. Two busts count as a loss for the left hand.
pub open spec fn spec_hand_cmp(a: Seq<Card>, b: Seq<Card>) -> Ordering {
    spec_value_cmp(hand_value(a), a.len() == 2, hand_value(b), b.len() == 2)
}

/// The same comparison over the derived values and two-card flags alone.
pub open spec fn spec_value_cmp(va: int, two_a: bool, vb: int, two_b: bool) -> Ordering {
    if va == 21 && vb == 21 && two_a && two_b {
        Ordering::Equal
    } else if va == 21 && two_a {
        Ordering::Greater
    } else if vb == 21 && two_b {
        Ordering::Less
    } else if va <= 21 && vb <= 21 {
        if va < vb {
            Ordering::Less
        } else if va == vb {
            Ordering::Equal
        } else {
            Ordering::Greater
        }
    } else if va >= 22 {
        Ordering::Less
    } else {
        Ordering::Greater
    }
}

pub proof fn lemma_raw_sum_nonneg(s: Seq<Card>)
    ensures
        raw_sum(s) >= 0,
    decreases s.len(),
{
    if s.len() > 0 {
        lemma_raw_sum_nonneg(s.drop_last());
    }
}

/// Extending a prefix by one card adds that card's points to the raw sum.
pub proof fn lemma_raw_sum_take_step(s: Seq<Card>, i: int)
    requires
        0 <= i < s.len(),
    ensures
        raw_sum(s.take(i + 1)) == raw_sum(s.take(i)) + card_points(s[i]),
{
    assert(s.take(i + 1).drop_last() =~= s.take(i));
    assert(s.take(i + 1).last() == s[i]);
}

/// The raw sum of a prefix never exceeds the raw sum of the whole sequence.
pub proof fn lemma_raw_sum_take_le(s: Seq<Card>, i: int)
    requires
        0 <= i <= s.len(),
    ensures
        raw_sum(s.take(i)) <= raw_sum(s),
    decreases s.len() - i,
{
    if i == s.len() {
        assert(s.take(i) =~= s);
    } else {
        lemma_raw_sum_take_step(s, i);
        lemma_raw_sum_take_le(s, i + 1);
    }
}

/// A hand of cards with its cached best value and soft flag; the view is the
/// card sequence, and `wf` says the cache is consistent with it.
#[derive(Debug, Clone, PartialEq, Eq)]
pub struct Hand {
    cards: Vec<Card>,
    soft: bool,
    value: u8,
}

impl View for Hand {
    type V = Seq<Card>;

    closed spec fn view(&self) -> Seq<Card> {
        self.cards@
    }
}

/// Computes the raw-sum-derived value and soft flag of a card sequence.
fn value_with_soft(cards: &Vec<Card>) -> (r: (u8, bool))
    requires
        raw_sum(cards@) <= u8::MAX,
    ensures
        r.0 as int == hand_value(cards@),
        r.1 == hand_soft(cards@),
{
    let mut ace = false;
    let mut hand_value: u8 = 0;
    let mut i: usize = 0;
    proof {
        assert(cards@.take(0) =~= Seq::<Card>::empty());
    }
    while i < cards.len()
        invariant
            0 <= i <= cards@.len(),
            raw_sum(cards@) <= u8::MAX,
            hand_value as int == raw_sum(cards@.take(i as int)),
            ace == has_ace(cards@.take(i as int)),
        decreases cards@.len() - i,
    {
        proof {
            lemma_raw_sum_take_step(cards@, i as int);
            lemma_raw_sum_take_le(cards@, i as int + 1);
            lemma_raw_sum_nonneg(cards@.take(i as int));
        }
        let card_value = cards[i].into_u8() % 13 + 1;
        if card_value == 1 {
            ace = true;
        }
        if card_value >= 10 {
            hand_value = hand_value + 10;
        } else {
            hand_value = hand_value + card_value;
        }
        proof {
            let t0 = cards@.take(i as int);
            let t1 = cards@.take(i as int + 1);
            assert forall|k: int| 0 <= k < t1.len() && t1[k]@ % 13 == 0 implies has_ace(t1) by {}
            if has_ace(t1) && !has_ace(t0) {
                let k = choose|k: int| 0 <= k < t1.len() && t1[k]@ % 13 == 0;
                assert(k == i as int);
            }
        }
        i = i + 1;
    }
    proof {
        assert(cards@.take(cards@.len() as int) =~= cards@);
    }
    if ace && hand_value <= 11 {
        (hand_value + 10, true)
    } else {
        (hand_value, false)
    }
}

impl Hand {
    /// The cached value and soft flag agree with the cards.
    pub open spec fn wf(&self) -> bool {
        self.spec_value() == hand_value(self@) && self.spec_soft() == hand_soft(self@)
    }

    pub closed spec fn spec_value(&self) -> int {
        self.value as int
    }

    pub closed spec fn spec_soft(&self) -> bool {
        self.soft
    }

    pub fn new(cards: &[Card]) -> (r: Self)
        requires
            raw_sum(cards@) <= u8::MAX,
        ensures
            r@ == cards@,
            r.wf(),
    {
        let mut v: Vec<Card> = Vec::new();
        let mut i: usize = 0;
        while i < cards.len()
            invariant
                0 <= i <= cards@.len(),
                v@ == cards@.take(i as int),
            decreases cards@.len() - i,
        {
            let c = cards[i];
            v.push(c);
            proof {
                assert(v@ =~= cards@.take(i as int + 1));
            }
            i = i + 1;
        }
        proof {
            assert(cards@.take(cards@.len() as int) =~= cards@);
        }
        let (value, soft) = value_with_soft(&v);
        Hand { cards: v, soft, value }
    }

    pub fn is_soft(&self) -> (r: bool)
        requires
            self.wf(),
        ensures
            r == hand_soft(self@),
    {
        self.soft
    }

    pub fn value(&self) -> (r: u8)
        requires
            self.wf(),
        ensures
            r as int == hand_value(self@),
    {
        self.value
    }

    pub fn add_card(&mut self, card: Card)
        requires
            old(self).wf(),
            raw_sum(old(self)@.push(card)) <= u8::MAX,
        ensures
            final(self)@ == old(self)@.push(card),
            final(self).wf(),
    {
        self.cards.push(card);
        let (value, soft) = value_with_soft(&self.cards);
        self.value = value;
        self.soft = soft;
    }

    pub fn cards(&self) -> (r: &[Card])
        ensures
            r@ == self@,
    {
        self.cards.as_slice()
    }
}

/// The blackjack-specific queries on a hand.
pub trait BlackjackExt {
    spec fn bj_inv(&self) -> bool;

    spec fn bj_cards(&self) -> Seq<Card>;

    /// Settlement comparison; see `spec_hand_cmp`.
    fn cmp(&self, other: &Self) -> (r: Ordering)
        requires
            self.bj_inv(),
            other.bj_inv(),
        ensures
            r == spec_hand_cmp(self.bj_cards(), other.bj_cards()),
    ;

    fn is_bust(&self) -> (r: bool)
        requires
            self.bj_inv(),
        ensures
            r == (hand_value(self.bj_cards()) > 21),
    ;

    fn is_natural(&self) -> (r: bool)
        requires
            self.bj_inv(),
        ensures
            r == spec_is_natural(self.bj_cards()),
    ;
}

impl BlackjackExt for Hand {
    open spec fn bj_inv(&self) -> bool {
        self.wf()
    }

    open spec fn bj_cards(&self) -> Seq<Card> {
        self@
    }

    fn cmp(&self, other: &Self) -> (r: Ordering) {
        let va = self.value;
        let vb = other.value;
        let two_a = self.cards.len() == 2;
        let two_b = other.cards.len() == 2;
        if va == 21 && vb == 21 && two_a && two_b {
            Ordering::Equal
        } else if va == 21 && two_a {
            Ordering::Greater
        } else if vb == 21 && two_b {
            Ordering::Less
        } else if va <= 21 && vb <= 21 {
            if va < vb {
                Ordering::Less
            } else if va == vb {
                Ordering::Equal
            } else {
                Ordering::Greater
            }
        } else if va >= 22 {
            Ordering::Less
        } else {
            Ordering::Greater
        }
    }

    #[inline]
    fn is_bust(&self) -> (r: bool) {
        self.value() > 21
    }

    #[inline]
    fn is_natural(&self) -> (r: bool) {
        self.cards.len() == 2 && self.value() == 21
    }
}

/// Appending one card adds its points to the raw sum.
pub proof fn lemma_raw_sum_push(s: Seq<Card>, c: Card)
    ensures
        raw_sum(s.push(c)) == raw_sum(s) + card_points(c),
        1 <= card_points(c) <= 10,
{
    assert(s.push(c).drop_last() =~= s);
    assert(s.push(c).last() == c);
}

/// Two cards sum to at most 20 raw points, so a two-card hand is never
/// worth more than 21.
pub proof fn lemma_two_card_value(a: Card, b: Card)
    ensures
        0 <= raw_sum(seq![a, b]) <= 20,
        hand_value(seq![a, b]) <= 21,
{
    let s = seq![a, b];
    assert(s.drop_last() =~= seq![a]);
    assert(s.last() == b);
    assert(seq![a].drop_last() =~= Seq::<Card>::empty());
    assert(seq![a].last() == a);
    assert(raw_sum(Seq::<Card>::empty()) == 0);
    assert(1 <= card_points(a) <= 10 && 1 <= card_points(b) <= 10);
    assert(raw_sum(seq![a]) == card_points(a));
    assert(raw_sum(s) == raw_sum(seq![a]) + card_points(b));
}

/// Hand value bound: any hand reached by drawing only while not bust has a
/// value of at most 31. Adding one card to a hand worth at most 21 adds at
/// most 10 points, and the soft adjustment never pushes the value past 21.
pub proof fn lemma_value_bound(s: Seq<Card>)
    requires
        s.len() > 0,
        hand_value(s.drop_last()) <= 21,
    ensures
        hand_value(s) <= 31,
{
    lemma_raw_sum_nonneg(s.drop_last());
    assert(card_points(s.last()) <= 10);
}

/// Hand value characterization: with an Ace and a raw sum of at most 11 the
/// hand is soft and worth the raw sum plus ten; otherwise it is hard and
/// worth exactly the raw sum.
pub proof fn lemma_value_soft_characterization(s: Seq<Card>)
    ensures
        has_ace(s) && raw_sum(s) <= 11 ==> hand_soft(s) && hand_value(s) == raw_sum(s) + 10,
        !(has_ace(s) && raw_sum(s) <= 11) ==> !hand_soft(s) && hand_value(s) == raw_sum(s),
{
}

/// Natural detection: a two-card hand is a natural exactly when its value
/// is 21.
pub proof fn lemma_natural_iff_21(s: Seq<Card>)
    requires
        s.len() == 2,
    ensures
        spec_is_natural(s) <==> hand_value(s) == 21,
{
}

/// Comparison ordering: a natural beats a non-natural 21; a bust loses to
/// any non-bust; among non-bust, non-natural hands the higher value wins and
/// equal values push.
pub proof fn lemma_cmp_ordering(a: Seq<Card>, b: Seq<Card>)
    ensures
        spec_is_natural(a) && !spec_is_natural(b) ==> spec_hand_cmp(a, b) == Ordering::Greater,
        hand_value(a) > 21 && hand_value(b) <= 21 ==> spec_hand_cmp(a, b) == Ordering::Less,
        hand_value(a) <= 21 && hand_value(b) > 21 ==> spec_hand_cmp(a, b) == Ordering::Greater,
        hand_value(a) <= 21 && hand_value(b) <= 21 && !spec_is_natural(a) && !spec_is_natural(b)
            && hand_value(a) > hand_value(b) ==> spec_hand_cmp(a, b) == Ordering::Greater,
        hand_value(a) <= 21 && hand_value(b) <= 21 && !spec_is_natural(a) && !spec_is_natural(b)
            && hand_value(a) < hand_value(b) ==> spec_hand_cmp(a, b) == Ordering::Less,
        hand_value(a) <= 21 && hand_value(b) <= 21 && !spec_is_natural(a) && !spec_is_natural(b)
            && hand_value(a) == hand_value(b) ==> spec_hand_cmp(a, b) == Ordering::Equal,
{
}

} // verus!
