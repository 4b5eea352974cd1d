//! Playing cards and an ordered deck.
//!
//! A card is one of the 52 standard cards, stored compactly as an integer
//! in `0..52` (suit index times 13 plus rank index) so that it can travel
//! over the wire as a single number.

use vstd::prelude::*;
use vstd::set_lib::lemma_int_range;
use rand::seq::SliceRandom;
use rand::thread_rng;

verus! {

#[derive(Debug, Copy, Clone, PartialEq, Eq, Structural)]
pub enum Suit {
    Clubs,
    Hearts,
    Spades,
    Diamonds,
}

#[derive(Debug, Copy, Clone, PartialEq, Eq, Structural)]
pub enum Rank {
    King,
    Queen,
    Jack,
    Ten,
    Nine,
    Eight,
    Seven,
    Six,
    Five,
    Four,
    Three,
    Two,
    Ace,
}

pub open spec fn spec_suit_index(s: Suit) -> u8 {
    match s {
        Suit::Clubs => 0,
        Suit::Hearts => 1,
        Suit::Spades => 2,
        Suit::Diamonds => 3,
    }
}

pub open spec fn spec_rank_index(r: Rank) -> u8 {
    match r {
        Rank::Ace => 0,
        Rank::Two => 1,
        Rank::Three => 2,
        Rank::Four => 3,
        Rank::Five => 4,
        Rank::Six => 5,
        Rank::Seven => 6,
        Rank::Eight => 7,
        Rank::Nine => 8,
        Rank::Ten => 9,
        Rank::Jack => 10,
        Rank::Queen => 11,
        Rank::King => 12,
    }
}

/// One of the 52 standard cards; its view is the card's integer id in `0..52`.
#[derive(Debug, Copy, Clone, PartialEq, Eq, Structural)]
pub struct Card(u8);

impl View for Card {
    type V = u8;

    closed spec fn view(&self) -> u8 {
        self.0
    }
}

fn suit_index(s: Suit) -> (r: u8)
    ensures
        r == spec_suit_index(s),
{
    match s {
        Suit::Clubs => 0,
        Suit::Hearts => 1,
        Suit::Spades => 2,
        Suit::Diamonds => 3,
    }
}

fn rank_index(r: Rank) -> (i: u8)
    ensures
        i == spec_rank_index(r),
{
    match r {
        Rank::Ace => 0,
        Rank::Two => 1,
        Rank::Three => 2,
        Rank::Four => 3,
        Rank::Five => 4,
        Rank::Six => 5,
        Rank::Seven => 6,
        Rank::Eight => 7,
        Rank::Nine => 8,
        Rank::Ten => 9,
        Rank::Jack => 10,
        Rank::Queen => 11,
        Rank::King => 12,
    }
}

impl Card {
    pub fn new(sr: (Suit, Rank)) -> (r: Card)
        ensures
            r@ == spec_suit_index(sr.0) * 13 + spec_rank_index(sr.1),
            r@ < 52,
    {
        let (suit, rank) = sr;
        Card(suit_index(suit) * 13 + rank_index(rank))
    }

    pub fn suit_rank(self) -> (r: (Suit, Rank))
        requires
            self@ < 52,
        ensures
            spec_suit_index(r.0) == self@ / 13,
            spec_rank_index(r.1) == self@ % 13,
            spec_suit_index(r.0) * 13 + spec_rank_index(r.1) == self@,
    {
        let Card(v) = self;
        let (vs, vr) = (v / 13, v % 13);

        let suit = if vs == 0 {
            Suit::Clubs
        } else if vs == 1 {
            Suit::Hearts
        } else if vs == 2 {
            Suit::Spades
        } else {
            Suit::Diamonds
        };
        let rank = if vr == 0 {
            Rank::Ace
        } else if vr == 1 {
            Rank::Two
        } else if vr == 2 {
            Rank::Three
        } else if vr == 3 {
            Rank::Four
        } else if vr == 4 {
            Rank::Five
        } else if vr == 5 {
            Rank::Six
        } else if vr == 6 {
            Rank::Seven
        } else if vr == 7 {
            Rank::Eight
        } else if vr == 8 {
            Rank::Nine
        } else if vr == 9 {
            Rank::Ten
        } else if vr == 10 {
            Rank::Jack
        } else if vr == 11 {
            Rank::Queen
        } else {
            Rank::King
        };

        (suit, rank)
    }

    pub fn into_u8(self) -> (r: u8)
        ensures
            r == self@,
    {
        self.0
    }

    pub fn from_u8(n: u8) -> (r: Self)
        requires
            n < 52,
        ensures
            r@ == n,
    {
        Card(n)
    }
}

/// No card id occurs twice in the sequence.
pub open spec fn cards_distinct(s: Seq<Card>) -> bool {
    forall|i: int, j: int| 0 <= i < j < s.len() ==> s[i]@ != s[j]@
}

/// Every card in the sequence is one of the 52 standard cards.
pub open spec fn cards_in_range(s: Seq<Card>) -> bool {
    forall|i: int| 0 <= i < s.len() ==> s[i]@ < 52
}

/// An ordered deck of remaining cards; the card at the end is drawn first.
#[derive(Debug, Clone, PartialEq, Eq)]
pub struct Deck {
    cards: Vec<Card>,
}

impl View for Deck {
    type V = Seq<Card>;

    closed spec fn view(&self) -> Seq<Card> {
        self.cards@
    }
}

impl Deck {
    /// No duplicates and only standard cards: the invariant of a deck in play.
    pub open spec fn wf(&self) -> bool {
        cards_distinct(self@) && cards_in_range(self@)
    }

    pub fn new_standard() -> (r: Self)
        ensures
            r@.len() == 52,
            forall|k: int| 0 <= k < 52 ==> r@[k]@ == k,
            r.wf(),
    {
        let mut cards: Vec<Card> = Vec::new();
        let mut i: u8 = 0;
        while i < 52
            invariant
                i <= 52,
                cards@.len() == i,
                forall|k: int| 0 <= k < i ==> cards@[k]@ == k,
            decreases 52 - i,
        {
            cards.push(Card::from_u8(i));
            i = i + 1;
        }
        Deck { cards }
    }

    pub fn empty() -> (r: Self)
        ensures
            r@ == Seq::<Card>::empty(),
            r.wf(),
    {
        let r = Deck { cards: Vec::new() };
        proof {
            assert(r@ =~= Seq::<Card>::empty());
        }
        r
    }

    /// Relies on rand's `SliceRandom::shuffle`: it permutes the slice in
    /// place, so the deck keeps exactly the same cards in some order.
    #[verifier::external_body]
    pub fn shuffle(&mut self)
        ensures
            final(self)@.len() == old(self)@.len(),
            final(self)@.to_multiset() == old(self)@.to_multiset(),
    {
        self.cards.shuffle(&mut thread_rng())
    }

    pub fn draw_one(&mut self) -> (r: Option<Card>)
        ensures
            old(self)@.len() == 0 ==> r is None && final(self)@ == old(self)@,
            old(self)@.len() > 0 ==> r == Some(old(self)@.last()) && final(self)@ == old(
                self,
            )@.drop_last(),
    {
        self.cards.pop()
    }

    pub fn put_in_back(&mut self, card: Card)
        ensures
            final(self)@ == seq![card] + old(self)@,
    {
        self.cards.insert(0, card);
        proof {
            assert(final(self)@ =~= seq![card] + old(self)@);
        }
    }

    pub fn size(&self) -> (r: usize)
        ensures
            r == self@.len(),
    {
        self.cards.len()
    }
}

/// A permutation (equal multisets) keeps a deck well formed: the same cards
/// are present with the same multiplicities, so distinctness and range carry
/// over. This is what `Deck::shuffle` preserves.
pub proof fn lemma_permutation_preserves_wf(a: Seq<Card>, b: Seq<Card>)
    requires
        cards_distinct(a),
        cards_in_range(a),
        a.to_multiset() == b.to_multiset(),
    ensures
        cards_distinct(b),
        cards_in_range(b),
{
    a.to_multiset_ensures();
    b.to_multiset_ensures();
    assert forall|i: int| 0 <= i < b.len() implies (#[trigger] b[i])@ < 52 by {
        assert(b.contains(b[i]));
        assert(b.to_multiset().count(b[i]) > 0);
        assert(a.contains(b[i]));
        let k = choose|k: int| 0 <= k < a.len() && a[k] == b[i];
        assert(a[k]@ < 52);
    }
    assert(a.no_duplicates()) by {
        assert(forall|i: int, j: int|
            0 <= i < a.len() && 0 <= j < a.len() && i != j ==> #[trigger] a[i]@ != #[trigger] a[j]@);
    }
    a.lemma_multiset_has_no_duplicates();
    b.lemma_multiset_has_no_duplicates_conv();
    assert forall|i: int, j: int| 0 <= i < j < b.len() implies (#[trigger] b[i])@ != (
    #[trigger] b[j])@ by {
        assert(b[i] != b[j]);
        assert(b[i] == Card(b[i]@) && b[j] == Card(b[j]@));
    }
}

/// Removing the drawn card keeps a deck well formed.
pub proof fn lemma_drop_last_wf(s: Seq<Card>)
    requires
        cards_distinct(s),
        cards_in_range(s),
        s.len() > 0,
    ensures
        cards_distinct(s.drop_last()),
        cards_in_range(s.drop_last()),
{
    assert(forall|i: int| 0 <= i < s.len() - 1 ==> #[trigger] s.drop_last()[i] == s[i]);
}

/// Deck conservation: drawing `n` cards from a well-formed deck leaves
/// `len - n` cards, and no card id appears twice among the dealt cards and
/// the remaining cards together. Cards are drawn from the end, so the dealt
/// cards are the final `n` and the remainder is the prefix.
pub proof fn lemma_deck_conservation(s: Seq<Card>, n: int)
    requires
        cards_distinct(s),
        0 <= n <= s.len(),
    ensures
        s.take(s.len() - n).len() == s.len() - n,
        cards_distinct(s.take(s.len() - n) + s.skip(s.len() - n)),
        forall|i: int, j: int|
            0 <= i < s.len() - n && 0 <= j < n ==> (#[trigger] s.take(s.len() - n)[i])@ != (
            #[trigger] s.skip(s.len() - n)[j])@,
{
    assert(s.take(s.len() - n) + s.skip(s.len() - n) =~= s);
}

/// A well-formed deck holds at most 52 cards: its ids are distinct values
/// drawn from the 52-element range `0..52`.
pub proof fn lemma_deck_size_le_52(s: Seq<Card>)
    requires
        cards_distinct(s),
        cards_in_range(s),
    ensures
        s.len() <= 52,
{
    let ids = s.map_values(|c: Card| c@ as int);
    assert(ids.no_duplicates()) by {
        assert(forall|i: int, j: int|
            0 <= i < ids.len() && 0 <= j < ids.len() && i != j ==> #[trigger] ids[i]
                != #[trigger] ids[j]);
    }
    ids.unique_seq_to_set();
    let range = vstd::set_lib::set_int_range(0, 52);
    lemma_int_range(0, 52);
    assert(ids.to_set().subset_of(range)) by {
        assert forall|x: int| ids.to_set().contains(x) implies range.contains(x) by {
            let k = choose|k: int| 0 <= k < ids.len() && ids[k] == x;
            assert(s[k]@ < 52);
        }
    }
    vstd::set_lib::lemma_len_subset(ids.to_set(), range);
}

} // verus!
