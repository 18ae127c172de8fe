//! The deck (shoe): exact counts of the ten card ranks.
//!
//! A deck is an array of ten counts plus a redundant total size; the
//! invariant `wf` ties the size to the sum of the counts.  Draw and
//! replace are exact inverses, which is the backbone of the engine's
//! draw-then-undo search discipline.

use vstd::prelude::*;
use crate::rat::{pos_den, q_zero, Q, Rat};

verus! {

#[derive(Eq, PartialEq, Hash, Debug, Clone, Copy)]
pub struct Deck {
    pub cards: [u16; 10],
    pub size: u16,
}

/// Sum of the first `n` counts.
pub open spec fn spec_total(c: Seq<u16>, n: int) -> int
    decreases n,
{
    if n <= 0 {
        0
    } else {
        spec_total(c, n - 1) + c[n - 1]
    }
}

/// Sum of all ten counts.
pub open spec fn deck_total(c: Seq<u16>) -> int {
    spec_total(c, 10)
}

/// The counts after drawing one card of the given rank.
pub open spec fn spec_draw(c: Seq<u16>, card: int) -> Seq<u16> {
    c.update(card - 1, (c[card - 1] - 1) as u16)
}

/// The counts after returning one card of the given rank.
pub open spec fn spec_replace(c: Seq<u16>, card: int) -> Seq<u16> {
    c.update(card - 1, (c[card - 1] + 1) as u16)
}

proof fn lemma_total_update(c: Seq<u16>, i: int, v: u16, n: int)
    requires
        c.len() == 10,
        0 <= i < 10,
        0 <= n <= 10,
    ensures
        spec_total(c.update(i, v), n) == spec_total(c, n) + if i < n {
            v - c[i]
        } else {
            0
        },
    decreases n,
{
    if n > 0 {
        lemma_total_update(c, i, v, n - 1);
    }
}

/// Each count is bounded by any partial total that covers it.
pub proof fn lemma_count_le_partial(c: Seq<u16>, i: int, n: int)
    requires
        c.len() == 10,
        0 <= i < n <= 10,
    ensures
        c[i] <= spec_total(c, n),
        spec_total(c, n) >= 0,
    decreases n,
{
    if n > 0 {
        if i < n - 1 {
            lemma_count_le_partial(c, i, n - 1);
        } else {
            lemma_partial_nonneg(c, n - 1);
        }
    }
}

pub proof fn lemma_partial_nonneg(c: Seq<u16>, n: int)
    requires
        c.len() == 10,
        0 <= n <= 10,
    ensures
        spec_total(c, n) >= 0,
    decreases n,
{
    if n > 0 {
        lemma_partial_nonneg(c, n - 1);
    }
}

/// The whole total splits into the non-ten part and the ten count.
pub proof fn lemma_total_split_ten(c: Seq<u16>)
    requires
        c.len() == 10,
    ensures
        deck_total(c) == spec_total(c, 9) + c[9],
{
}

impl Deck {
    /// Invariant: the stored size is exactly the sum of the counts.
    pub open spec fn wf(self) -> bool {
        self.size == deck_total(self.cards@)
    }

    /// Remove one card of the given rank.  The count must be positive:
    /// drawing a missing rank would be a bookkeeping bug, so it is ruled
    /// out by precondition.
    pub fn draw(&mut self, card: u16)
        requires
            old(self).wf(),
            1 <= card <= 10,
            old(self).cards@[card - 1] > 0,
        ensures
            final(self).wf(),
            final(self).cards@ == spec_draw(old(self).cards@, card as int),
            final(self).size == old(self).size - 1,
    {
        proof {
            lemma_count_le_partial(self.cards@, card - 1, 10);
            lemma_total_update(
                self.cards@,
                card - 1,
                (self.cards@[card - 1] - 1) as u16,
                10,
            );
        }
        let idx = card_index(card);
        self.cards[idx] = self.cards[idx] - 1;
        self.size = self.size - 1;
    }

    /// Return one card of the given rank; the inverse of `draw`.
    pub fn replace(&mut self, card: u16)
        requires
            old(self).wf(),
            1 <= card <= 10,
            old(self).size < u16::MAX,
        ensures
            final(self).wf(),
            final(self).cards@ == spec_replace(old(self).cards@, card as int),
            final(self).size == old(self).size + 1,
    {
        proof {
            lemma_count_le_partial(self.cards@, card - 1, 10);
            lemma_total_update(
                self.cards@,
                card - 1,
                (self.cards@[card - 1] + 1) as u16,
                10,
            );
        }
        let idx = card_index(card);
        self.cards[idx] = self.cards[idx] + 1;
        self.size = self.size + 1;
    }

    /// Draw a card and append it to a hand.
    pub fn draw_to(&mut self, hand: &mut Vec<u16>, card: u16)
        requires
            old(self).wf(),
            1 <= card <= 10,
            old(self).cards@[card - 1] > 0,
        ensures
            final(self).wf(),
            final(self).cards@ == spec_draw(old(self).cards@, card as int),
            final(self).size == old(self).size - 1,
            final(hand)@ == old(hand)@.push(card),
    {
        self.draw(card);
        hand.push(card);
    }

    /// Put the first card of the given rank back from a hand into the
    /// deck; the hand loses that one occurrence (its last card moves into
    /// the hole, as a swap removal does).
    pub fn replace_from(&mut self, hand: &mut Vec<u16>, card: u16)
        requires
            old(self).wf(),
            1 <= card <= 10,
            old(self).size < u16::MAX,
            has_card(old(hand)@, card),
        ensures
            final(self).wf(),
            final(self).cards@ == spec_replace(old(self).cards@, card as int),
            final(self).size == old(self).size + 1,
            final(hand)@ == old(hand)@.update(first_idx(old(hand)@, card), old(hand)@.last()).drop_last(),
    {
        proof {
            lemma_first_idx_props(hand@, card);
        }
        let mut i: usize = 0;
        let n = hand.len();
        while i < n && hand[i] != card
            invariant
                n == hand@.len(),
                0 <= i <= n,
                forall|j: int| 0 <= j < i ==> hand@[j] != card,
                has_card(hand@, card),
                1 <= card <= 10,
            decreases n - i,
        {
            i = i + 1;
        }
        proof {
            lemma_first_idx_props(hand@, card);
            assert(i < hand@.len() && hand@[i as int] == card) by {
                if i == hand@.len() {
                    assert(hand@[first_idx(hand@, card)] == card);
                }
            }
            assert(i as int == first_idx(hand@, card)) by {
                let fi = first_idx(hand@, card);
                if i < fi {
                    assert(hand@[i as int] != card);
                }
                if fi < i {
                    assert(hand@[fi] != card);
                }
            }
        }
        hand.swap_remove(i);
        self.replace(card);
    }

    /// Probability that the next card drawn has the given rank.  When
    /// `cant_be_ten` holds the hidden card is known not to be a ten, so
    /// tens have probability zero and the rest are conditioned on the
    /// non-ten remainder of the shoe.
    pub fn card_prob(&self, card: u16, cant_be_ten: bool) -> (r: Rat)
        requires
            self.wf(),
            1 <= card <= 10,
        ensures
            r.wf(),
            r.q() == spec_card_prob(self.cards@, card as int, cant_be_ten),
            !r.neg,
    {
        proof {
            lemma_count_le_partial(self.cards@, card - 1, 10);
            if card <= 9 {
                lemma_count_le_partial(self.cards@, card - 1, 9);
            }
            lemma_partial_nonneg(self.cards@, 9);
            lemma_total_split_ten(self.cards@);
        }
        let idx = card_index(card);
        let count = self.cards[idx];
        if cant_be_ten && card == 10 {
            Rat::zero()
        } else if count == 0 {
            Rat::zero()
        } else if cant_be_ten {
            Rat::frac(count as u64, (self.size - self.cards[9]) as u64)
        } else {
            Rat::frac(count as u64, self.size as u64)
        }
    }
}

/// Probability of drawing the rank next, as an exact rational: count over
/// total, or count over the non-ten total when tens are excluded; zero for
/// a rank that has run out.
pub open spec fn spec_card_prob(c: Seq<u16>, card: int, cant_be_ten: bool) -> Q {
    if cant_be_ten && card == 10 {
        q_zero()
    } else if c[card - 1] == 0 {
        q_zero()
    } else if cant_be_ten {
        Q { n: c[card - 1] as int, d: pos_den(spec_total(c, 9)) }
    } else {
        Q { n: c[card - 1] as int, d: pos_den(deck_total(c)) }
    }
}

/// Index of a card rank inside a deck's count array: rank 1 (the ace)
/// sits at index 0, rank 10 at index 9.
pub fn card_index(card: u16) -> (r: usize)
    requires
        1 <= card <= 10,
    ensures
        r == card - 1,
{
    (card - 1) as usize
}

/// Whether a hand holds at least one card of the given rank.
pub open spec fn has_card(h: Seq<u16>, card: u16) -> bool {
    exists|i: int| 0 <= i < h.len() && h[i] == card
}

/// Position of the first card of the given rank.
pub open spec fn first_idx(h: Seq<u16>, card: u16) -> int
    decreases h.len(),
{
    if h.len() == 0 {
        0
    } else if h[0] == card {
        0
    } else {
        1 + first_idx(h.drop_first(), card)
    }
}

pub proof fn lemma_first_idx_props(h: Seq<u16>, card: u16)
    requires
        has_card(h, card),
    ensures
        0 <= first_idx(h, card) < h.len(),
        h[first_idx(h, card)] == card,
        forall|j: int| 0 <= j < first_idx(h, card) ==> h[j] != card,
    decreases h.len(),
{
    if h.len() > 0 && h[0] != card {
        let t = h.drop_first();
        assert(has_card(t, card)) by {
            let i = choose|i: int| 0 <= i < h.len() && h[i] == card;
            assert(t[i - 1] == card);
        }
        lemma_first_idx_props(t, card);
        assert forall|j: int| 0 <= j < first_idx(h, card) implies h[j] != card by {
            if j > 0 {
                assert(t[j - 1] != card);
            }
        }
    }
}

/// Law: drawing a rank and then replacing the same rank restores the deck
/// counts exactly.
pub proof fn lemma_draw_replace_roundtrip(c: Seq<u16>, card: int)
    requires
        c.len() == 10,
        1 <= card <= 10,
        c[card - 1] > 0,
    ensures
        spec_replace(spec_draw(c, card), card) == c,
{
    assert(spec_replace(spec_draw(c, card), card) =~= c);
}

/// Removing the card just pushed onto a hand restores the hand exactly.
pub proof fn lemma_remove_pushed(h: Seq<u16>, card: u16)
    ensures
        has_card(h.push(card), card),
        h.push(card).update(first_idx(h.push(card), card), h.push(card).last()).drop_last() == h,
    decreases h.len(),
{
    let p = h.push(card);
    assert(p[h.len() as int] == card);
    if h.len() == 0 {
        assert(p.update(first_idx(p, card), p.last()).drop_last() =~= h);
    } else if h[0] == card {
        assert(first_idx(p, card) == 0);
        assert(p.update(0, p.last()).drop_last() =~= h) by {
            assert(p.last() == card);
            assert(h[0] == card);
        }
    } else {
        lemma_remove_pushed(h.drop_first(), card);
        let t = h.drop_first().push(card);
        assert(p.drop_first() =~= t);
        assert(first_idx(p, card) == 1 + first_idx(t, card));
        let fi = first_idx(p, card);
        lemma_first_idx_props(p, card);
        assert(p.update(fi, p.last()).drop_last() =~= h) by {
            assert(t.update(first_idx(t, card), t.last()).drop_last() == h.drop_first());
            assert forall|k: int| 0 <= k < h.len() implies p.update(fi, p.last()).drop_last()[k]
                == h[k] by {
                if k == 0 {
                } else {
                    assert(t.update(first_idx(t, card), t.last()).drop_last()[k - 1] == h.drop_first()[
                        k - 1]);
                }
            }
        }
    }
}

/// The counts of the eight-deck starting shoe.
pub open spec fn full_shoe_counts() -> Seq<u16> {
    seq![32u16, 32u16, 32u16, 32u16, 32u16, 32u16, 32u16, 32u16, 32u16, 128u16]
}

/// The eight-deck starting shoe: 32 of each rank below ten, 128 tens.
pub fn full_shoe() -> (d: Deck)
    ensures
        d.wf(),
        d.size == 416,
        d.cards@ == full_shoe_counts(),
{
    let d = Deck { cards: [32, 32, 32, 32, 32, 32, 32, 32, 32, 128], size: 416 };
    proof {
        assert(d.cards@ =~= full_shoe_counts());
        reveal_with_fuel(spec_total, 11);
    }
    d
}

/// Build a deck from raw counts, computing the size; `None` when the
/// counts cannot sum inside a `u16`.
pub fn from_counts(cards: [u16; 10]) -> (r: Option<Deck>)
    ensures
        r matches Some(d) ==> d.wf() && d.cards@ == cards@,
        r is None ==> deck_total(cards@) > u16::MAX,
{
    let mut total: u32 = 0;
    let mut i: usize = 0;
    while i < 10
        invariant
            0 <= i <= 10,
            total == spec_total(cards@, i as int),
            total <= 0xffff * i,
        decreases 10 - i,
    {
        total = total + cards[i] as u32;
        i = i + 1;
    }
    if total <= u16::MAX as u32 {
        Some(Deck { cards, size: total as u16 })
    } else {
        None
    }
}

/// A deck together with a fixed order in which its cards will come out.
#[derive(Eq, PartialEq, Hash, Debug, Clone)]
pub struct OrderedDeck {
    pub cards: Vec<u16>,
    pub deck: Deck,
}

impl OrderedDeck {
    /// Take the next card in order and remove it from the deck counts.
    pub fn draw(&mut self) -> (card: u16)
        requires
            old(self).deck.wf(),
            old(self).cards@.len() > 0,
            1 <= old(self).cards@.last() <= 10,
            old(self).deck.cards@[old(self).cards@.last() - 1] > 0,
        ensures
            card == old(self).cards@.last(),
            final(self).cards@ == old(self).cards@.drop_last(),
            final(self).deck.wf(),
            final(self).deck.cards@ == spec_draw(old(self).deck.cards@, card as int),
            final(self).deck.size == old(self).deck.size - 1,
    {
        let card = self.cards.pop().unwrap();
        self.deck.draw(card);
        card
    }
}

} // verus!
