//! Hands and their terminal classification.
//!
//! A hand is an ordered sequence of card ranks (1 is the ace, 10 stands for
//! every ten-valued rank).  Legal hands never exceed six cards: both the
//! player and the dealer stop there.

use vstd::prelude::*;
use crate::rat::{q_frac, q_int, q_zero, Q, Rat};

verus! {

/// Terminal classification of a hand, ordered by priority then magnitude:
/// any Bust < any Value < any SixCardCharlie < Natural, and all Naturals
/// compare equal.
#[derive(Debug, PartialOrd, PartialEq, Eq, Structural, Clone, Copy, Hash)]
pub enum Score {
    Bust,
    Value(u16),
    SixCardCharlie(u16),
    Natural,
}

/// Priority class of a score; larger classes beat smaller ones outright.
pub open spec fn score_rank(s: Score) -> int {
    match s {
        Score::Bust => 0,
        Score::Value(_) => 1,
        Score::SixCardCharlie(_) => 2,
        Score::Natural => 3,
    }
}

/// Magnitude used to break ties inside the Value and SixCardCharlie classes.
pub open spec fn score_val(s: Score) -> int {
    match s {
        Score::Bust => 0,
        Score::Value(v) => v as int,
        Score::SixCardCharlie(v) => v as int,
        Score::Natural => 0,
    }
}

/// The strict order on scores: by class, then by magnitude.
pub open spec fn score_lt(a: Score, b: Score) -> bool {
    score_rank(a) < score_rank(b) || (score_rank(a) == score_rank(b) && score_val(a) < score_val(
        b,
    ))
}

/// Law: Bust < Value(v) < SixCardCharlie(w) < Natural for all magnitudes,
/// Naturals are all equal, and within Value and within SixCardCharlie the
/// order is the order of the stored totals.
pub proof fn lemma_score_ordering(v: u16, w: u16)
    ensures
        score_lt(Score::Bust, Score::Value(v)),
        score_lt(Score::Value(v), Score::SixCardCharlie(w)),
        score_lt(Score::SixCardCharlie(v), Score::Natural),
        !score_lt(Score::Natural, Score::Natural),
        score_lt(Score::Value(v), Score::Value(w)) == (v < w),
        score_lt(Score::SixCardCharlie(v), Score::SixCardCharlie(w)) == (v < w),
{
}

/// Law: the score order is a strict total order up to structural equality
/// of scores with equal class and magnitude.
pub proof fn lemma_score_trichotomy(a: Score, b: Score)
    ensures
        score_lt(a, b) || score_lt(b, a) || a == b,
        !(score_lt(a, b) && score_lt(b, a)),
        a == b ==> !score_lt(a, b),
{
}

/// Executable strict comparison agreeing with `score_lt`.
pub fn score_less(a: Score, b: Score) -> (r: bool)
    ensures
        r == score_lt(a, b),
{
    let ra: u8 = match a {
        Score::Bust => 0,
        Score::Value(_) => 1,
        Score::SixCardCharlie(_) => 2,
        Score::Natural => 3,
    };
    let rb: u8 = match b {
        Score::Bust => 0,
        Score::Value(_) => 1,
        Score::SixCardCharlie(_) => 2,
        Score::Natural => 3,
    };
    if ra != rb {
        return ra < rb;
    }
    let va: u16 = match a {
        Score::Value(v) => v,
        Score::SixCardCharlie(v) => v,
        _ => 0,
    };
    let vb: u16 = match b {
        Score::Value(v) => v,
        Score::SixCardCharlie(v) => v,
        _ => 0,
    };
    va < vb
}

/// Sum of the ranks of a hand, aces counted as 1.
pub open spec fn spec_sum(h: Seq<u16>) -> int
    decreases h.len(),
{
    if h.len() == 0 {
        0
    } else {
        spec_sum(h.drop_last()) + h.last()
    }
}

pub open spec fn has_ace(h: Seq<u16>) -> bool {
    exists|i: int| 0 <= i < h.len() && h[i] == 1
}

/// Total value of a hand: the rank sum, upgraded by 10 when an ace can be
/// counted as 11 without busting (a "soft" hand).
pub open spec fn spec_hand_value(h: Seq<u16>) -> int {
    if spec_sum(h) < 12 && has_ace(h) {
        spec_sum(h) + 10
    } else {
        spec_sum(h)
    }
}

/// A legal hand: at most six cards, every rank between 1 and 10.
pub open spec fn valid_hand(h: Seq<u16>) -> bool {
    h.len() <= 6 && forall|i: int| 0 <= i < h.len() ==> 1 <= #[trigger] h[i] <= 10
}

proof fn lemma_sum_step(h: Seq<u16>, i: int)
    requires
        0 <= i < h.len(),
    ensures
        spec_sum(h.take(i + 1)) == spec_sum(h.take(i)) + h[i],
        has_ace(h.take(i + 1)) == (has_ace(h.take(i)) || h[i] == 1),
{
    let t = h.take(i + 1);
    assert(t.drop_last() =~= h.take(i));
    assert(t.last() == h[i]);
    if has_ace(h.take(i)) {
        let j = choose|j: int| 0 <= j < i && h.take(i)[j] == 1;
        assert(t[j] == 1);
    }
    if h[i] == 1 {
        assert(t[i] == 1);
    }
    if has_ace(t) && !(h[i] == 1) {
        let j = choose|j: int| 0 <= j < t.len() && t[j] == 1;
        assert(h.take(i)[j] == 1);
    }
}

/// Total value of the hand, aces upgraded once when soft.
pub fn hand_value(hand: &Vec<u16>) -> (r: u16)
    requires
        valid_hand(hand@),
    ensures
        r == spec_hand_value(hand@),
{
    let mut total: u16 = 0;
    let mut ace: bool = false;
    let mut i: usize = 0;
    while i < hand.len()
        invariant
            valid_hand(hand@),
            0 <= i <= hand.len(),
            total == spec_sum(hand@.take(i as int)),
            ace == has_ace(hand@.take(i as int)),
            total <= 10 * i,
        decreases hand.len() - i,
    {
        proof {
            lemma_sum_step(hand@, i as int);
        }
        total = total + hand[i];
        if hand[i] == 1 {
            ace = true;
        }
        i = i + 1;
    }
    proof {
        assert(hand@.take(hand@.len() as int) =~= hand@);
    }
    if total < 12 && ace {
        total + 10
    } else {
        total
    }
}

/// Minimum possible value of the hand: every ace counted as 1.
pub fn min_hand_value(hand: &Vec<u16>) -> (r: u16)
    requires
        valid_hand(hand@),
    ensures
        r == spec_sum(hand@),
{
    let mut total: u16 = 0;
    let mut i: usize = 0;
    while i < hand.len()
        invariant
            valid_hand(hand@),
            0 <= i <= hand.len(),
            total == spec_sum(hand@.take(i as int)),
            total <= 10 * i,
        decreases hand.len() - i,
    {
        proof {
            lemma_sum_step(hand@, i as int);
        }
        total = total + hand[i];
        i = i + 1;
    }
    proof {
        assert(hand@.take(hand@.len() as int) =~= hand@);
    }
    total
}

/// Classification of a hand: Bust above 21, else SixCardCharlie at six
/// cards, else Natural on a two-card 21, else the plain total.
pub open spec fn spec_score(h: Seq<u16>) -> Score {
    if spec_hand_value(h) > 21 {
        Score::Bust
    } else if h.len() == 6 {
        Score::SixCardCharlie(spec_hand_value(h) as u16)
    } else if h.len() == 2 && spec_hand_value(h) == 21 {
        Score::Natural
    } else {
        Score::Value(spec_hand_value(h) as u16)
    }
}

pub fn score(hand: &Vec<u16>) -> (r: Score)
    requires
        valid_hand(hand@),
    ensures
        r == spec_score(hand@),
{
    let hand_total = hand_value(hand);
    if hand_total > 21 {
        return Score::Bust;
    } else if hand.len() == 6 {
        return Score::SixCardCharlie(hand_total);
    } else if hand.len() == 2 && hand_total == 21 {
        return Score::Natural;
    }
    Score::Value(hand_total)
}

/// Payoff of one finished hand against the dealer's, in units of the bet:
/// a bust always loses, a natural pushes against a natural and otherwise
/// pays 3:2, anything else wins, pushes or loses by the score order.
pub open spec fn payoff(ps: Score, ds: Score) -> Q {
    match ps {
        Score::Bust => q_int(-1),
        Score::Natural => if ds == Score::Natural {
            q_zero()
        } else {
            q_frac(3, 2)
        },
        _ => if score_lt(ds, ps) {
            q_int(1)
        } else if score_lt(ps, ds) {
            q_int(-1)
        } else {
            q_zero()
        },
    }
}

pub fn hand_expectation(player_score: Score, dealer_score: Score) -> (r: Rat)
    ensures
        r.wf(),
        r.q() == payoff(player_score, dealer_score),
{
    match player_score {
        Score::Bust => Rat::neg_frac(1, 1),
        Score::Natural => {
            if dealer_score == Score::Natural {
                Rat::zero()
            } else {
                Rat::frac(3, 2)
            }
        },
        _ => {
            if score_less(dealer_score, player_score) {
                Rat::frac(1, 1)
            } else if score_less(player_score, dealer_score) {
                Rat::neg_frac(1, 1)
            } else {
                Rat::zero()
            }
        },
    }
}

/// Every card counts at least one, so the rank sum is at least the length.
pub proof fn lemma_sum_at_least_len(h: Seq<u16>)
    requires
        forall|i: int| 0 <= i < h.len() ==> 1 <= #[trigger] h[i],
    ensures
        spec_sum(h) >= h.len(),
    decreases h.len(),
{
    if h.len() > 0 {
        let t = h.drop_last();
        assert(forall|i: int| 0 <= i < t.len() ==> 1 <= #[trigger] t[i]) by {
            assert(forall|i: int| 0 <= i < t.len() ==> t[i] == h[i]);
        }
        lemma_sum_at_least_len(t);
    }
}

/// Every card counts at most ten, so the rank sum is at most ten times
/// the length.
pub proof fn lemma_sum_at_most(h: Seq<u16>)
    requires
        forall|i: int| 0 <= i < h.len() ==> #[trigger] h[i] <= 10,
    ensures
        spec_sum(h) <= 10 * h.len(),
    decreases h.len(),
{
    if h.len() > 0 {
        let t = h.drop_last();
        assert(forall|i: int| 0 <= i < t.len() ==> #[trigger] t[i] <= 10) by {
            assert(forall|i: int| 0 <= i < t.len() ==> t[i] == h[i]);
        }
        lemma_sum_at_most(t);
        assert(10 * h.len() == 10 * t.len() + 10) by (nonlinear_arith)
            requires
                t.len() == h.len() - 1,
        ;
    }
}

/// A hand whose minimum total is below 21 is never a bust: a soft upgrade
/// can only raise a sum below 12 to at most 21.
pub proof fn lemma_low_sum_not_bust(h: Seq<u16>)
    requires
        spec_sum(h) < 21,
    ensures
        spec_score(h) != Score::Bust,
{
}

/// Shortening a legal hand keeps it legal.
pub proof fn lemma_valid_drop_last(h: Seq<u16>)
    requires
        valid_hand(h),
        h.len() >= 1,
    ensures
        valid_hand(h.drop_last()),
{
    assert forall|i: int| 0 <= i < h.drop_last().len() implies 1 <= #[trigger] h.drop_last()[i]
        <= 10 by {
        assert(h.drop_last()[i] == h[i]);
    }
}

/// The dealer stops drawing at six cards or a total of seventeen.
pub open spec fn spec_dealer_stands(h: Seq<u16>) -> bool {
    h.len() == 6 || spec_hand_value(h) >= 17
}

pub fn dealer_stands(hand: &Vec<u16>) -> (r: bool)
    requires
        valid_hand(hand@),
    ensures
        r == spec_dealer_stands(hand@),
{
    hand.len() == 6 || hand_value(hand) >= 17
}

/// No further card may be taken at six cards or a minimum total of 21.
pub open spec fn spec_cannot_hit(h: Seq<u16>) -> bool {
    h.len() == 6 || spec_sum(h) >= 21
}

pub fn cannot_hit(player: &Vec<u16>) -> (r: bool)
    requires
        valid_hand(player@),
    ensures
        r == spec_cannot_hit(player@),
{
    player.len() == 6 || min_hand_value(player) >= 21
}

/// Whether the dealer's next draw is known not to be a ten: only when the
/// single up-card is showing and the insurance side bet has been lost.
pub fn next_card_isnt_ten(hand: &Vec<u16>, failed_insurance: bool) -> (r: bool)
    ensures
        r == (hand@.len() == 1 && failed_insurance),
{
    hand.len() == 1 && failed_insurance
}

} // verus!
