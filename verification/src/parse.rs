//! Compact textual encodings of decks and hands.
//!
//! A deck string is ten digits, one count per rank in order; an eleventh
//! digit, when present, is added into the rank-ten bucket.  A hand string
//! is a sequence of digits where `0` stands for rank ten.

use vstd::prelude::*;
use crate::deck::{from_counts, spec_total, Deck};

verus! {

/// Numeric value of an ASCII digit character.
pub open spec fn digit_of(c: char) -> int {
    (c as u32) - 48
}

/// Every character is an ASCII digit.
pub open spec fn all_digits(s: Seq<char>) -> bool {
    forall|i: int| 0 <= i < s.len() ==> 48 <= (#[trigger] s[i] as u32) <= 57
}

proof fn lemma_total_bounded(c: Seq<u16>, n: int, b: int)
    requires
        c.len() == 10,
        0 <= n <= 10,
        forall|i: int| 0 <= i < 10 ==> #[trigger] c[i] <= b,
        b >= 0,
    ensures
        spec_total(c, n) <= n * b,
    decreases n,
{
    if n > 0 {
        lemma_total_bounded(c, n - 1, b);
        assert(n * b == (n - 1) * b + b) by (nonlinear_arith);
    }
}

/// Parse a deck string: one count per rank; an eleventh digit is summed
/// into the rank-ten bucket.
pub fn parse_deck(deck_str: &str) -> (r: Deck)
    requires
        deck_str@.len() == 10 || deck_str@.len() == 11,
        all_digits(deck_str@),
    ensures
        r.wf(),
        forall|i: int| 0 <= i < 9 ==> r.cards@[i] == digit_of(deck_str@[i]),
        r.cards@[9] == digit_of(deck_str@[9]) + if deck_str@.len() == 11 {
            digit_of(deck_str@[10])
        } else {
            0
        },
{
    let mut arr: [u16; 10] = [0, 0, 0, 0, 0, 0, 0, 0, 0, 0];
    let n = deck_str.unicode_len();
    let mut i: usize = 0;
    while i < 10
        invariant
            deck_str@.len() >= 10,
            all_digits(deck_str@),
            0 <= i <= 10,
            arr@.len() == 10,
            forall|j: int| 0 <= j < i ==> arr@[j] == digit_of(deck_str@[j]),
            forall|j: int| 0 <= j < 10 ==> arr@[j] <= 9,
        decreases 10 - i,
    {
        let c = deck_str.get_char(i);
        let v: u32 = (c as u32) - 48;
        arr[i] = v as u16;
        i = i + 1;
    }
    if n == 11 {
        let c = deck_str.get_char(10);
        let v: u32 = (c as u32) - 48;
        arr[9] = arr[9] + (v as u16);
    }
    proof {
        lemma_total_bounded(arr@, 10, 18);
    }
    match from_counts(arr) {
        Some(d) => d,
        None => {
            proof {
                assert(false);
            }
            Deck { cards: arr, size: 0 }
        },
    }
}

/// Parse a hand string: each digit is its own rank, `0` standing for ten.
pub fn parse_hand(hand_str: &str) -> (r: Vec<u16>)
    requires
        all_digits(hand_str@),
    ensures
        r@.len() == hand_str@.len(),
        forall|i: int| 0 <= i < r@.len() ==> r@[i] == if digit_of(hand_str@[i]) == 0 {
            10int
        } else {
            digit_of(hand_str@[i])
        },
{
    let n = hand_str.unicode_len();
    let mut out: Vec<u16> = Vec::new();
    let mut i: usize = 0;
    while i < n
        invariant
            n == hand_str@.len(),
            all_digits(hand_str@),
            0 <= i <= n,
            out@.len() == i,
            forall|j: int| 0 <= j < i ==> out@[j] == if digit_of(hand_str@[j]) == 0 {
                10int
            } else {
                digit_of(hand_str@[j])
            },
        decreases n - i,
    {
        let c = hand_str.get_char(i);
        let v: u32 = (c as u32) - 48;
        if v == 0 {
            out.push(10);
        } else {
            out.push(v as u16);
        }
        i = i + 1;
    }
    out
}

} // verus!
