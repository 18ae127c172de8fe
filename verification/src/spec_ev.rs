//! The meaning of the engine, as pure functions over the specification
//! state: the exact expected return of the dealer's automatic play and of
//! every player decision, written as rational-valued recursions.  The
//! executable engine is proved to return exactly these values whenever it
//! returns at all.

use vstd::prelude::*;
use crate::dealer_dist::{dealer_bnd, lemma_dealer_bnd_nonneg};
use crate::deck::{deck_total, full_shoe_counts, spec_card_prob, spec_draw};
use crate::hand::{payoff, spec_cannot_hit, spec_dealer_stands, spec_score, Score};
use crate::rat::{
    lemma_q_add_cong, lemma_q_eq_trans, lemma_q_max_cong, lemma_q_mul_cong, q_add, q_eq, q_frac,
    q_int, q_max, q_mul, q_sub, q_zero, Q,
};
use crate::state::{
    spec_can_double, spec_can_insurance, spec_can_split, spec_can_surrender, SpecState,
};

verus! {

/// One while the state may still split (splitting is consumed by itself
/// and by a failed insurance bet); part of the termination measure.
pub open spec fn split_allowance(s: SpecState) -> int {
    if !s.split && !s.fi {
        1
    } else {
        0
    }
}

/// One while the insurance branch may still be entered.
pub open spec fn ins_allowance(s: SpecState) -> int {
    if !s.fi {
        1
    } else {
        0
    }
}

/// Expected payoff for the player score `ps` of the dealer's automatic
/// completion: the payoff at a standing hand, otherwise the probability
/// weighted average over the next draw.  Tens are excluded from the first
/// draw after a failed insurance bet.
pub open spec fn sdealer_ev(deck: Seq<u16>, hand: Seq<u16>, fi: bool, ps: Score) -> Q
    decreases 6 - hand.len(), 12int,
        when hand.len() <= 6
{
    if spec_dealer_stands(hand) {
        payoff(ps, spec_score(hand))
    } else {
        sdealer_sum(deck, hand, fi, ps, 10)
    }
}

/// Partial sum of `sdealer_ev` over the draws of ranks `1..=r`.
pub open spec fn sdealer_sum(deck: Seq<u16>, hand: Seq<u16>, fi: bool, ps: Score, r: int) -> Q
    decreases 6 - hand.len(), r,
        when hand.len() < 6 && 0 <= r <= 10
{
    if r == 0 {
        q_zero()
    } else {
        let cant = hand.len() == 1 && fi;
        let term = if deck[r - 1] == 0 || (cant && r == 10) {
            q_zero()
        } else {
            q_mul(
                spec_card_prob(deck, r, cant),
                sdealer_ev(spec_draw(deck, r), hand.push(r as u16), fi, ps),
            )
        };
        q_add(sdealer_sum(deck, hand, fi, ps, r - 1), term)
    }
}

/// Expected return of standing: a bust loses outright, otherwise the
/// dealer plays out and the score payoffs are averaged.
pub open spec fn sstand(s: SpecState) -> Q {
    if spec_score(s.player) == Score::Bust {
        q_int(-1)
    } else {
        sdealer_ev(s.deck, s.dealer, s.fi, spec_score(s.player))
    }
}

/// Partial sum of the hit branch over the draws of ranks `1..=r`: each
/// drawn card reopens the full decision `sexp`.
pub open spec fn shit_sum(s: SpecState, r: int) -> Q
    decreases split_allowance(s), ins_allowance(s), 6 - s.player.len(), 2int, r,
        when s.player.len() <= 5 && 0 <= r <= 10
{
    if r == 0 {
        q_zero()
    } else {
        let term = if s.deck[r - 1] == 0 {
            q_zero()
        } else {
            q_mul(
                spec_card_prob(s.deck, r, false),
                sexp(
                    SpecState {
                        deck: spec_draw(s.deck, r),
                        player: s.player.push(r as u16),
                        dealer: s.dealer,
                        fi: s.fi,
                        split: s.split,
                        fsh: s.fsh,
                    },
                ),
            )
        };
        q_add(shit_sum(s, r - 1), term)
    }
}

/// Expected return of taking one more card.
pub open spec fn shit(s: SpecState) -> Q
    decreases split_allowance(s), ins_allowance(s), 6 - s.player.len(), 3int, 0int,
        when s.player.len() <= 5
{
    shit_sum(s, 10)
}

/// Partial sum of the double branch: one forced card, then a stand.
pub open spec fn sdouble_sum(s: SpecState, r: int) -> Q
    decreases r,
        when s.player.len() <= 5 && 0 <= r <= 10
{
    if r == 0 {
        q_zero()
    } else {
        let term = if s.deck[r - 1] == 0 {
            q_zero()
        } else {
            q_mul(
                spec_card_prob(s.deck, r, false),
                sstand(
                    SpecState {
                        deck: spec_draw(s.deck, r),
                        player: s.player.push(r as u16),
                        dealer: s.dealer,
                        fi: s.fi,
                        split: s.split,
                        fsh: s.fsh,
                    },
                ),
            )
        };
        q_add(sdouble_sum(s, r - 1), term)
    }
}

/// Expected return of doubling down: bet and payoff are both doubled.
pub open spec fn sdouble(s: SpecState) -> Q {
    q_mul(q_int(2), sdouble_sum(s, 10))
}

/// Expected return of the insurance side bet.  A natural wins it outright;
/// when only tens remain it cannot be evaluated and counts zero; otherwise
/// the play continues in the world where the hole card is not a ten,
/// weighted by that world's probability, half a bet poorer.
pub open spec fn sins(s: SpecState) -> Q
    decreases split_allowance(s), ins_allowance(s), 6 - s.player.len(), 3int, 0int,
        when !s.fi && s.player.len() <= 6
{
    if spec_score(s.player) == Score::Natural {
        q_int(1)
    } else if deck_total(s.deck) == s.deck[9] {
        q_zero()
    } else {
        q_mul(
            q_sub(q_int(1), spec_card_prob(s.deck, 10, false)),
            q_sub(
                sexp(
                    SpecState {
                        deck: s.deck,
                        player: s.player,
                        dealer: s.dealer,
                        fi: true,
                        split: s.split,
                        fsh: s.fsh,
                    },
                ),
                q_frac(1, 2),
            ),
        )
    }
}

/// Expected return of splitting the pair: the hand is reduced to one card
/// and played out (twice over) against a fresh full shoe.
pub open spec fn ssplit(s: SpecState) -> Q
    decreases split_allowance(s), ins_allowance(s), 6 - s.player.len(), 3int, 0int,
        when !s.split && !s.fi && 1 <= s.player.len() <= 6
{
    q_mul(
        q_int(2),
        shit(
            SpecState {
                deck: full_shoe_counts(),
                player: s.player.drop_last(),
                dealer: s.dealer,
                fi: s.fi,
                split: true,
                fsh: s.fsh,
            },
        ),
    )
}

/// The best available expected return: standing always, and, when the hand
/// is not terminal, the best of insurance, surrender (a flat loss of
/// half), double, split and hit, each behind its eligibility rule.
pub open spec fn sexp(s: SpecState) -> Q
    decreases split_allowance(s), ins_allowance(s), 6 - s.player.len(), 4int, 0int,
        when s.player.len() <= 6
{
    let stand = sstand(s);
    if spec_cannot_hit(s.player) {
        stand
    } else {
        let m1 = if spec_can_insurance(s) {
            q_max(stand, sins(s))
        } else {
            stand
        };
        let m2 = if spec_can_surrender(s) {
            q_max(m1, q_frac(-1, 2))
        } else {
            m1
        };
        let m3 = if spec_can_double(s) {
            q_max(m2, sdouble(s))
        } else {
            m2
        };
        let m4 = if spec_can_split(s) {
            q_max(m3, ssplit(s))
        } else {
            m3
        };
        q_max(m4, shit(s))
    }
}

/// Partial sum over the dealer's possible next card (the up-card drawn on
/// the dealer's behalf before the player decides).
pub open spec fn splayer_sum(s: SpecState, r: int) -> Q
    decreases r,
        when s.dealer.len() <= 5 && 0 <= r <= 10
{
    if r == 0 {
        q_zero()
    } else {
        let term = if s.deck[r - 1] == 0 {
            q_zero()
        } else {
            q_mul(
                spec_card_prob(s.deck, r, false),
                sexp(
                    SpecState {
                        deck: spec_draw(s.deck, r),
                        player: s.player,
                        dealer: s.dealer.push(r as u16),
                        fi: s.fi,
                        split: s.split,
                        fsh: s.fsh,
                    },
                ),
            )
        };
        q_add(splayer_sum(s, r - 1), term)
    }
}

/// Expected return of the player's hand averaged over the dealer's next
/// card.
pub open spec fn splayer_hand(s: SpecState) -> Q {
    splayer_sum(s, 10)
}

/// Inner sum of the shoe aggregation: the second starting card runs from
/// the first one up, and unordered pairs of distinct ranks count twice.
pub open spec fn sdeck_inner(s: SpecState, p1: Q, c1: int, r: int) -> Q
    decreases r,
        when 1 <= c1 <= 10 && c1 - 1 <= r <= 10
{
    if r <= c1 - 1 {
        q_zero()
    } else {
        let term = if s.deck[r - 1] == 0 {
            q_zero()
        } else {
            let p2 = spec_card_prob(s.deck, r, false);
            let base = q_mul(
                q_mul(p1, p2),
                splayer_hand(
                    SpecState {
                        deck: spec_draw(s.deck, r),
                        player: s.player.push(r as u16),
                        dealer: s.dealer,
                        fi: s.fi,
                        split: s.split,
                        fsh: s.fsh,
                    },
                ),
            );
            if c1 == r {
                base
            } else {
                q_mul(q_int(2), base)
            }
        };
        q_add(sdeck_inner(s, p1, c1, r - 1), term)
    }
}

/// Outer sum of the shoe aggregation over the first starting card.
pub open spec fn sdeck_outer(deck: Seq<u16>, r: int) -> Q
    decreases r,
        when 0 <= r <= 10
{
    if r == 0 {
        q_zero()
    } else {
        let term = if deck[r - 1] == 0 {
            q_zero()
        } else {
            let p1 = spec_card_prob(deck, r, false);
            let s1 = SpecState {
                deck: spec_draw(deck, r),
                player: seq![r as u16],
                dealer: Seq::empty(),
                fi: false,
                split: false,
                fsh: false,
            };
            sdeck_inner(s1, p1, r, 10)
        };
        q_add(sdeck_outer(deck, r - 1), term)
    }
}

/// Expected return per unit bet of playing one optimally-played hand from
/// the given shoe, over all starting pairs and dealer cards.
pub open spec fn sdeck_ev(deck: Seq<u16>) -> Q {
    sdeck_outer(deck, 10)
}

// Positivity of the denominators of the specification values.  Every
// constructor keeps denominators positive, so each fact needs only a
// shallow unfolding.

pub proof fn lemma_payoff_pos(ps: Score, ds: Score)
    ensures
        payoff(ps, ds).d > 0,
{
}

pub proof fn lemma_sdealer_sum_pos(deck: Seq<u16>, hand: Seq<u16>, fi: bool, ps: Score, r: int)
    requires
        hand.len() < 6,
        0 <= r <= 10,
    ensures
        sdealer_sum(deck, hand, fi, ps, r).d > 0,
{
}

pub proof fn lemma_sdealer_ev_pos(deck: Seq<u16>, hand: Seq<u16>, fi: bool, ps: Score)
    requires
        hand.len() <= 6,
    ensures
        sdealer_ev(deck, hand, fi, ps).d > 0,
{
    if spec_dealer_stands(hand) {
        lemma_payoff_pos(ps, spec_score(hand));
    } else {
        lemma_sdealer_sum_pos(deck, hand, fi, ps, 10);
    }
}

pub proof fn lemma_sstand_pos(s: SpecState)
    requires
        s.dealer.len() <= 6,
    ensures
        sstand(s).d > 0,
{
    if spec_score(s.player) != Score::Bust {
        lemma_sdealer_ev_pos(s.deck, s.dealer, s.fi, spec_score(s.player));
    }
}

pub proof fn lemma_shit_sum_pos(s: SpecState, r: int)
    requires
        s.player.len() <= 5,
        0 <= r <= 10,
    ensures
        shit_sum(s, r).d > 0,
{
}

pub proof fn lemma_shit_pos(s: SpecState)
    requires
        s.player.len() <= 5,
    ensures
        shit(s).d > 0,
{
    lemma_shit_sum_pos(s, 10);
}

pub proof fn lemma_sdouble_sum_pos(s: SpecState, r: int)
    requires
        s.player.len() <= 5,
        0 <= r <= 10,
    ensures
        sdouble_sum(s, r).d > 0,
{
}

pub proof fn lemma_sdouble_pos(s: SpecState)
    ensures
        sdouble(s).d > 0,
{
}

pub proof fn lemma_sins_pos(s: SpecState)
    requires
        !s.fi,
        s.player.len() <= 6,
    ensures
        sins(s).d > 0,
{
}

pub proof fn lemma_ssplit_pos(s: SpecState)
    requires
        !s.split,
        !s.fi,
        1 <= s.player.len() <= 6,
    ensures
        ssplit(s).d > 0,
{
}

pub proof fn lemma_sexp_pos(s: SpecState)
    requires
        s.player.len() <= 6,
        s.dealer.len() <= 6,
    ensures
        sexp(s).d > 0,
{
    lemma_sstand_pos(s);
    if !spec_cannot_hit(s.player) {
        if spec_can_insurance(s) {
            lemma_sins_pos(s);
        }
        if spec_can_split(s) {
            lemma_ssplit_pos(s);
        }
        lemma_shit_pos(s);
    }
}

pub proof fn lemma_splayer_sum_pos(s: SpecState, r: int)
    requires
        s.dealer.len() <= 5,
        0 <= r <= 10,
    ensures
        splayer_sum(s, r).d > 0,
{
}

pub proof fn lemma_sdeck_inner_pos(s: SpecState, p1: Q, c1: int, r: int)
    requires
        1 <= c1 <= 10,
        c1 - 1 <= r <= 10,
    ensures
        sdeck_inner(s, p1, c1, r).d > 0,
{
}

pub proof fn lemma_sdeck_outer_pos(deck: Seq<u16>, r: int)
    requires
        0 <= r <= 10,
    ensures
        sdeck_outer(deck, r).d > 0,
{
}

/// Adding an exact zero changes nothing.
pub proof fn lemma_q_add_zero(y: Q)
    requires
        y.d > 0,
    ensures
        q_add(y, q_zero()) == y,
{
    assert(y.n * 1 == y.n);
    assert(0 * y.d == 0);
    assert(y.d * 1 == y.d);
}

/// One accumulation step of an executable sum, transported to the
/// specification sum: if the running value tracks the specification
/// prefix and the term tracks the specification term, the new running
/// value tracks the extended prefix.
pub proof fn lemma_acc_step(acc_old: Q, term: Q, acc_new: Q, sprev: Q, sterm: Q)
    requires
        q_eq(acc_new, q_add(acc_old, term)),
        q_eq(acc_old, sprev),
        q_eq(term, sterm),
        acc_old.d > 0,
        term.d > 0,
        sprev.d > 0,
        sterm.d > 0,
    ensures
        q_eq(acc_new, q_add(sprev, sterm)),
{
    lemma_q_add_cong(acc_old, term, sprev, sterm);
    lemma_q_eq_trans(acc_new, q_add(acc_old, term), q_add(sprev, sterm));
}

/// A product with an exactly-known left factor, transported to the
/// specification's right factor.
pub proof fn lemma_mul_step(p: Q, sub: Q, term: Q, ssub: Q)
    requires
        q_eq(term, q_mul(p, sub)),
        q_eq(sub, ssub),
        p.d > 0,
        sub.d > 0,
        ssub.d > 0,
    ensures
        q_eq(term, q_mul(p, ssub)),
{
    lemma_q_mul_cong(p, sub, p, ssub);
    lemma_q_eq_trans(term, q_mul(p, sub), q_mul(p, ssub));
}

/// A maximum of tracked values tracks the maximum of the specification
/// values.
pub proof fn lemma_max_step(a: Q, b: Q, x: Q, y: Q)
    requires
        q_eq(a, x),
        q_eq(b, y),
        a.d > 0,
        b.d > 0,
        x.d > 0,
        y.d > 0,
    ensures
        q_eq(q_max(a, b), q_max(x, y)),
{
    lemma_q_max_cong(a, b, x, y);
}

// Worst-case magnitude bounds for the player-side computation, mirroring
// the expectation recursion: the `n` field bounds every numerator
// magnitude and the `d` field every denominator that the executable
// engine can build up, assuming reduction never cancels anything.  When
// the bound of a state fits the machine word, the engine is proved to
// return a value on that state.

/// Componentwise maximum of two magnitude bounds.
pub open spec fn bmax(a: Q, b: Q) -> Q {
    Q {
        n: if a.n >= b.n {
            a.n
        } else {
            b.n
        },
        d: if a.d >= b.d {
            a.d
        } else {
            b.d
        },
    }
}

/// Bound for the stand value: one for the immediate bust loss, otherwise
/// the dealer recursion's bound.
pub open spec fn pstand_bnd(s: SpecState) -> Q {
    if spec_score(s.player) == Score::Bust {
        Q { n: 1, d: 1 }
    } else {
        dealer_bnd(s.deck, s.dealer, s.fi)
    }
}

/// Bound after folding the hit draws of ranks `1..=r`.
pub open spec fn phit_sum_bnd(s: SpecState, r: int) -> Q
    decreases split_allowance(s), ins_allowance(s), 6 - s.player.len(), 2int, r,
        when s.player.len() <= 5 && 0 <= r <= 10
{
    if r == 0 {
        Q { n: 0, d: 1 }
    } else {
        let prev = phit_sum_bnd(s, r - 1);
        if s.deck[r - 1] == 0 {
            prev
        } else {
            let p = spec_card_prob(s.deck, r, false);
            let sub = pexp_bnd(
                SpecState {
                    deck: spec_draw(s.deck, r),
                    player: s.player.push(r as u16),
                    dealer: s.dealer,
                    fi: s.fi,
                    split: s.split,
                    fsh: s.fsh,
                },
            );
            let tn = p.n * sub.n;
            let td = p.d * sub.d;
            Q { n: prev.n * td + tn * prev.d, d: prev.d * td }
        }
    }
}

pub open spec fn phit_bnd(s: SpecState) -> Q
    decreases split_allowance(s), ins_allowance(s), 6 - s.player.len(), 3int, 0int,
        when s.player.len() <= 5
{
    phit_sum_bnd(s, 10)
}

/// Bound after folding the double-down draws of ranks `1..=r`.
pub open spec fn pdouble_sum_bnd(s: SpecState, r: int) -> Q
    decreases r,
        when s.player.len() <= 5 && 0 <= r <= 10
{
    if r == 0 {
        Q { n: 0, d: 1 }
    } else {
        let prev = pdouble_sum_bnd(s, r - 1);
        if s.deck[r - 1] == 0 {
            prev
        } else {
            let p = spec_card_prob(s.deck, r, false);
            let sub = pstand_bnd(
                SpecState {
                    deck: spec_draw(s.deck, r),
                    player: s.player.push(r as u16),
                    dealer: s.dealer,
                    fi: s.fi,
                    split: s.split,
                    fsh: s.fsh,
                },
            );
            let tn = p.n * sub.n;
            let td = p.d * sub.d;
            Q { n: prev.n * td + tn * prev.d, d: prev.d * td }
        }
    }
}

pub open spec fn pdouble_bnd(s: SpecState) -> Q {
    Q { n: 2 * pdouble_sum_bnd(s, 10).n, d: pdouble_sum_bnd(s, 10).d }
}

/// Bound for the insurance value: the two differences and their product,
/// magnitude by magnitude.
pub open spec fn pins_bnd(s: SpecState) -> Q
    decreases split_allowance(s), ins_allowance(s), 6 - s.player.len(), 3int, 0int,
        when !s.fi && s.player.len() <= 6
{
    if spec_score(s.player) == Score::Natural {
        Q { n: 1, d: 1 }
    } else if deck_total(s.deck) == s.deck[9] {
        Q { n: 0, d: 1 }
    } else {
        let p10 = spec_card_prob(s.deck, 10, false);
        let fb = Q { n: p10.d + p10.n, d: p10.d };
        let e = pexp_bnd(
            SpecState {
                deck: s.deck,
                player: s.player,
                dealer: s.dealer,
                fi: true,
                split: s.split,
                fsh: s.fsh,
            },
        );
        let ib = Q { n: e.n * 2 + e.d, d: e.d * 2 };
        Q { n: fb.n * ib.n, d: fb.d * ib.d }
    }
}

/// Bound for the split value: twice the hit bound of the one-card hand
/// against the fresh full shoe.
pub open spec fn psplit_bnd(s: SpecState) -> Q
    decreases split_allowance(s), ins_allowance(s), 6 - s.player.len(), 3int, 0int,
        when !s.split && !s.fi && 1 <= s.player.len() <= 6
{
    let h = phit_bnd(
        SpecState {
            deck: full_shoe_counts(),
            player: s.player.drop_last(),
            dealer: s.dealer,
            fi: s.fi,
            split: true,
            fsh: s.fsh,
        },
    );
    Q { n: 2 * h.n, d: h.d }
}

/// Bound for the best available return: every branch the engine computes
/// stays under the componentwise maximum of the branch bounds.
pub open spec fn pexp_bnd(s: SpecState) -> Q
    decreases split_allowance(s), ins_allowance(s), 6 - s.player.len(), 4int, 0int,
        when s.player.len() <= 6
{
    let st = pstand_bnd(s);
    if spec_cannot_hit(s.player) {
        st
    } else {
        let m1 = if spec_can_insurance(s) {
            bmax(st, pins_bnd(s))
        } else {
            st
        };
        let m2 = if spec_can_surrender(s) {
            bmax(m1, Q { n: 1, d: 2 })
        } else {
            m1
        };
        let m3 = if spec_can_double(s) {
            bmax(m2, pdouble_bnd(s))
        } else {
            m2
        };
        let m4 = if spec_can_split(s) {
            bmax(m3, psplit_bnd(s))
        } else {
            m3
        };
        bmax(m4, phit_bnd(s))
    }
}

/// The whole decision computation of a state stays representable in the
/// engine's machine rationals.
pub open spec fn pexp_fits(s: SpecState) -> bool {
    pexp_bnd(s).n <= u64::MAX && pexp_bnd(s).d <= u64::MAX
}

pub open spec fn phit_fits(s: SpecState) -> bool {
    phit_bnd(s).n <= u64::MAX && phit_bnd(s).d <= u64::MAX
}

pub open spec fn pdouble_fits(s: SpecState) -> bool {
    pdouble_bnd(s).n <= u64::MAX && pdouble_bnd(s).d <= u64::MAX
}

pub open spec fn pins_fits(s: SpecState) -> bool {
    pins_bnd(s).n <= u64::MAX && pins_bnd(s).d <= u64::MAX
}

pub open spec fn psplit_fits(s: SpecState) -> bool {
    psplit_bnd(s).n <= u64::MAX && psplit_bnd(s).d <= u64::MAX
}

pub proof fn lemma_pstand_bnd_nonneg(s: SpecState)
    requires
        s.dealer.len() <= 6,
    ensures
        pstand_bnd(s).n >= 0,
        pstand_bnd(s).d >= 1,
{
    if spec_score(s.player) != Score::Bust {
        lemma_dealer_bnd_nonneg(s.deck, s.dealer, s.fi);
    }
}

pub proof fn lemma_pexp_bnd_nonneg(s: SpecState)
    requires
        s.player.len() <= 6,
        s.dealer.len() <= 6,
    ensures
        pexp_bnd(s).n >= 0,
        pexp_bnd(s).d >= 1,
    decreases split_allowance(s), ins_allowance(s), 6 - s.player.len(), 4int, 0int,
{
    lemma_pstand_bnd_nonneg(s);
    if !spec_cannot_hit(s.player) {
        if spec_can_insurance(s) {
            lemma_pins_bnd_nonneg(s);
        }
        if spec_can_double(s) {
            lemma_pdouble_sum_bnd_nonneg(s, 10);
        }
        if spec_can_split(s) {
            lemma_psplit_bnd_nonneg(s);
        }
        lemma_phit_bnd_nonneg(s);
    }
}

pub proof fn lemma_phit_bnd_nonneg(s: SpecState)
    requires
        s.player.len() <= 5,
        s.dealer.len() <= 6,
    ensures
        phit_bnd(s).n >= 0,
        phit_bnd(s).d >= 1,
    decreases split_allowance(s), ins_allowance(s), 6 - s.player.len(), 3int, 0int,
{
    lemma_phit_sum_bnd_nonneg(s, 10);
}

pub proof fn lemma_phit_sum_bnd_nonneg(s: SpecState, r: int)
    requires
        s.player.len() <= 5,
        s.dealer.len() <= 6,
        0 <= r <= 10,
    ensures
        phit_sum_bnd(s, r).n >= 0,
        phit_sum_bnd(s, r).d >= 1,
    decreases split_allowance(s), ins_allowance(s), 6 - s.player.len(), 2int, r,
{
    if r > 0 {
        lemma_phit_sum_bnd_nonneg(s, r - 1);
        if s.deck[r - 1] != 0 {
            let prev = phit_sum_bnd(s, r - 1);
            let p = spec_card_prob(s.deck, r, false);
            let child = SpecState {
                deck: spec_draw(s.deck, r),
                player: s.player.push(r as u16),
                dealer: s.dealer,
                fi: s.fi,
                split: s.split,
                fsh: s.fsh,
            };
            lemma_pexp_bnd_nonneg(child);
            let sub = pexp_bnd(child);
            assert(p.n >= 1 && p.d >= 1);
            assert(prev.n * (p.d * sub.d) + (p.n * sub.n) * prev.d >= 0 && prev.d * (p.d * sub.d)
                >= 1) by (nonlinear_arith)
                requires
                    prev.n >= 0,
                    prev.d >= 1,
                    p.n >= 1,
                    p.d >= 1,
                    sub.n >= 0,
                    sub.d >= 1,
            ;
        }
    }
}

pub proof fn lemma_pdouble_sum_bnd_nonneg(s: SpecState, r: int)
    requires
        s.player.len() <= 5,
        s.dealer.len() <= 6,
        0 <= r <= 10,
    ensures
        pdouble_sum_bnd(s, r).n >= 0,
        pdouble_sum_bnd(s, r).d >= 1,
    decreases r,
{
    if r > 0 {
        lemma_pdouble_sum_bnd_nonneg(s, r - 1);
        if s.deck[r - 1] != 0 {
            let prev = pdouble_sum_bnd(s, r - 1);
            let p = spec_card_prob(s.deck, r, false);
            let child = SpecState {
                deck: spec_draw(s.deck, r),
                player: s.player.push(r as u16),
                dealer: s.dealer,
                fi: s.fi,
                split: s.split,
                fsh: s.fsh,
            };
            lemma_pstand_bnd_nonneg(child);
            let sub = pstand_bnd(child);
            assert(p.n >= 1 && p.d >= 1);
            assert(prev.n * (p.d * sub.d) + (p.n * sub.n) * prev.d >= 0 && prev.d * (p.d * sub.d)
                >= 1) by (nonlinear_arith)
                requires
                    prev.n >= 0,
                    prev.d >= 1,
                    p.n >= 1,
                    p.d >= 1,
                    sub.n >= 0,
                    sub.d >= 1,
            ;
        }
    }
}

pub proof fn lemma_pins_bnd_nonneg(s: SpecState)
    requires
        !s.fi,
        s.player.len() <= 6,
        s.dealer.len() <= 6,
    ensures
        pins_bnd(s).n >= 0,
        pins_bnd(s).d >= 1,
    decreases split_allowance(s), ins_allowance(s), 6 - s.player.len(), 3int, 0int,
{
    if spec_score(s.player) != Score::Natural && deck_total(s.deck) != s.deck[9] {
        let p10 = spec_card_prob(s.deck, 10, false);
        assert(p10.n >= 0 && p10.d >= 1);
        let s2 = SpecState {
            deck: s.deck,
            player: s.player,
            dealer: s.dealer,
            fi: true,
            split: s.split,
            fsh: s.fsh,
        };
        lemma_pexp_bnd_nonneg(s2);
        let e = pexp_bnd(s2);
        assert((p10.d + p10.n) * (e.n * 2 + e.d) >= 0 && p10.d * (e.d * 2) >= 1)
            by (nonlinear_arith)
            requires
                p10.n >= 0,
                p10.d >= 1,
                e.n >= 0,
                e.d >= 1,
        ;
    }
}

pub proof fn lemma_psplit_bnd_nonneg(s: SpecState)
    requires
        !s.split,
        !s.fi,
        1 <= s.player.len() <= 6,
        s.dealer.len() <= 6,
    ensures
        psplit_bnd(s).n >= 0,
        psplit_bnd(s).d >= 1,
    decreases split_allowance(s), ins_allowance(s), 6 - s.player.len(), 3int, 0int,
{
    let child = SpecState {
        deck: full_shoe_counts(),
        player: s.player.drop_last(),
        dealer: s.dealer,
        fi: s.fi,
        split: true,
        fsh: s.fsh,
    };
    lemma_phit_bnd_nonneg(child);
}

/// Folding in one more hit rank never shrinks the bound, and everything
/// folded in — the child's bound and the term's two products — sits below
/// the new bound.
pub proof fn lemma_phit_bnd_step(s: SpecState, r: int)
    requires
        s.player.len() <= 5,
        s.dealer.len() <= 6,
        1 <= r <= 10,
    ensures
        phit_sum_bnd(s, r - 1).n <= phit_sum_bnd(s, r).n,
        phit_sum_bnd(s, r - 1).d <= phit_sum_bnd(s, r).d,
        s.deck[r - 1] != 0 ==> {
            let p = spec_card_prob(s.deck, r, false);
            let sub = pexp_bnd(
                SpecState {
                    deck: spec_draw(s.deck, r),
                    player: s.player.push(r as u16),
                    dealer: s.dealer,
                    fi: s.fi,
                    split: s.split,
                    fsh: s.fsh,
                },
            );
            sub.n <= p.n * sub.n <= phit_sum_bnd(s, r).n && sub.d <= p.d * sub.d <= phit_sum_bnd(
                s,
                r,
            ).d
        },
{
    lemma_phit_sum_bnd_nonneg(s, r - 1);
    if s.deck[r - 1] != 0 {
        let prev = phit_sum_bnd(s, r - 1);
        let p = spec_card_prob(s.deck, r, false);
        let child = SpecState {
            deck: spec_draw(s.deck, r),
            player: s.player.push(r as u16),
            dealer: s.dealer,
            fi: s.fi,
            split: s.split,
            fsh: s.fsh,
        };
        lemma_pexp_bnd_nonneg(child);
        let sub = pexp_bnd(child);
        assert(p.n >= 1 && p.d >= 1);
        assert(prev.n <= prev.n * (p.d * sub.d) && prev.d <= prev.d * (p.d * sub.d) && sub.n <= p.n
            * sub.n && sub.d <= p.d * sub.d && p.n * sub.n <= prev.n * (p.d * sub.d) + (p.n * sub.n)
            * prev.d && p.d * sub.d <= prev.d * (p.d * sub.d)) by (nonlinear_arith)
            requires
                prev.n >= 0,
                prev.d >= 1,
                p.n >= 1,
                p.d >= 1,
                sub.n >= 0,
                sub.d >= 1,
        ;
    }
}

pub proof fn lemma_phit_bnd_mono(s: SpecState, r1: int, r2: int)
    requires
        s.player.len() <= 5,
        s.dealer.len() <= 6,
        0 <= r1 <= r2 <= 10,
    ensures
        phit_sum_bnd(s, r1).n <= phit_sum_bnd(s, r2).n,
        phit_sum_bnd(s, r1).d <= phit_sum_bnd(s, r2).d,
    decreases r2 - r1,
{
    if r1 < r2 {
        lemma_phit_bnd_mono(s, r1, r2 - 1);
        lemma_phit_bnd_step(s, r2);
    }
}

/// The double-down analogue of the hit-bound step.
pub proof fn lemma_pdouble_bnd_step(s: SpecState, r: int)
    requires
        s.player.len() <= 5,
        s.dealer.len() <= 6,
        1 <= r <= 10,
    ensures
        pdouble_sum_bnd(s, r - 1).n <= pdouble_sum_bnd(s, r).n,
        pdouble_sum_bnd(s, r - 1).d <= pdouble_sum_bnd(s, r).d,
        s.deck[r - 1] != 0 ==> {
            let p = spec_card_prob(s.deck, r, false);
            let sub = pstand_bnd(
                SpecState {
                    deck: spec_draw(s.deck, r),
                    player: s.player.push(r as u16),
                    dealer: s.dealer,
                    fi: s.fi,
                    split: s.split,
                    fsh: s.fsh,
                },
            );
            sub.n <= p.n * sub.n <= pdouble_sum_bnd(s, r).n && sub.d <= p.d * sub.d
                <= pdouble_sum_bnd(s, r).d
        },
{
    lemma_pdouble_sum_bnd_nonneg(s, r - 1);
    if s.deck[r - 1] != 0 {
        let prev = pdouble_sum_bnd(s, r - 1);
        let p = spec_card_prob(s.deck, r, false);
        let child = SpecState {
            deck: spec_draw(s.deck, r),
            player: s.player.push(r as u16),
            dealer: s.dealer,
            fi: s.fi,
            split: s.split,
            fsh: s.fsh,
        };
        lemma_pstand_bnd_nonneg(child);
        let sub = pstand_bnd(child);
        assert(p.n >= 1 && p.d >= 1);
        assert(prev.n <= prev.n * (p.d * sub.d) && prev.d <= prev.d * (p.d * sub.d) && sub.n <= p.n
            * sub.n && sub.d <= p.d * sub.d && p.n * sub.n <= prev.n * (p.d * sub.d) + (p.n * sub.n)
            * prev.d && p.d * sub.d <= prev.d * (p.d * sub.d)) by (nonlinear_arith)
            requires
                prev.n >= 0,
                prev.d >= 1,
                p.n >= 1,
                p.d >= 1,
                sub.n >= 0,
                sub.d >= 1,
        ;
    }
}

pub proof fn lemma_pdouble_bnd_mono(s: SpecState, r1: int, r2: int)
    requires
        s.player.len() <= 5,
        s.dealer.len() <= 6,
        0 <= r1 <= r2 <= 10,
    ensures
        pdouble_sum_bnd(s, r1).n <= pdouble_sum_bnd(s, r2).n,
        pdouble_sum_bnd(s, r1).d <= pdouble_sum_bnd(s, r2).d,
    decreases r2 - r1,
{
    if r1 < r2 {
        lemma_pdouble_bnd_mono(s, r1, r2 - 1);
        lemma_pdouble_bnd_step(s, r2);
    }
}

/// Bound after folding the dealer's possible next cards `1..=r`.
pub open spec fn pph_sum_bnd(s: SpecState, r: int) -> Q
    decreases r,
        when s.dealer.len() <= 5 && 0 <= r <= 10
{
    if r == 0 {
        Q { n: 0, d: 1 }
    } else {
        let prev = pph_sum_bnd(s, r - 1);
        if s.deck[r - 1] == 0 {
            prev
        } else {
            let p = spec_card_prob(s.deck, r, false);
            let sub = pexp_bnd(
                SpecState {
                    deck: spec_draw(s.deck, r),
                    player: s.player,
                    dealer: s.dealer.push(r as u16),
                    fi: s.fi,
                    split: s.split,
                    fsh: s.fsh,
                },
            );
            let tn = p.n * sub.n;
            let td = p.d * sub.d;
            Q { n: prev.n * td + tn * prev.d, d: prev.d * td }
        }
    }
}

pub open spec fn pph_bnd(s: SpecState) -> Q {
    pph_sum_bnd(s, 10)
}

pub open spec fn pph_fits(s: SpecState) -> bool {
    pph_bnd(s).n <= u64::MAX && pph_bnd(s).d <= u64::MAX
}

pub proof fn lemma_pph_sum_bnd_nonneg(s: SpecState, r: int)
    requires
        s.player.len() <= 6,
        s.dealer.len() <= 5,
        0 <= r <= 10,
    ensures
        pph_sum_bnd(s, r).n >= 0,
        pph_sum_bnd(s, r).d >= 1,
    decreases r,
{
    if r > 0 {
        lemma_pph_sum_bnd_nonneg(s, r - 1);
        if s.deck[r - 1] != 0 {
            let prev = pph_sum_bnd(s, r - 1);
            let p = spec_card_prob(s.deck, r, false);
            let child = SpecState {
                deck: spec_draw(s.deck, r),
                player: s.player,
                dealer: s.dealer.push(r as u16),
                fi: s.fi,
                split: s.split,
                fsh: s.fsh,
            };
            lemma_pexp_bnd_nonneg(child);
            let sub = pexp_bnd(child);
            assert(p.n >= 1 && p.d >= 1);
            assert(prev.n * (p.d * sub.d) + (p.n * sub.n) * prev.d >= 0 && prev.d * (p.d * sub.d)
                >= 1) by (nonlinear_arith)
                requires
                    prev.n >= 0,
                    prev.d >= 1,
                    p.n >= 1,
                    p.d >= 1,
                    sub.n >= 0,
                    sub.d >= 1,
            ;
        }
    }
}

/// The analogue of the hit-bound step for the dealer's next card.
pub proof fn lemma_pph_bnd_step(s: SpecState, r: int)
    requires
        s.player.len() <= 6,
        s.dealer.len() <= 5,
        1 <= r <= 10,
    ensures
        pph_sum_bnd(s, r - 1).n <= pph_sum_bnd(s, r).n,
        pph_sum_bnd(s, r - 1).d <= pph_sum_bnd(s, r).d,
        s.deck[r - 1] != 0 ==> {
            let p = spec_card_prob(s.deck, r, false);
            let sub = pexp_bnd(
                SpecState {
                    deck: spec_draw(s.deck, r),
                    player: s.player,
                    dealer: s.dealer.push(r as u16),
                    fi: s.fi,
                    split: s.split,
                    fsh: s.fsh,
                },
            );
            sub.n <= p.n * sub.n <= pph_sum_bnd(s, r).n && sub.d <= p.d * sub.d <= pph_sum_bnd(
                s,
                r,
            ).d
        },
{
    lemma_pph_sum_bnd_nonneg(s, r - 1);
    if s.deck[r - 1] != 0 {
        let prev = pph_sum_bnd(s, r - 1);
        let p = spec_card_prob(s.deck, r, false);
        let child = SpecState {
            deck: spec_draw(s.deck, r),
            player: s.player,
            dealer: s.dealer.push(r as u16),
            fi: s.fi,
            split: s.split,
            fsh: s.fsh,
        };
        lemma_pexp_bnd_nonneg(child);
        let sub = pexp_bnd(child);
        assert(p.n >= 1 && p.d >= 1);
        assert(prev.n <= prev.n * (p.d * sub.d) && prev.d <= prev.d * (p.d * sub.d) && sub.n <= p.n
            * sub.n && sub.d <= p.d * sub.d && p.n * sub.n <= prev.n * (p.d * sub.d) + (p.n * sub.n)
            * prev.d && p.d * sub.d <= prev.d * (p.d * sub.d)) by (nonlinear_arith)
            requires
                prev.n >= 0,
                prev.d >= 1,
                p.n >= 1,
                p.d >= 1,
                sub.n >= 0,
                sub.d >= 1,
        ;
    }
}

pub proof fn lemma_pph_bnd_mono(s: SpecState, r1: int, r2: int)
    requires
        s.player.len() <= 6,
        s.dealer.len() <= 5,
        0 <= r1 <= r2 <= 10,
    ensures
        pph_sum_bnd(s, r1).n <= pph_sum_bnd(s, r2).n,
        pph_sum_bnd(s, r1).d <= pph_sum_bnd(s, r2).d,
    decreases r2 - r1,
{
    if r1 < r2 {
        lemma_pph_bnd_mono(s, r1, r2 - 1);
        lemma_pph_bnd_step(s, r2);
    }
}

/// Bound for one starting pair of the shoe aggregation: the two draw
/// probabilities, the hand's bound (padded by one so that the partial
/// products stay below it), and the doubling of unordered pairs.
pub open spec fn pdeck_term_bnd(s1: SpecState, p1: Q, c1: int, r: int) -> Q
    decreases 0int,
        when s1.dealer.len() <= 5 && 1 <= r <= 10
{
    let p2 = spec_card_prob(s1.deck, r, false);
    let child = SpecState {
        deck: spec_draw(s1.deck, r),
        player: s1.player.push(r as u16),
        dealer: s1.dealer,
        fi: s1.fi,
        split: s1.split,
        fsh: s1.fsh,
    };
    let h = pph_bnd(child);
    let base_n = (p1.n * p2.n) * (h.n + 1);
    let base_d = (p1.d * p2.d) * h.d;
    if c1 == r {
        Q { n: base_n, d: base_d }
    } else {
        Q { n: 2 * base_n, d: base_d }
    }
}

/// Bound after folding the second starting cards `c1..=r`.
pub open spec fn pdeck_inner_bnd(s1: SpecState, p1: Q, c1: int, r: int) -> Q
    decreases r,
        when s1.dealer.len() <= 5 && 1 <= c1 <= 10 && c1 - 1 <= r <= 10
{
    if r <= c1 - 1 {
        Q { n: 0, d: 1 }
    } else {
        let prev = pdeck_inner_bnd(s1, p1, c1, r - 1);
        if s1.deck[r - 1] == 0 {
            prev
        } else {
            let t = pdeck_term_bnd(s1, p1, c1, r);
            Q { n: prev.n * t.d + t.n * prev.d, d: prev.d * t.d }
        }
    }
}

/// Bound after folding the first starting cards `1..=r`.
pub open spec fn pdeck_outer_bnd(deck: Seq<u16>, r: int) -> Q
    decreases r,
        when 0 <= r <= 10
{
    if r == 0 {
        Q { n: 0, d: 1 }
    } else {
        let prev = pdeck_outer_bnd(deck, r - 1);
        if deck[r - 1] == 0 {
            prev
        } else {
            let p1 = spec_card_prob(deck, r, false);
            let s1 = SpecState {
                deck: spec_draw(deck, r),
                player: seq![r as u16],
                dealer: Seq::empty(),
                fi: false,
                split: false,
                fsh: false,
            };
            let t = pdeck_inner_bnd(s1, p1, r, 10);
            Q { n: prev.n * t.d + t.n * prev.d, d: prev.d * t.d }
        }
    }
}

/// The whole-shoe aggregation stays representable.
pub open spec fn pdeck_fits(deck: Seq<u16>) -> bool {
    pdeck_outer_bnd(deck, 10).n <= u64::MAX && pdeck_outer_bnd(deck, 10).d <= u64::MAX
}

pub proof fn lemma_pdeck_term_bnd_nonneg(s1: SpecState, p1: Q, c1: int, r: int)
    requires
        s1.player.len() <= 5,
        s1.dealer.len() <= 5,
        p1.n >= 1,
        p1.d >= 1,
        1 <= c1 <= 10,
        1 <= r <= 10,
        s1.deck[r - 1] != 0,
    ensures
        pdeck_term_bnd(s1, p1, c1, r).n >= 1,
        pdeck_term_bnd(s1, p1, c1, r).d >= 1,
{
    let p2 = spec_card_prob(s1.deck, r, false);
    let child = SpecState {
        deck: spec_draw(s1.deck, r),
        player: s1.player.push(r as u16),
        dealer: s1.dealer,
        fi: s1.fi,
        split: s1.split,
        fsh: s1.fsh,
    };
    lemma_pph_sum_bnd_nonneg(child, 10);
    let h = pph_bnd(child);
    assert(p2.n >= 1 && p2.d >= 1);
    assert((p1.n * p2.n) * (h.n + 1) >= 1 && (p1.d * p2.d) * h.d >= 1) by (nonlinear_arith)
        requires
            p1.n >= 1,
            p1.d >= 1,
            p2.n >= 1,
            p2.d >= 1,
            h.n >= 0,
            h.d >= 1,
    ;
}

pub proof fn lemma_pdeck_inner_bnd_nonneg(s1: SpecState, p1: Q, c1: int, r: int)
    requires
        s1.player.len() <= 5,
        s1.dealer.len() <= 5,
        p1.n >= 1,
        p1.d >= 1,
        1 <= c1 <= 10,
        c1 - 1 <= r <= 10,
    ensures
        pdeck_inner_bnd(s1, p1, c1, r).n >= 0,
        pdeck_inner_bnd(s1, p1, c1, r).d >= 1,
    decreases r,
{
    if r > c1 - 1 {
        lemma_pdeck_inner_bnd_nonneg(s1, p1, c1, r - 1);
        if s1.deck[r - 1] != 0 {
            let prev = pdeck_inner_bnd(s1, p1, c1, r - 1);
            lemma_pdeck_term_bnd_nonneg(s1, p1, c1, r);
            let t = pdeck_term_bnd(s1, p1, c1, r);
            assert(prev.n * t.d + t.n * prev.d >= 0 && prev.d * t.d >= 1) by (nonlinear_arith)
                requires
                    prev.n >= 0,
                    prev.d >= 1,
                    t.n >= 1,
                    t.d >= 1,
            ;
        }
    }
}

/// One step of the inner fold: the term and all its partial products stay
/// below the new bound.
pub proof fn lemma_pdeck_inner_bnd_step(s1: SpecState, p1: Q, c1: int, r: int)
    requires
        s1.player.len() <= 5,
        s1.dealer.len() <= 5,
        p1.n >= 1,
        p1.d >= 1,
        1 <= c1 <= 10,
        c1 <= r <= 10,
    ensures
        pdeck_inner_bnd(s1, p1, c1, r - 1).n <= pdeck_inner_bnd(s1, p1, c1, r).n,
        pdeck_inner_bnd(s1, p1, c1, r - 1).d <= pdeck_inner_bnd(s1, p1, c1, r).d,
        s1.deck[r - 1] != 0 ==> pdeck_term_bnd(s1, p1, c1, r).n <= pdeck_inner_bnd(
            s1,
            p1,
            c1,
            r,
        ).n && pdeck_term_bnd(s1, p1, c1, r).d <= pdeck_inner_bnd(s1, p1, c1, r).d,
{
    lemma_pdeck_inner_bnd_nonneg(s1, p1, c1, r - 1);
    if s1.deck[r - 1] != 0 {
        let prev = pdeck_inner_bnd(s1, p1, c1, r - 1);
        lemma_pdeck_term_bnd_nonneg(s1, p1, c1, r);
        let t = pdeck_term_bnd(s1, p1, c1, r);
        assert(prev.n <= prev.n * t.d + t.n * prev.d && prev.d <= prev.d * t.d && t.n <= prev.n
            * t.d + t.n * prev.d && t.d <= prev.d * t.d) by (nonlinear_arith)
            requires
                prev.n >= 0,
                prev.d >= 1,
                t.n >= 1,
                t.d >= 1,
        ;
    }
}

pub proof fn lemma_pdeck_inner_bnd_mono(s1: SpecState, p1: Q, c1: int, r1: int, r2: int)
    requires
        s1.player.len() <= 5,
        s1.dealer.len() <= 5,
        p1.n >= 1,
        p1.d >= 1,
        1 <= c1 <= 10,
        c1 - 1 <= r1 <= r2 <= 10,
    ensures
        pdeck_inner_bnd(s1, p1, c1, r1).n <= pdeck_inner_bnd(s1, p1, c1, r2).n,
        pdeck_inner_bnd(s1, p1, c1, r1).d <= pdeck_inner_bnd(s1, p1, c1, r2).d,
    decreases r2 - r1,
{
    if r1 < r2 {
        lemma_pdeck_inner_bnd_mono(s1, p1, c1, r1, r2 - 1);
        lemma_pdeck_inner_bnd_step(s1, p1, c1, r2);
    }
}

/// One step of the outer fold.
pub proof fn lemma_pdeck_outer_bnd_step(deck: Seq<u16>, r: int)
    requires
        deck.len() == 10,
        1 <= r <= 10,
    ensures
        pdeck_outer_bnd(deck, r - 1).n <= pdeck_outer_bnd(deck, r).n,
        pdeck_outer_bnd(deck, r - 1).d <= pdeck_outer_bnd(deck, r).d,
        deck[r - 1] != 0 ==> {
            let p1 = spec_card_prob(deck, r, false);
            let s1 = SpecState {
                deck: spec_draw(deck, r),
                player: seq![r as u16],
                dealer: Seq::empty(),
                fi: false,
                split: false,
                fsh: false,
            };
            pdeck_inner_bnd(s1, p1, r, 10).n <= pdeck_outer_bnd(deck, r).n && pdeck_inner_bnd(
                s1,
                p1,
                r,
                10,
            ).d <= pdeck_outer_bnd(deck, r).d
        },
    decreases r,
{
    lemma_pdeck_outer_bnd_nonneg(deck, r - 1);
    if deck[r - 1] != 0 {
        let prev = pdeck_outer_bnd(deck, r - 1);
        let p1 = spec_card_prob(deck, r, false);
        let s1 = SpecState {
            deck: spec_draw(deck, r),
            player: seq![r as u16],
            dealer: Seq::empty(),
            fi: false,
            split: false,
            fsh: false,
        };
        assert(p1.n >= 1 && p1.d >= 1);
        assert(s1.player.len() == 1);
        lemma_pdeck_inner_bnd_nonneg(s1, p1, r, 10);
        let t = pdeck_inner_bnd(s1, p1, r, 10);
        assert(prev.n <= prev.n * t.d + t.n * prev.d && prev.d <= prev.d * t.d && t.n <= prev.n
            * t.d + t.n * prev.d && t.d <= prev.d * t.d) by (nonlinear_arith)
            requires
                prev.n >= 0,
                prev.d >= 1,
                t.n >= 0,
                t.d >= 1,
        ;
    }
}

pub proof fn lemma_pdeck_outer_bnd_nonneg(deck: Seq<u16>, r: int)
    requires
        deck.len() == 10,
        0 <= r <= 10,
    ensures
        pdeck_outer_bnd(deck, r).n >= 0,
        pdeck_outer_bnd(deck, r).d >= 1,
    decreases r,
{
    if r > 0 {
        lemma_pdeck_outer_bnd_nonneg(deck, r - 1);
        if deck[r - 1] != 0 {
            let prev = pdeck_outer_bnd(deck, r - 1);
            let p1 = spec_card_prob(deck, r, false);
            let s1 = SpecState {
                deck: spec_draw(deck, r),
                player: seq![r as u16],
                dealer: Seq::empty(),
                fi: false,
                split: false,
                fsh: false,
            };
            assert(p1.n >= 1 && p1.d >= 1);
            assert(s1.player.len() == 1);
            lemma_pdeck_inner_bnd_nonneg(s1, p1, r, 10);
            let t = pdeck_inner_bnd(s1, p1, r, 10);
            assert(prev.n * t.d + t.n * prev.d >= 0 && prev.d * t.d >= 1) by (nonlinear_arith)
                requires
                    prev.n >= 0,
                    prev.d >= 1,
                    t.n >= 0,
                    t.d >= 1,
            ;
        }
    }
}

pub proof fn lemma_pdeck_outer_bnd_mono(deck: Seq<u16>, r1: int, r2: int)
    requires
        deck.len() == 10,
        0 <= r1 <= r2 <= 10,
    ensures
        pdeck_outer_bnd(deck, r1).n <= pdeck_outer_bnd(deck, r2).n,
        pdeck_outer_bnd(deck, r1).d <= pdeck_outer_bnd(deck, r2).d,
    decreases r2 - r1,
{
    if r1 < r2 {
        lemma_pdeck_outer_bnd_mono(deck, r1, r2 - 1);
        lemma_pdeck_outer_bnd_step(deck, r2);
    }
}

} // verus!
