//! The dealer's terminal-score distribution: the probability of each
//! terminal score, the total probability mass, and the law that the mass
//! is exactly one whenever the shoe can feed the dealer to a stand.

use vstd::prelude::*;
use crate::deck::{
    card_index, deck_total, lemma_draw_replace_roundtrip, lemma_remove_pushed, spec_card_prob,
    spec_draw, spec_total, Deck,
};
use crate::hand::{
    dealer_stands, next_card_isnt_ten, score, spec_dealer_stands, spec_score, valid_hand, Score,
};
use crate::rat::{
    lemma_q_add_cong, lemma_q_eq_trans, lemma_q_mul_cong, pos_den, q_add, q_eq, q_int, q_mul,
    q_zero, Q, Rat,
};

verus! {

/// Probability that the dealer's completed hand scores exactly `sc`.
pub open spec fn sdealer_prob(deck: Seq<u16>, hand: Seq<u16>, fi: bool, sc: Score) -> Q
    decreases 6 - hand.len(), 12int,
        when hand.len() <= 6
{
    if spec_dealer_stands(hand) {
        if spec_score(hand) == sc {
            q_int(1)
        } else {
            q_zero()
        }
    } else {
        sdealer_prob_sum(deck, hand, fi, sc, 10)
    }
}

/// One rank's contribution to the dealer's distribution: the draw
/// probability times the probability of reaching `sc` afterwards.
pub open spec fn sdealer_term(deck: Seq<u16>, hand: Seq<u16>, fi: bool, sc: Score, r: int) -> Q
    decreases 6 - hand.len(), 0int,
        when hand.len() < 6 && 1 <= r <= 10
{
    let cant = hand.len() == 1 && fi;
    if deck[r - 1] == 0 || (cant && r == 10) {
        q_zero()
    } else {
        q_mul(
            spec_card_prob(deck, r, cant),
            sdealer_prob(spec_draw(deck, r), hand.push(r as u16), fi, sc),
        )
    }
}

/// Partial sum of `sdealer_prob` over the draws of ranks `1..=r`.
pub open spec fn sdealer_prob_sum(deck: Seq<u16>, hand: Seq<u16>, fi: bool, sc: Score, r: int) -> Q
    decreases 6 - hand.len(), r,
        when hand.len() < 6 && 0 <= r <= 10
{
    if r == 0 {
        q_zero()
    } else {
        q_add(sdealer_prob_sum(deck, hand, fi, sc, r - 1), sdealer_term(deck, hand, fi, sc, r))
    }
}

/// Total probability mass of the dealer's terminal distribution.
pub open spec fn sdealer_mass(deck: Seq<u16>, hand: Seq<u16>, fi: bool) -> Q
    decreases 6 - hand.len(), 12int,
        when hand.len() <= 6
{
    if spec_dealer_stands(hand) {
        q_int(1)
    } else {
        sdealer_mass_sum(deck, hand, fi, 10)
    }
}

/// Partial mass over the draws of ranks `1..=r`.
pub open spec fn sdealer_mass_sum(deck: Seq<u16>, hand: Seq<u16>, fi: bool, r: int) -> Q
    decreases 6 - hand.len(), r,
        when hand.len() < 6 && 0 <= r <= 10
{
    if r == 0 {
        q_zero()
    } else {
        let cant = hand.len() == 1 && fi;
        let term = if deck[r - 1] == 0 || (cant && r == 10) {
            q_zero()
        } else {
            q_mul(
                spec_card_prob(deck, r, cant),
                sdealer_mass(spec_draw(deck, r), hand.push(r as u16), fi),
            )
        };
        q_add(sdealer_mass_sum(deck, hand, fi, r - 1), term)
    }
}

pub proof fn lemma_sdealer_prob_pos(deck: Seq<u16>, hand: Seq<u16>, fi: bool, sc: Score)
    requires
        hand.len() <= 6,
    ensures
        sdealer_prob(deck, hand, fi, sc).d > 0,
{
    if !spec_dealer_stands(hand) {
        assert(sdealer_prob_sum(deck, hand, fi, sc, 10).d > 0);
    }
}

pub proof fn lemma_sdealer_mass_pos(deck: Seq<u16>, hand: Seq<u16>, fi: bool)
    requires
        hand.len() <= 6,
    ensures
        sdealer_mass(deck, hand, fi).d > 0,
{
    if !spec_dealer_stands(hand) {
        assert(sdealer_mass_sum(deck, hand, fi, 10).d > 0);
    }
}

pub proof fn lemma_sdealer_prob_sum_pos(deck: Seq<u16>, hand: Seq<u16>, fi: bool, sc: Score, r: int)
    requires
        hand.len() < 6,
        0 <= r <= 10,
    ensures
        sdealer_prob_sum(deck, hand, fi, sc, r).d > 0,
{
}

proof fn lemma_sdealer_mass_sum_pos(deck: Seq<u16>, hand: Seq<u16>, fi: bool, r: int)
    requires
        hand.len() < 6,
        0 <= r <= 10,
    ensures
        sdealer_mass_sum(deck, hand, fi, r).d > 0,
{
}

/// Multiplying by an exact one changes nothing.
proof fn lemma_q_mul_one(p: Q)
    requires
        p.d > 0,
    ensures
        q_mul(p, q_int(1)) == p,
{
    assert(p.n * 1 == p.n);
    assert(p.d * 1 == p.d);
}

/// Fractions over one common denominator add by adding numerators.
proof fn lemma_q_same_den_add(a: int, b: int, den: int)
    requires
        den > 0,
    ensures
        q_eq(q_add(Q { n: a, d: den }, Q { n: b, d: den }), Q { n: a + b, d: den }),
{
    vstd::arithmetic::mul::lemma_mul_strictly_positive(den, den);
    assert((a * den + b * den) * den == (a + b) * (den * den)) by (nonlinear_arith);
}

/// The conditional denominator the dealer draws against: the whole shoe,
/// or its non-ten part when the next card is known not to be a ten.
pub open spec fn dealer_den(deck: Seq<u16>, hand: Seq<u16>, fi: bool) -> int {
    if hand.len() == 1 && fi {
        spec_total(deck, 9)
    } else {
        deck_total(deck)
    }
}

/// How many of the first `r` ranks are available to the dealer's next
/// draw, in total count.
pub open spec fn avail_total(deck: Seq<u16>, hand: Seq<u16>, fi: bool, r: int) -> int {
    if hand.len() == 1 && fi && r == 10 {
        spec_total(deck, 9)
    } else {
        spec_total(deck, r)
    }
}

proof fn lemma_total_draw(deck: Seq<u16>, card: int, n: int)
    requires
        deck.len() == 10,
        1 <= card <= 10,
        deck[card - 1] >= 1,
        0 <= n <= 10,
    ensures
        spec_total(spec_draw(deck, card), n) == spec_total(deck, n) - if card <= n {
            1int
        } else {
            0int
        },
    decreases n,
{
    if n > 0 {
        lemma_total_draw(deck, card, n - 1);
    }
}

/// Law: the dealer's terminal-score probabilities sum to exactly one, for
/// every deck that can feed the dealer up to a six-card hand (with at
/// least one non-ten remaining when the next card is known not to be a
/// ten).
pub proof fn lemma_dealer_mass_one(deck: Seq<u16>, hand: Seq<u16>, fi: bool)
    requires
        deck.len() == 10,
        hand.len() <= 6,
        fi ==> hand.len() >= 1,
        deck_total(deck) >= 6 - hand.len(),
        (hand.len() == 1 && fi) ==> spec_total(deck, 9) >= 1,
    ensures
        q_eq(sdealer_mass(deck, hand, fi), q_int(1)),
    decreases 6 - hand.len(), 12int,
{
    if !spec_dealer_stands(hand) {
        lemma_dealer_mass_sum_partial(deck, hand, fi, 10);
        let den = dealer_den(deck, hand, fi);
        assert(avail_total(deck, hand, fi, 10) == den) by {
            crate::deck::lemma_total_split_ten(deck);
        }
        assert(q_eq(Q { n: den, d: den }, q_int(1)));
        lemma_q_eq_trans(sdealer_mass_sum(deck, hand, fi, 10), Q { n: den, d: den }, q_int(1));
    }
}

/// The partial mass over ranks `1..=r` is exactly the available count of
/// those ranks over the conditional denominator.
proof fn lemma_dealer_mass_sum_partial(deck: Seq<u16>, hand: Seq<u16>, fi: bool, r: int)
    requires
        deck.len() == 10,
        hand.len() < 6,
        fi ==> hand.len() >= 1,
        0 <= r <= 10,
        deck_total(deck) >= 6 - hand.len(),
        (hand.len() == 1 && fi) ==> spec_total(deck, 9) >= 1,
    ensures
        q_eq(
            sdealer_mass_sum(deck, hand, fi, r),
            Q { n: avail_total(deck, hand, fi, r), d: dealer_den(deck, hand, fi) },
        ),
    decreases 6 - hand.len(), r,
{
    let cant = hand.len() == 1 && fi;
    let den = dealer_den(deck, hand, fi);
    assert(den >= 1) by {
        crate::deck::lemma_total_split_ten(deck);
        crate::deck::lemma_partial_nonneg(deck, 9);
    }
    if r == 0 {
        assert(0 * den == 0) by (nonlinear_arith);
        assert(q_eq(q_zero(), Q { n: 0, d: den }));
    } else {
        lemma_dealer_mass_sum_partial(deck, hand, fi, r - 1);
        let prev = sdealer_mass_sum(deck, hand, fi, r - 1);
        let pn = avail_total(deck, hand, fi, r - 1);
        lemma_sdealer_mass_sum_pos(deck, hand, fi, r - 1);
        if deck[r - 1] == 0 || (cant && r == 10) {
            // This rank contributes nothing, and its count is not part of
            // the available total either.
            crate::spec_ev::lemma_q_add_zero(prev);
            assert(avail_total(deck, hand, fi, r) == pn) by {
                crate::deck::lemma_partial_nonneg(deck, 9);
            }
        } else {
            let p = spec_card_prob(deck, r, cant);
            let child_deck = spec_draw(deck, r);
            let child = hand.push(r as u16);
            // The child can still always be fed to a stand.
            lemma_total_draw(deck, r, 10);
            lemma_total_draw(deck, r, 9);
            lemma_dealer_mass_one(child_deck, child, fi);
            let cm = sdealer_mass(child_deck, child, fi);
            lemma_sdealer_mass_pos(child_deck, child, fi);
            // The term equals the plain draw probability.
            lemma_q_mul_cong(p, cm, p, q_int(1));
            lemma_q_mul_one(p);
            assert(p == (Q { n: deck[r - 1] as int, d: den }));
            assert(q_eq(q_mul(p, cm), p)) by {
                lemma_q_eq_trans(q_mul(p, cm), q_mul(p, q_int(1)), p);
            }
            // Fold the term into the running total.
            lemma_q_add_cong(prev, q_mul(p, cm), Q { n: pn, d: den }, p);
            lemma_q_same_den_add(pn, deck[r - 1] as int, den);
            lemma_q_eq_trans(
                q_add(prev, q_mul(p, cm)),
                q_add(Q { n: pn, d: den }, Q { n: deck[r - 1] as int, d: den }),
                Q { n: pn + deck[r - 1], d: den },
            );
            assert(avail_total(deck, hand, fi, r) == pn + deck[r - 1]);
        }
    }
}

/// Worst-case magnitudes of the numerator and denominator that the
/// dealer-side computation can accumulate, assuming reduction never
/// cancels anything: the `n` field bounds numerator magnitudes, the `d`
/// field denominators, of every intermediate and of the result.
pub open spec fn dealer_bnd(deck: Seq<u16>, hand: Seq<u16>, fi: bool) -> Q
    decreases 6 - hand.len(), 12int,
        when hand.len() <= 6
{
    if spec_dealer_stands(hand) {
        Q { n: 3, d: 2 }
    } else {
        dealer_bnd_sum(deck, hand, fi, 10)
    }
}

/// The bound after folding in the draws of ranks `1..=r`.
pub open spec fn dealer_bnd_sum(deck: Seq<u16>, hand: Seq<u16>, fi: bool, r: int) -> Q
    decreases 6 - hand.len(), r,
        when hand.len() < 6 && 0 <= r <= 10
{
    if r == 0 {
        Q { n: 0, d: 1 }
    } else {
        let prev = dealer_bnd_sum(deck, hand, fi, r - 1);
        let cant = hand.len() == 1 && fi;
        if deck[r - 1] == 0 || (cant && r == 10) {
            prev
        } else {
            let p = spec_card_prob(deck, r, cant);
            let sub = dealer_bnd(spec_draw(deck, r), hand.push(r as u16), fi);
            let tn = p.n * sub.n;
            let td = p.d * sub.d;
            Q { n: prev.n * td + tn * prev.d, d: prev.d * td }
        }
    }
}

/// The dealer-side computation stays representable in the engine's
/// machine rationals.
pub open spec fn dealer_fits(deck: Seq<u16>, hand: Seq<u16>, fi: bool) -> bool {
    dealer_bnd(deck, hand, fi).n <= u64::MAX && dealer_bnd(deck, hand, fi).d <= u64::MAX
}

pub proof fn lemma_dealer_bnd_nonneg(deck: Seq<u16>, hand: Seq<u16>, fi: bool)
    requires
        hand.len() <= 6,
    ensures
        dealer_bnd(deck, hand, fi).n >= 0,
        dealer_bnd(deck, hand, fi).d >= 1,
    decreases 6 - hand.len(), 12int,
{
    if !spec_dealer_stands(hand) {
        lemma_dealer_bnd_sum_nonneg(deck, hand, fi, 10);
    }
}

pub proof fn lemma_dealer_bnd_sum_nonneg(deck: Seq<u16>, hand: Seq<u16>, fi: bool, r: int)
    requires
        hand.len() < 6,
        0 <= r <= 10,
    ensures
        dealer_bnd_sum(deck, hand, fi, r).n >= 0,
        dealer_bnd_sum(deck, hand, fi, r).d >= 1,
    decreases 6 - hand.len(), r,
{
    if r > 0 {
        lemma_dealer_bnd_sum_nonneg(deck, hand, fi, r - 1);
        let cant = hand.len() == 1 && fi;
        if !(deck[r - 1] == 0 || (cant && r == 10)) {
            let prev = dealer_bnd_sum(deck, hand, fi, r - 1);
            let p = spec_card_prob(deck, r, cant);
            let sub = dealer_bnd(spec_draw(deck, r), hand.push(r as u16), fi);
            lemma_dealer_bnd_nonneg(spec_draw(deck, r), hand.push(r as u16), fi);
            assert(p.n >= 1 && p.d >= 1);
            assert(prev.n * (p.d * sub.d) + (p.n * sub.n) * prev.d >= 0 && prev.d * (p.d * sub.d)
                >= 1) by (nonlinear_arith)
                requires
                    prev.n >= 0,
                    prev.d >= 1,
                    p.n >= 1,
                    p.d >= 1,
                    sub.n >= 0,
                    sub.d >= 1,
            ;
        }
    }
}

/// Folding in one more rank never shrinks the bound, and the bound of
/// everything folded in so far — the child's bound and the term's two
/// products — sits below the new bound.
pub proof fn lemma_dealer_bnd_step(deck: Seq<u16>, hand: Seq<u16>, fi: bool, r: int)
    requires
        hand.len() < 6,
        1 <= r <= 10,
    ensures
        dealer_bnd_sum(deck, hand, fi, r - 1).n <= dealer_bnd_sum(deck, hand, fi, r).n,
        dealer_bnd_sum(deck, hand, fi, r - 1).d <= dealer_bnd_sum(deck, hand, fi, r).d,
        !(deck[r - 1] == 0 || ((hand.len() == 1 && fi) && r == 10)) ==> {
            let p = spec_card_prob(deck, r, hand.len() == 1 && fi);
            let sub = dealer_bnd(spec_draw(deck, r), hand.push(r as u16), fi);
            sub.n <= p.n * sub.n <= dealer_bnd_sum(deck, hand, fi, r).n && sub.d <= p.d * sub.d
                <= dealer_bnd_sum(deck, hand, fi, r).d
        },
{
    lemma_dealer_bnd_sum_nonneg(deck, hand, fi, r - 1);
    let cant = hand.len() == 1 && fi;
    if !(deck[r - 1] == 0 || (cant && r == 10)) {
        let prev = dealer_bnd_sum(deck, hand, fi, r - 1);
        let p = spec_card_prob(deck, r, cant);
        let sub = dealer_bnd(spec_draw(deck, r), hand.push(r as u16), fi);
        lemma_dealer_bnd_nonneg(spec_draw(deck, r), hand.push(r as u16), fi);
        assert(p.n >= 1 && p.d >= 1);
        assert(prev.n <= prev.n * (p.d * sub.d) && prev.d <= prev.d * (p.d * sub.d) && sub.n <= p.n
            * sub.n && sub.d <= p.d * sub.d && p.n * sub.n <= prev.n * (p.d * sub.d) + (p.n * sub.n)
            * prev.d && p.d * sub.d <= prev.d * (p.d * sub.d)) by (nonlinear_arith)
            requires
                prev.n >= 0,
                prev.d >= 1,
                p.n >= 1,
                p.d >= 1,
                sub.n >= 0,
                sub.d >= 1,
        ;
    }
}

/// The partial bounds grow with the number of ranks folded in.
pub proof fn lemma_dealer_bnd_mono(deck: Seq<u16>, hand: Seq<u16>, fi: bool, r1: int, r2: int)
    requires
        hand.len() < 6,
        0 <= r1 <= r2 <= 10,
    ensures
        dealer_bnd_sum(deck, hand, fi, r1).n <= dealer_bnd_sum(deck, hand, fi, r2).n,
        dealer_bnd_sum(deck, hand, fi, r1).d <= dealer_bnd_sum(deck, hand, fi, r2).d,
    decreases r2 - r1,
{
    if r1 < r2 {
        lemma_dealer_bnd_mono(deck, hand, fi, r1, r2 - 1);
        lemma_dealer_bnd_step(deck, hand, fi, r2);
    }
}

/// Bounding both nonnegative factors bounds the product.
pub proof fn lemma_mul_mono(a: int, amax: int, b: int, bmax: int)
    requires
        0 <= a <= amax,
        0 <= b <= bmax,
    ensures
        a * b <= amax * bmax,
{
    assert(a * b <= amax * bmax) by (nonlinear_arith)
        requires
            0 <= a <= amax,
            0 <= b <= bmax,
    ;
}

/// Exact probability that the dealer's completed hand scores `sc`,
/// computed by the same draw-recurse-undo walk as the expectation engine.
pub fn dealer_score_prob(deck: &mut Deck, hand: &mut Vec<u16>, fi: bool, sc: Score) -> (r: Option<
    Rat,
>)
    requires
        old(deck).wf(),
        valid_hand(old(hand)@),
    ensures
        final(deck).cards@ == old(deck).cards@,
        final(deck).size == old(deck).size,
        final(hand)@ == old(hand)@,
        r matches Some(v) ==> v.wf() && q_eq(
            v.q(),
            sdealer_prob(old(deck).cards@, old(hand)@, fi, sc),
        ),
        r matches Some(v) ==> !v.neg,
        spec_dealer_stands(old(hand)@) ==> r is Some,
        r matches Some(v) ==> v.num <= dealer_bnd(old(deck).cards@, old(hand)@, fi).n && v.den
            <= dealer_bnd(old(deck).cards@, old(hand)@, fi).d,
        dealer_fits(old(deck).cards@, old(hand)@, fi) ==> r is Some,
    decreases 6 - old(hand)@.len(),
{
    if dealer_stands(hand) {
        if score(hand) == sc {
            return Some(Rat::frac(1, 1));
        } else {
            return Some(Rat::zero());
        }
    }
    let cant = next_card_isnt_ten(hand, fi);
    let ghost d0 = deck.cards@;
    let ghost sz0 = deck.size;
    let ghost h0 = hand@;
    let mut acc = Rat::zero();
    let mut card: u16 = 1;
    while card <= 10
        invariant
            deck.wf(),
            deck.cards@ == d0,
            deck.size == sz0,
            hand@ == h0,
            valid_hand(h0),
            !spec_dealer_stands(h0),
            cant == (h0.len() == 1 && fi),
            1 <= card <= 11,
            acc.wf(),
            !acc.neg,
            q_eq(acc.q(), sdealer_prob_sum(d0, h0, fi, sc, card - 1)),
            acc.num <= dealer_bnd_sum(d0, h0, fi, card - 1).n,
            acc.den <= dealer_bnd_sum(d0, h0, fi, card - 1).d,
            old(deck).cards@ == d0,
            old(deck).size == sz0,
            old(hand)@ == h0,
        decreases 11 - card,
    {
        let idx = card_index(card);
        let skip = (cant && card == 10) || deck.cards[idx] == 0;
        if !skip {
            let ghost pq = spec_card_prob(d0, card as int, cant);
            let ghost sub_bnd = dealer_bnd(spec_draw(d0, card as int), h0.push(card), fi);
            proof {
                lemma_dealer_bnd_step(d0, h0, fi, card as int);
                lemma_dealer_bnd_mono(d0, h0, fi, card as int, 10);
                lemma_dealer_bnd_sum_nonneg(d0, h0, fi, card - 1);
                lemma_dealer_bnd_nonneg(spec_draw(d0, card as int), h0.push(card), fi);
            }
            let p = deck.card_prob(card, cant);
            proof {
                assert(p.num == pq.n && p.den == pq.d);
            }
            deck.draw_to(hand, card);
            proof {
                assert(valid_hand(hand@));
            }
            let sub = dealer_score_prob(deck, hand, fi, sc);
            proof {
                lemma_remove_pushed(h0, card);
                lemma_draw_replace_roundtrip(d0, card as int);
            }
            deck.replace_from(hand, card);
            let subv = match sub {
                Some(v) => v,
                None => {
                    // The child's computation outgrew the representation,
                    // so the whole bound does not fit either.
                    return None;
                },
            };
            proof {
                lemma_mul_mono(p.num as int, pq.n, subv.num as int, sub_bnd.n);
                lemma_mul_mono(p.den as int, pq.d, subv.den as int, sub_bnd.d);
            }
            let term = match p.mul(&subv) {
                Some(t) => t,
                None => {
                    return None;
                },
            };
            proof {
                let prev = dealer_bnd_sum(d0, h0, fi, card - 1);
                lemma_mul_mono(acc.num as int, prev.n, term.den as int, pq.d * sub_bnd.d);
                lemma_mul_mono(term.num as int, pq.n * sub_bnd.n, acc.den as int, prev.d);
                lemma_mul_mono(acc.den as int, prev.d, term.den as int, pq.d * sub_bnd.d);
            }
            let acc2 = match acc.add(&term) {
                Some(a) => a,
                None => {
                    return None;
                },
            };
            proof {
                let sub_spec = sdealer_prob(spec_draw(d0, card as int), h0.push(card), fi, sc);
                lemma_sdealer_prob_pos(spec_draw(d0, card as int), h0.push(card), fi, sc);
                crate::spec_ev::lemma_mul_step(p.q(), subv.q(), term.q(), sub_spec);
                lemma_sdealer_prob_sum_pos(d0, h0, fi, sc, card - 1);
                assert(sdealer_term(d0, h0, fi, sc, card as int) == q_mul(
                    spec_card_prob(d0, card as int, cant),
                    sub_spec,
                ));
                crate::spec_ev::lemma_acc_step(
                    acc.q(),
                    term.q(),
                    acc2.q(),
                    sdealer_prob_sum(d0, h0, fi, sc, card - 1),
                    q_mul(spec_card_prob(d0, card as int, cant), sub_spec),
                );
            }
            acc = acc2;
        } else {
            proof {
                lemma_sdealer_prob_sum_pos(d0, h0, fi, sc, card - 1);
                assert(sdealer_term(d0, h0, fi, sc, card as int) == q_zero());
                crate::spec_ev::lemma_q_add_zero(sdealer_prob_sum(d0, h0, fi, sc, card - 1));
            }
        }
        card = card + 1;
    }
    Some(acc)
}

/// The candidate terminal scores a legal dealer hand can reach: bust, a
/// natural, a standing total of seventeen to twenty-one, or a six-card
/// hand of six to twenty-one.
pub open spec fn cand_of(k: int) -> Score {
    if k == 0 {
        Score::Bust
    } else if k == 1 {
        Score::Natural
    } else if 2 <= k <= 6 {
        Score::Value((15 + k) as u16)
    } else {
        Score::SixCardCharlie((k - 1) as u16)
    }
}

proof fn lemma_cand_distinct(a: int, b: int)
    requires
        0 <= a < b < 23,
    ensures
        cand_of(a) != cand_of(b),
{
}

/// Whether a score already appears in a distribution.
pub open spec fn score_in(s: Seq<(Score, Rat)>, sc: Score) -> bool {
    exists|i: int| 0 <= i < s.len() && s[i].0 == sc
}

/// The total probability carried by a distribution.
pub open spec fn dist_sum(s: Seq<(Score, Rat)>) -> Q
    decreases s.len(),
{
    if s.len() == 0 {
        q_zero()
    } else {
        q_add(dist_sum(s.drop_last()), s.last().1.q())
    }
}

proof fn lemma_dist_sum_pos(s: Seq<(Score, Rat)>)
    requires
        forall|i: int| 0 <= i < s.len() ==> (#[trigger] s[i].1).wf(),
    ensures
        dist_sum(s).d > 0,
    decreases s.len(),
{
    if s.len() > 0 {
        assert(forall|i: int|
            0 <= i < s.drop_last().len() ==> (#[trigger] s.drop_last()[i].1).wf()) by {
            assert(forall|i: int| 0 <= i < s.drop_last().len() ==> s.drop_last()[i] == s[i]);
        }
        lemma_dist_sum_pos(s.drop_last());
    }
}

/// The dealer's terminal-score distribution: the pairwise-distinct scores
/// with nonzero probability, each with its exact probability.  Every
/// candidate score left out has probability zero, and the probabilities
/// sum to exactly one whenever the shoe can feed the dealer to a stand.
pub fn dealer_scores(deck: &mut Deck, hand: &mut Vec<u16>, failed_insurance: bool) -> (r: Option<
    Vec<(Score, Rat)>,
>)
    requires
        old(deck).wf(),
        valid_hand(old(hand)@),
    ensures
        final(deck).cards@ == old(deck).cards@,
        final(deck).size == old(deck).size,
        final(hand)@ == old(hand)@,
        r matches Some(v) ==> forall|i: int, j: int|
            0 <= i < j < v@.len() ==> v@[i].0 != v@[j].0,
        r matches Some(v) ==> forall|i: int|
            0 <= i < v@.len() ==> (#[trigger] v@[i].1).wf() && v@[i].1.num > 0 && !v@[i].1.neg
                && q_eq(
                v@[i].1.q(),
                sdealer_prob(old(deck).cards@, old(hand)@, failed_insurance, v@[i].0),
            ),
        r matches Some(v) ==> forall|k: int|
            0 <= k < 23 && !score_in(v@, #[trigger] cand_of(k)) ==> q_eq(
                sdealer_prob(old(deck).cards@, old(hand)@, failed_insurance, cand_of(k)),
                q_zero(),
            ),
        r matches Some(v) ==> q_eq(
            dist_sum(v@),
            cand_prob_sum(old(deck).cards@, old(hand)@, failed_insurance, 23),
        ),
        r matches Some(v) ==> ((failed_insurance ==> old(hand)@.len() >= 1) && deck_total(
            old(deck).cards@,
        ) >= 6 - old(hand)@.len() && ((old(hand)@.len() == 1 && failed_insurance) ==> spec_total(
            old(deck).cards@,
            9,
        ) >= 1) ==> q_eq(dist_sum(v@), q_int(1))),
        spec_dealer_stands(old(hand)@) ==> r is Some,
        r matches Some(v) ==> (spec_dealer_stands(old(hand)@) ==> v@.len() == 1 && v@[0].0
            == spec_score(old(hand)@) && q_eq(v@[0].1.q(), q_int(1))),
        dealer_fits(old(deck).cards@, old(hand)@, failed_insurance) ==> r is Some,
{
    let ghost d0 = deck.cards@;
    let ghost h0 = hand@;
    if dealer_stands(hand) {
        // A standing hand has exactly one outcome: its own score, with
        // probability one.
        let sc = score(hand);
        let mut v: Vec<(Score, Rat)> = Vec::new();
        v.push((sc, Rat::frac(1, 1)));
        proof {
            assert(v@.len() == 1);
            assert(v@[0].0 == sc && v@[0].1.q() == q_int(1));
            assert(sdealer_prob(d0, h0, failed_insurance, sc) == q_int(1));
            assert forall|k: int|
                0 <= k < 23 && !score_in(v@, #[trigger] cand_of(k)) implies q_eq(
                sdealer_prob(d0, h0, failed_insurance, cand_of(k)),
                q_zero(),
            ) by {
                if cand_of(k) == sc {
                    assert(v@[0].0 == cand_of(k));
                    assert(score_in(v@, cand_of(k)));
                } else {
                    assert(sdealer_prob(d0, h0, failed_insurance, cand_of(k)) == q_zero());
                }
            }
            assert(v@.drop_last() =~= Seq::<(Score, Rat)>::empty());
            assert(dist_sum(Seq::<(Score, Rat)>::empty()) == q_zero());
            assert(v@.last() == v@[0]);
            assert(dist_sum(v@) == q_add(dist_sum(v@.drop_last()), v@.last().1.q()));
            assert(dist_sum(v@) == q_add(q_zero(), q_int(1)));
            assert(q_add(q_zero(), q_int(1)) == (Q { n: 0int * 1 + 1 * 1, d: pos_den(1int * 1) }));
            assert(dist_sum(v@) == q_int(1));
            lemma_score_in_cands(h0);
            lemma_cand_indicator(d0, h0, failed_insurance, 23);
            crate::rat::lemma_q_eq_sym(
                cand_prob_sum(d0, h0, failed_insurance, 23),
                q_int(1),
            );
        }
        return Some(v);
    }
    let mut out: Vec<(Score, Rat)> = Vec::new();
    let mut k: u16 = 0;
    while k < 23
        invariant
            deck.wf(),
            deck.cards@ == d0,
            deck.size == old(deck).size,
            hand@ == h0,
            valid_hand(h0),
            0 <= k <= 23,
            old(deck).cards@ == d0,
            old(hand)@ == h0,
            forall|i: int, j: int| 0 <= i < j < out@.len() ==> out@[i].0 != out@[j].0,
            forall|i: int|
                0 <= i < out@.len() ==> exists|k2: int|
                    0 <= k2 < k && (#[trigger] out@[i]).0 == cand_of(k2),
            forall|i: int|
                0 <= i < out@.len() ==> (#[trigger] out@[i].1).wf() && out@[i].1.num > 0
                    && !out@[i].1.neg && q_eq(
                    out@[i].1.q(),
                    sdealer_prob(d0, h0, failed_insurance, out@[i].0),
                ),
            forall|k2: int|
                0 <= k2 < k && !score_in(out@, #[trigger] cand_of(k2)) ==> q_eq(
                    sdealer_prob(d0, h0, failed_insurance, cand_of(k2)),
                    q_zero(),
                ),
            q_eq(dist_sum(out@), cand_prob_sum(d0, h0, failed_insurance, k as int)),
        decreases 23 - k,
    {
        let sc: Score = if k == 0 {
            Score::Bust
        } else if k == 1 {
            Score::Natural
        } else if k <= 6 {
            Score::Value(15 + k)
        } else {
            Score::SixCardCharlie(k - 1)
        };
        proof {
            assert(sc == cand_of(k as int));
        }
        let p = match dealer_score_prob(deck, hand, failed_insurance, sc) {
            Some(v) => v,
            None => {
                return None;
            },
        };
        if p.num > 0 {
            let ghost out0 = out@;
            proof {
                lemma_sdealer_prob_pos(d0, h0, failed_insurance, sc);
                assert forall|i: int| 0 <= i < out0.len() implies out0[i].0 != sc by {
                    let k2 = choose|k2: int| 0 <= k2 < k && out0[i].0 == cand_of(k2);
                    lemma_cand_distinct(k2, k as int);
                }
            }
            proof {
                lemma_dist_sum_pos(out0);
                lemma_cand_prob_sum_pos(d0, h0, failed_insurance, k as int);
            }
            out.push((sc, p));
            proof {
                assert(out@ == out0.push((sc, p)));
                assert(score_in(out@, sc)) by {
                    assert(out@[out0.len() as int].0 == sc);
                }
                // The new entry extends the running probability total by
                // exactly this candidate's probability.
                assert(out@.drop_last() =~= out0);
                assert(dist_sum(out@) == q_add(dist_sum(out0), p.q()));
                lemma_q_add_cong(
                    dist_sum(out0),
                    p.q(),
                    cand_prob_sum(d0, h0, failed_insurance, k as int),
                    sdealer_prob(d0, h0, failed_insurance, sc),
                );
                assert forall|k2: int|
                    0 <= k2 < k + 1 && !score_in(out@, #[trigger] cand_of(k2)) implies q_eq(
                    sdealer_prob(d0, h0, failed_insurance, cand_of(k2)),
                    q_zero(),
                ) by {
                    if k2 < k {
                        assert(!score_in(out0, cand_of(k2))) by {
                            if score_in(out0, cand_of(k2)) {
                                let i = choose|i: int|
                                    0 <= i < out0.len() && out0[i].0 == cand_of(k2);
                                assert(out@[i].0 == cand_of(k2));
                            }
                        }
                    }
                }
                assert forall|i: int|
                    0 <= i < out@.len() implies exists|k2: int|
                    0 <= k2 < k + 1 && (#[trigger] out@[i]).0 == cand_of(k2) by {
                    if i < out0.len() {
                        let k2 = choose|k2: int| 0 <= k2 < k && out0[i].0 == cand_of(k2);
                        assert(0 <= k2 < k + 1 && out@[i].0 == cand_of(k2));
                    } else {
                        assert(out@[i].0 == cand_of(k as int));
                    }
                }
            }
        } else {
            proof {
                // A zero numerator means this score cannot occur.
                lemma_sdealer_prob_pos(d0, h0, failed_insurance, sc);
                assert(p.q().n == 0);
                assert(0 * p.q().d == 0) by (nonlinear_arith);
                assert(q_eq(p.q(), q_zero()));
                crate::rat::lemma_q_eq_sym(p.q(), sdealer_prob(d0, h0, failed_insurance, sc));
                crate::rat::lemma_q_eq_trans(
                    sdealer_prob(d0, h0, failed_insurance, sc),
                    p.q(),
                    q_zero(),
                );
                // A zero-probability candidate changes the total by a zero.
                let cps = cand_prob_sum(d0, h0, failed_insurance, k as int);
                lemma_cand_prob_sum_pos(d0, h0, failed_insurance, k as int);
                lemma_dist_sum_pos(out@);
                lemma_q_add_cong(
                    cps,
                    sdealer_prob(d0, h0, failed_insurance, sc),
                    cps,
                    q_zero(),
                );
                crate::spec_ev::lemma_q_add_zero(cps);
                crate::rat::lemma_q_eq_sym(
                    cand_prob_sum(d0, h0, failed_insurance, k as int + 1),
                    cps,
                );
                crate::rat::lemma_q_eq_trans(
                    dist_sum(out@),
                    cps,
                    cand_prob_sum(d0, h0, failed_insurance, k as int + 1),
                );
            }
        }
        k = k + 1;
    }
    proof {
        if (failed_insurance ==> h0.len() >= 1) && deck_total(d0) >= 6 - h0.len() && ((h0.len()
            == 1 && failed_insurance) ==> spec_total(d0, 9) >= 1) {
            lemma_dealer_prob_total(d0, h0, failed_insurance);
            lemma_cand_prob_sum_pos(d0, h0, failed_insurance, 23);
            lemma_dist_sum_pos(out@);
            crate::rat::lemma_q_eq_trans(
                dist_sum(out@),
                cand_prob_sum(d0, h0, failed_insurance, 23),
                q_int(1),
            );
        }
    }
    Some(out)
}

/// Inverse of `cand_of`: the candidate index of a reachable terminal
/// score, or a negative number for a score no dealer hand can stand on.
pub open spec fn cand_idx(sc: Score) -> int {
    match sc {
        Score::Bust => 0,
        Score::Natural => 1,
        Score::Value(v) => if 17 <= v <= 21 {
            2 + (v - 17)
        } else {
            -1
        },
        Score::SixCardCharlie(v) => if 6 <= v <= 21 {
            7 + (v - 6)
        } else {
            -1
        },
    }
}

proof fn lemma_cand_bij(j: int)
    requires
        0 <= j < 23,
    ensures
        cand_idx(cand_of(j)) == j,
{
}

/// Every terminal score of a legal standing dealer hand is a candidate.
proof fn lemma_score_in_cands(hand: Seq<u16>)
    requires
        valid_hand(hand),
        spec_dealer_stands(hand),
    ensures
        0 <= cand_idx(spec_score(hand)) < 23,
        cand_of(cand_idx(spec_score(hand))) == spec_score(hand),
{
    crate::hand::lemma_sum_at_least_len(hand);
}

/// Sum of the probabilities of the first `k` candidate scores.
pub open spec fn cand_prob_sum(deck: Seq<u16>, hand: Seq<u16>, fi: bool, k: int) -> Q
    decreases k,
        when 0 <= k <= 23 && hand.len() <= 6
{
    if k <= 0 {
        q_zero()
    } else {
        q_add(cand_prob_sum(deck, hand, fi, k - 1), sdealer_prob(deck, hand, fi, cand_of(k - 1)))
    }
}

/// Sum over the first `k` candidates of the rank-partial probabilities.
pub open spec fn cand_psum_sum(deck: Seq<u16>, hand: Seq<u16>, fi: bool, r: int, k: int) -> Q
    decreases k,
        when 0 <= k <= 23 && hand.len() < 6 && 0 <= r <= 10
{
    if k <= 0 {
        q_zero()
    } else {
        q_add(
            cand_psum_sum(deck, hand, fi, r, k - 1),
            sdealer_prob_sum(deck, hand, fi, cand_of(k - 1), r),
        )
    }
}

/// Sum over the first `k` candidates of one rank's contributions.
pub open spec fn cand_term_sum(deck: Seq<u16>, hand: Seq<u16>, fi: bool, r: int, k: int) -> Q
    decreases k,
        when 0 <= k <= 23 && hand.len() < 6 && 1 <= r <= 10
{
    if k <= 0 {
        q_zero()
    } else {
        q_add(
            cand_term_sum(deck, hand, fi, r, k - 1),
            sdealer_term(deck, hand, fi, cand_of(k - 1), r),
        )
    }
}

proof fn lemma_cand_prob_sum_pos(deck: Seq<u16>, hand: Seq<u16>, fi: bool, k: int)
    requires
        0 <= k <= 23,
        hand.len() <= 6,
    ensures
        cand_prob_sum(deck, hand, fi, k).d > 0,
{
}

proof fn lemma_cand_psum_sum_pos(deck: Seq<u16>, hand: Seq<u16>, fi: bool, r: int, k: int)
    requires
        0 <= k <= 23,
        hand.len() < 6,
        0 <= r <= 10,
    ensures
        cand_psum_sum(deck, hand, fi, r, k).d > 0,
{
}

proof fn lemma_cand_term_sum_pos(deck: Seq<u16>, hand: Seq<u16>, fi: bool, r: int, k: int)
    requires
        0 <= k <= 23,
        hand.len() < 6,
        1 <= r <= 10,
    ensures
        cand_term_sum(deck, hand, fi, r, k).d > 0,
{
}

proof fn lemma_sdealer_term_pos(deck: Seq<u16>, hand: Seq<u16>, fi: bool, sc: Score, r: int)
    requires
        hand.len() < 6,
        1 <= r <= 10,
    ensures
        sdealer_term(deck, hand, fi, sc, r).d > 0,
{
}

/// On a standing hand the candidate sum is an indicator: one once the
/// hand's own score has been passed, zero before.
proof fn lemma_cand_indicator(deck: Seq<u16>, hand: Seq<u16>, fi: bool, k: int)
    requires
        valid_hand(hand),
        spec_dealer_stands(hand),
        0 <= k <= 23,
    ensures
        q_eq(
            cand_prob_sum(deck, hand, fi, k),
            if cand_idx(spec_score(hand)) < k {
                q_int(1)
            } else {
                q_zero()
            },
        ),
    decreases k,
{
    lemma_score_in_cands(hand);
    let ki = cand_idx(spec_score(hand));
    if k > 0 {
        lemma_cand_indicator(deck, hand, fi, k - 1);
        let prev = cand_prob_sum(deck, hand, fi, k - 1);
        lemma_cand_prob_sum_pos(deck, hand, fi, k - 1);
        let term = sdealer_prob(deck, hand, fi, cand_of(k - 1));
        if cand_of(k - 1) == spec_score(hand) {
            lemma_cand_bij(k - 1);
            assert(ki == k - 1);
            assert(term == q_int(1));
            lemma_q_add_cong(prev, term, q_zero(), q_int(1));
            assert(q_add(q_zero(), q_int(1)) == q_int(1));
            lemma_q_eq_trans(q_add(prev, term), q_add(q_zero(), q_int(1)), q_int(1));
        } else {
            assert(ki != k - 1);
            assert(term == q_zero());
            crate::spec_ev::lemma_q_add_zero(prev);
        }
    }
}

/// At depth zero every candidate's partial probability is zero.
proof fn lemma_cand_psum_zero(deck: Seq<u16>, hand: Seq<u16>, fi: bool, k: int)
    requires
        hand.len() < 6,
        0 <= k <= 23,
    ensures
        q_eq(cand_psum_sum(deck, hand, fi, 0, k), q_zero()),
    decreases k,
{
    if k > 0 {
        lemma_cand_psum_zero(deck, hand, fi, k - 1);
        lemma_cand_psum_sum_pos(deck, hand, fi, 0, k - 1);
        crate::spec_ev::lemma_q_add_zero(cand_psum_sum(deck, hand, fi, 0, k - 1));
    }
}

/// A skipped rank contributes zero to every candidate.
proof fn lemma_cand_term_zero(deck: Seq<u16>, hand: Seq<u16>, fi: bool, r: int, k: int)
    requires
        hand.len() < 6,
        1 <= r <= 10,
        0 <= k <= 23,
        deck[r - 1] == 0 || ((hand.len() == 1 && fi) && r == 10),
    ensures
        q_eq(cand_term_sum(deck, hand, fi, r, k), q_zero()),
    decreases k,
{
    if k > 0 {
        lemma_cand_term_zero(deck, hand, fi, r, k - 1);
        lemma_cand_term_sum_pos(deck, hand, fi, r, k - 1);
        assert(sdealer_term(deck, hand, fi, cand_of(k - 1), r) == q_zero());
        crate::spec_ev::lemma_q_add_zero(cand_term_sum(deck, hand, fi, r, k - 1));
    }
}

/// Splitting each candidate's partial sum at its last rank splits the
/// whole candidate sum the same way.
proof fn lemma_split_sum(deck: Seq<u16>, hand: Seq<u16>, fi: bool, r: int, k: int)
    requires
        hand.len() < 6,
        1 <= r <= 10,
        0 <= k <= 23,
    ensures
        q_eq(
            cand_psum_sum(deck, hand, fi, r, k),
            q_add(cand_psum_sum(deck, hand, fi, r - 1, k), cand_term_sum(deck, hand, fi, r, k)),
        ),
    decreases k,
{
    if k == 0 {
        assert(q_add(q_zero(), q_zero()) == q_zero());
    } else {
        lemma_split_sum(deck, hand, fi, r, k - 1);
        let c = cand_of(k - 1);
        let a = cand_psum_sum(deck, hand, fi, r - 1, k - 1);
        let b = cand_term_sum(deck, hand, fi, r, k - 1);
        let cc = sdealer_prob_sum(deck, hand, fi, c, r - 1);
        let dd = sdealer_term(deck, hand, fi, c, r);
        lemma_cand_psum_sum_pos(deck, hand, fi, r, k - 1);
        lemma_cand_psum_sum_pos(deck, hand, fi, r - 1, k - 1);
        lemma_cand_term_sum_pos(deck, hand, fi, r, k - 1);
        lemma_sdealer_prob_sum_pos(deck, hand, fi, c, r - 1);
        lemma_sdealer_prob_sum_pos(deck, hand, fi, c, r);
        lemma_sdealer_term_pos(deck, hand, fi, c, r);
        assert(sdealer_prob_sum(deck, hand, fi, c, r) == q_add(cc, dd));
        lemma_q_add_cong(
            cand_psum_sum(deck, hand, fi, r, k - 1),
            q_add(cc, dd),
            q_add(a, b),
            q_add(cc, dd),
        );
        crate::rat::lemma_q_add_regroup(a, b, cc, dd);
        lemma_q_eq_trans(
            cand_psum_sum(deck, hand, fi, r, k),
            q_add(q_add(a, b), q_add(cc, dd)),
            q_add(q_add(a, cc), q_add(b, dd)),
        );
    }
}

/// When a rank is drawn, its contributions to all candidates factor into
/// the draw probability times the child's candidate sum.
proof fn lemma_factor_sum(deck: Seq<u16>, hand: Seq<u16>, fi: bool, r: int, k: int)
    requires
        valid_hand(hand),
        hand.len() < 6,
        1 <= r <= 10,
        0 <= k <= 23,
        deck[r - 1] != 0,
        !((hand.len() == 1 && fi) && r == 10),
    ensures
        q_eq(
            cand_term_sum(deck, hand, fi, r, k),
            q_mul(
                spec_card_prob(deck, r, hand.len() == 1 && fi),
                cand_prob_sum(spec_draw(deck, r), hand.push(r as u16), fi, k),
            ),
        ),
    decreases k,
{
    let cant = hand.len() == 1 && fi;
    let p = spec_card_prob(deck, r, cant);
    let cd = spec_draw(deck, r);
    let ch = hand.push(r as u16);
    assert(p.d > 0);
    if k == 0 {
        assert(p.n * 0 == 0);
        assert(q_eq(q_zero(), q_mul(p, q_zero())));
    } else {
        lemma_factor_sum(deck, hand, fi, r, k - 1);
        let c = cand_of(k - 1);
        let prevq = cand_prob_sum(cd, ch, fi, k - 1);
        let probc = sdealer_prob(cd, ch, fi, c);
        lemma_cand_term_sum_pos(deck, hand, fi, r, k - 1);
        lemma_cand_prob_sum_pos(cd, ch, fi, k - 1);
        lemma_sdealer_prob_pos(cd, ch, fi, c);
        assert(sdealer_term(deck, hand, fi, c, r) == q_mul(p, probc));
        lemma_q_add_cong(
            cand_term_sum(deck, hand, fi, r, k - 1),
            q_mul(p, probc),
            q_mul(p, prevq),
            q_mul(p, probc),
        );
        crate::rat::lemma_q_mul_distributes(p, prevq, probc);
        crate::rat::lemma_q_eq_sym(
            q_mul(p, q_add(prevq, probc)),
            q_add(q_mul(p, prevq), q_mul(p, probc)),
        );
        lemma_q_eq_trans(
            cand_term_sum(deck, hand, fi, r, k),
            q_add(q_mul(p, prevq), q_mul(p, probc)),
            q_mul(p, q_add(prevq, probc)),
        );
    }
}

/// The candidate sums of the rank-partial probabilities equal the partial
/// mass: the two summation orders exchange.
proof fn lemma_exchange_sum(deck: Seq<u16>, hand: Seq<u16>, fi: bool, r: int)
    requires
        deck.len() == 10,
        valid_hand(hand),
        hand.len() < 6,
        0 <= r <= 10,
    ensures
        q_eq(cand_psum_sum(deck, hand, fi, r, 23), sdealer_mass_sum(deck, hand, fi, r)),
    decreases 6 - hand.len(), r,
{
    let cant = hand.len() == 1 && fi;
    if r == 0 {
        lemma_cand_psum_zero(deck, hand, fi, 23);
    } else {
        lemma_exchange_sum(deck, hand, fi, r - 1);
        lemma_split_sum(deck, hand, fi, r, 23);
        let cps_prev = cand_psum_sum(deck, hand, fi, r - 1, 23);
        let cts = cand_term_sum(deck, hand, fi, r, 23);
        let ms_prev = sdealer_mass_sum(deck, hand, fi, r - 1);
        lemma_cand_psum_sum_pos(deck, hand, fi, r - 1, 23);
        lemma_cand_psum_sum_pos(deck, hand, fi, r, 23);
        lemma_cand_term_sum_pos(deck, hand, fi, r, 23);
        lemma_sdealer_mass_sum_pos(deck, hand, fi, r - 1);
        if deck[r - 1] == 0 || (cant && r == 10) {
            lemma_cand_term_zero(deck, hand, fi, r, 23);
            lemma_q_add_cong(cps_prev, cts, ms_prev, q_zero());
            lemma_q_eq_trans(
                cand_psum_sum(deck, hand, fi, r, 23),
                q_add(cps_prev, cts),
                q_add(ms_prev, q_zero()),
            );
        } else {
            let p = spec_card_prob(deck, r, cant);
            let cd = spec_draw(deck, r);
            let ch = hand.push(r as u16);
            lemma_factor_sum(deck, hand, fi, r, 23);
            lemma_cand_sum_eq_mass(cd, ch, fi);
            lemma_cand_prob_sum_pos(cd, ch, fi, 23);
            lemma_sdealer_mass_pos(cd, ch, fi);
            assert(p.d > 0);
            lemma_q_mul_cong(p, cand_prob_sum(cd, ch, fi, 23), p, sdealer_mass(cd, ch, fi));
            lemma_q_eq_trans(
                cts,
                q_mul(p, cand_prob_sum(cd, ch, fi, 23)),
                q_mul(p, sdealer_mass(cd, ch, fi)),
            );
            lemma_q_add_cong(cps_prev, cts, ms_prev, q_mul(p, sdealer_mass(cd, ch, fi)));
            lemma_q_eq_trans(
                cand_psum_sum(deck, hand, fi, r, 23),
                q_add(cps_prev, cts),
                q_add(ms_prev, q_mul(p, sdealer_mass(cd, ch, fi))),
            );
        }
    }
}

/// While the dealer still draws, each candidate's probability is its full
/// ten-rank partial sum, so the two candidate sums coincide.
proof fn lemma_cps_unfold(deck: Seq<u16>, hand: Seq<u16>, fi: bool, k: int)
    requires
        valid_hand(hand),
        !spec_dealer_stands(hand),
        0 <= k <= 23,
    ensures
        cand_prob_sum(deck, hand, fi, k) == cand_psum_sum(deck, hand, fi, 10, k),
    decreases k,
{
    if k > 0 {
        lemma_cps_unfold(deck, hand, fi, k - 1);
        assert(sdealer_prob(deck, hand, fi, cand_of(k - 1)) == sdealer_prob_sum(
            deck,
            hand,
            fi,
            cand_of(k - 1),
            10,
        ));
    }
}

/// The per-score probabilities over all candidates sum to the total mass.
pub proof fn lemma_cand_sum_eq_mass(deck: Seq<u16>, hand: Seq<u16>, fi: bool)
    requires
        deck.len() == 10,
        valid_hand(hand),
    ensures
        q_eq(cand_prob_sum(deck, hand, fi, 23), sdealer_mass(deck, hand, fi)),
    decreases 6 - hand.len(), 12int,
{
    if spec_dealer_stands(hand) {
        lemma_score_in_cands(hand);
        lemma_cand_indicator(deck, hand, fi, 23);
    } else {
        lemma_cps_unfold(deck, hand, fi, 23);
        lemma_exchange_sum(deck, hand, fi, 10);
    }
}

/// Law: the dealer's terminal-score probabilities, summed over every score
/// a legal dealer hand can end on, are exactly one whenever the shoe can
/// feed the dealer to a stand.
pub proof fn lemma_dealer_prob_total(deck: Seq<u16>, hand: Seq<u16>, fi: bool)
    requires
        deck.len() == 10,
        valid_hand(hand),
        fi ==> hand.len() >= 1,
        deck_total(deck) >= 6 - hand.len(),
        (hand.len() == 1 && fi) ==> spec_total(deck, 9) >= 1,
    ensures
        q_eq(cand_prob_sum(deck, hand, fi, 23), q_int(1)),
{
    lemma_cand_sum_eq_mass(deck, hand, fi);
    lemma_dealer_mass_one(deck, hand, fi);
    lemma_sdealer_mass_pos(deck, hand, fi);
    lemma_q_eq_trans(cand_prob_sum(deck, hand, fi, 23), sdealer_mass(deck, hand, fi), q_int(1));
}

} // verus!
