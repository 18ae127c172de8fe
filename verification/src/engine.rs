//! The action-expectation engine: the exact expected return of every
//! player decision, computed by depth-first search with paired draw/undo
//! bookkeeping on the shared deck.  Every function restores its state
//! exactly on every exit path, and whenever it returns a value that value
//! equals the specification's rational.  `None` means only that the exact
//! arithmetic outgrew its machine representation, and each function
//! promises a value whenever its worst-case magnitude bound (the `fits`
//! predicate of its state) stays within the machine word.

use vstd::prelude::*;
use crate::dealer_dist::{
    dealer_bnd, dealer_bnd_sum, dealer_fits, lemma_dealer_bnd_mono, lemma_dealer_bnd_nonneg,
    lemma_dealer_bnd_step, lemma_dealer_bnd_sum_nonneg, lemma_mul_mono,
};
use crate::deck::{
    card_index, deck_total, full_shoe, lemma_draw_replace_roundtrip, lemma_remove_pushed,
    spec_card_prob, spec_draw, Deck,
};
use crate::hand::{
    cannot_hit, dealer_stands, hand_expectation, lemma_low_sum_not_bust, lemma_valid_drop_last,
    next_card_isnt_ten, score, spec_cannot_hit, spec_dealer_stands, spec_score, spec_sum,
    valid_hand, Score,
};
use crate::rat::{q_eq, q_frac, q_int, q_lt, q_max, q_mul, q_sub, Q, Rat};
use crate::spec_ev::{
    bmax, ins_allowance, lemma_acc_step, lemma_max_step, lemma_mul_step, lemma_pdouble_bnd_mono,
    lemma_pdouble_bnd_step, lemma_pdouble_sum_bnd_nonneg, lemma_pexp_bnd_nonneg,
    lemma_phit_bnd_mono, lemma_phit_bnd_nonneg, lemma_phit_bnd_step, lemma_phit_sum_bnd_nonneg,
    lemma_pstand_bnd_nonneg, lemma_q_add_zero,
    lemma_sdealer_ev_pos, lemma_sdealer_sum_pos, lemma_sdouble_pos, lemma_sdouble_sum_pos,
    lemma_sexp_pos, lemma_shit_pos, lemma_shit_sum_pos, lemma_sins_pos, lemma_splayer_sum_pos,
    lemma_sdeck_inner_pos, lemma_sdeck_outer_pos, lemma_ssplit_pos, lemma_sstand_pos,
    lemma_pdeck_inner_bnd_mono, lemma_pdeck_inner_bnd_nonneg, lemma_pdeck_inner_bnd_step,
    lemma_pdeck_outer_bnd_mono, lemma_pdeck_outer_bnd_nonneg, lemma_pdeck_outer_bnd_step,
    lemma_pdeck_term_bnd_nonneg, lemma_pph_bnd_mono, lemma_pph_bnd_step, lemma_pph_sum_bnd_nonneg,
    pdeck_fits, pdeck_inner_bnd, pdeck_outer_bnd,
    pdeck_term_bnd, pdouble_bnd, pdouble_fits, pdouble_sum_bnd, pexp_bnd, pexp_fits, phit_bnd,
    phit_fits, phit_sum_bnd, pins_bnd, pins_fits, pph_bnd, pph_fits, pph_sum_bnd, psplit_bnd,
    psplit_fits, pstand_bnd, sdealer_ev, sdealer_sum, sdeck_ev, sdeck_inner, sdeck_outer, sdouble,
    sdouble_sum, sexp, shit, shit_sum, sins, splayer_hand, splayer_sum, split_allowance, ssplit,
    sstand,
};
use crate::state::{
    can_double, can_insurance, can_split, can_surrender, spec_can_double, spec_can_insurance,
    spec_can_split, GameState, SpecState,
};

verus! {

/// Two game states with the same hands, deck and flags.
pub open spec fn same_state(a: GameState, b: GameState) -> bool {
    a.player@ == b.player@ && a.dealer@ == b.dealer@ && a.deck.cards@ == b.deck.cards@
        && a.deck.size == b.deck.size && a.failed_insurance == b.failed_insurance && a.is_split
        == b.is_split && a.first_split_hand == b.first_split_hand
}

/// Exact expected payoff for the fixed player score once the dealer plays
/// out the hand: recurses over every possible draw and undoes each one.
pub fn dealer_ev(deck: &mut Deck, hand: &mut Vec<u16>, fi: bool, ps: Score) -> (r: Option<Rat>)
    requires
        old(deck).wf(),
        valid_hand(old(hand)@),
    ensures
        final(deck).cards@ == old(deck).cards@,
        final(deck).size == old(deck).size,
        final(hand)@ == old(hand)@,
        r matches Some(v) ==> v.wf() && q_eq(v.q(), sdealer_ev(old(deck).cards@, old(hand)@, fi, ps)),
        spec_dealer_stands(old(hand)@) ==> r is Some,
        r matches Some(v) ==> v.num <= dealer_bnd(old(deck).cards@, old(hand)@, fi).n && v.den
            <= dealer_bnd(old(deck).cards@, old(hand)@, fi).d,
        dealer_fits(old(deck).cards@, old(hand)@, fi) ==> r is Some,
    decreases 6 - old(hand)@.len(),
{
    if dealer_stands(hand) {
        let v = hand_expectation(ps, score(hand));
        proof {
            // A payoff is at most three halves in magnitude.
            let pay = crate::hand::payoff(ps, spec_score(hand@));
            assert(-3 <= pay.n <= 3 && 1 <= pay.d <= 2);
            assert(v.num <= 3 && v.den <= 2);
        }
        return Some(v);
    }
    let cant = next_card_isnt_ten(hand, fi);
    let ghost d0 = deck.cards@;
    let ghost sz0 = deck.size;
    let ghost h0 = hand@;
    let mut acc = Rat::zero();
    let mut card: u16 = 1;
    while card <= 10
        invariant
            deck.wf(),
            deck.cards@ == d0,
            deck.size == sz0,
            hand@ == h0,
            valid_hand(h0),
            !spec_dealer_stands(h0),
            cant == (h0.len() == 1 && fi),
            1 <= card <= 11,
            acc.wf(),
            q_eq(acc.q(), sdealer_sum(d0, h0, fi, ps, card - 1)),
            acc.num <= dealer_bnd_sum(d0, h0, fi, card - 1).n,
            acc.den <= dealer_bnd_sum(d0, h0, fi, card - 1).d,
            old(deck).cards@ == d0,
            old(deck).size == sz0,
            old(hand)@ == h0,
        decreases 11 - card,
    {
        let idx = card_index(card);
        let skip = (cant && card == 10) || deck.cards[idx] == 0;
        if !skip {
            let ghost pq = spec_card_prob(d0, card as int, cant);
            let ghost sub_bnd = dealer_bnd(spec_draw(d0, card as int), h0.push(card), fi);
            proof {
                lemma_dealer_bnd_step(d0, h0, fi, card as int);
                lemma_dealer_bnd_mono(d0, h0, fi, card as int, 10);
                lemma_dealer_bnd_sum_nonneg(d0, h0, fi, card - 1);
                lemma_dealer_bnd_nonneg(spec_draw(d0, card as int), h0.push(card), fi);
            }
            let p = deck.card_prob(card, cant);
            proof {
                assert(p.num == pq.n && p.den == pq.d);
            }
            deck.draw_to(hand, card);
            proof {
                assert(valid_hand(hand@));
            }
            let sub = dealer_ev(deck, hand, fi, ps);
            proof {
                lemma_remove_pushed(h0, card);
                lemma_draw_replace_roundtrip(d0, card as int);
            }
            deck.replace_from(hand, card);
            let subv = match sub {
                Some(v) => v,
                None => {
                    // The child's computation outgrew the representation,
                    // so the whole bound does not fit either.
                    return None;
                },
            };
            proof {
                lemma_mul_mono(p.num as int, pq.n, subv.num as int, sub_bnd.n);
                lemma_mul_mono(p.den as int, pq.d, subv.den as int, sub_bnd.d);
            }
            let term = match p.mul(&subv) {
                Some(t) => t,
                None => {
                    return None;
                },
            };
            proof {
                let prev = dealer_bnd_sum(d0, h0, fi, card - 1);
                lemma_mul_mono(acc.num as int, prev.n, term.den as int, pq.d * sub_bnd.d);
                lemma_mul_mono(term.num as int, pq.n * sub_bnd.n, acc.den as int, prev.d);
                lemma_mul_mono(acc.den as int, prev.d, term.den as int, pq.d * sub_bnd.d);
            }
            let acc2 = match acc.add(&term) {
                Some(a) => a,
                None => {
                    return None;
                },
            };
            proof {
                let sub_spec = sdealer_ev(spec_draw(d0, card as int), h0.push(card), fi, ps);
                lemma_sdealer_ev_pos(spec_draw(d0, card as int), h0.push(card), fi, ps);
                lemma_mul_step(p.q(), subv.q(), term.q(), sub_spec);
                lemma_sdealer_sum_pos(d0, h0, fi, ps, card - 1);
                lemma_acc_step(
                    acc.q(),
                    term.q(),
                    acc2.q(),
                    sdealer_sum(d0, h0, fi, ps, card - 1),
                    q_mul(spec_card_prob(d0, card as int, cant), sub_spec),
                );
            }
            acc = acc2;
        } else {
            proof {
                lemma_sdealer_sum_pos(d0, h0, fi, ps, card - 1);
                lemma_q_add_zero(sdealer_sum(d0, h0, fi, ps, card - 1));
            }
        }
        card = card + 1;
    }
    Some(acc)
}

/// Expected return of standing: a bust loses one bet outright, otherwise
/// the dealer completes and the payoffs are averaged exactly.
pub fn stand_expectation(state: &mut GameState) -> (r: Option<Rat>)
    requires
        old(state).wf(),
    ensures
        same_state(*old(state), *final(state)),
        r matches Some(v) ==> v.wf() && q_eq(v.q(), sstand(old(state).v())),
        spec_score(old(state).player@) == Score::Bust || spec_dealer_stands(old(state).dealer@)
            || dealer_fits(
            old(state).deck.cards@,
            old(state).dealer@,
            old(state).failed_insurance,
        ) ==> r is Some,
        r matches Some(v) ==> v.num <= pstand_bnd(old(state).v()).n && v.den <= pstand_bnd(
            old(state).v(),
        ).d,
{
    let ps = score(&state.player);
    if ps == Score::Bust {
        return Some(Rat::neg_frac(1, 1));
    }
    let fi = state.failed_insurance;
    dealer_ev(&mut state.deck, &mut state.dealer, fi, ps)
}

/// Expected return of taking exactly one more card and then deciding
/// afresh: the probability-weighted average of the full decision value
/// over every possible draw.
pub fn hit_expectation(state: &mut GameState) -> (r: Option<Rat>)
    requires
        old(state).wf(),
        spec_score(old(state).player@) != Score::Bust,
        old(state).player@.len() <= 5,
    ensures
        same_state(*old(state), *final(state)),
        r matches Some(v) ==> v.wf() && q_eq(v.q(), shit(old(state).v())),
        r matches Some(v) ==> v.num <= phit_bnd(old(state).v()).n && v.den <= phit_bnd(
            old(state).v(),
        ).d,
        phit_fits(old(state).v()) ==> r is Some,
    decreases split_allowance(old(state).v()), ins_allowance(old(state).v()),
        6 - old(state).player@.len(), 3int,
{
    let ghost s0 = state.v();
    let mut acc = Rat::zero();
    let mut card: u16 = 1;
    while card <= 10
        invariant
            state.wf(),
            state.v() == s0,
            s0.player.len() <= 5,
            s0.dealer.len() <= 6,
            1 <= card <= 11,
            acc.wf(),
            q_eq(acc.q(), shit_sum(s0, card - 1)),
            acc.num <= phit_sum_bnd(s0, card - 1).n,
            acc.den <= phit_sum_bnd(s0, card - 1).d,
            same_state(*old(state), *state),
        decreases 11 - card,
    {
        let idx = card_index(card);
        if state.deck.cards[idx] > 0 {
            let ghost child = SpecState {
                deck: spec_draw(s0.deck, card as int),
                player: s0.player.push(card),
                dealer: s0.dealer,
                fi: s0.fi,
                split: s0.split,
                fsh: s0.fsh,
            };
            let ghost pq = spec_card_prob(s0.deck, card as int, false);
            let ghost sub_bnd = pexp_bnd(child);
            proof {
                lemma_phit_bnd_step(s0, card as int);
                lemma_phit_bnd_mono(s0, card as int, 10);
                lemma_phit_sum_bnd_nonneg(s0, card - 1);
                lemma_pexp_bnd_nonneg(child);
            }
            let p = state.deck.card_prob(card, false);
            proof {
                assert(p.num == pq.n && p.den == pq.d);
            }
            state.deck.draw_to(&mut state.player, card);
            proof {
                assert(valid_hand(state.player@));
                assert(state.v() == child);
            }
            let sub = expectation(state);
            proof {
                lemma_remove_pushed(s0.player, card);
                lemma_draw_replace_roundtrip(s0.deck, card as int);
            }
            state.deck.replace_from(&mut state.player, card);
            proof {
                assert(state.v() == s0);
            }
            let subv = match sub {
                Some(v) => v,
                None => {
                    // The child outgrew the representation, so the whole
                    // bound does not fit either.
                    return None;
                },
            };
            proof {
                crate::dealer_dist::lemma_mul_mono(p.num as int, pq.n, subv.num as int, sub_bnd.n);
                crate::dealer_dist::lemma_mul_mono(p.den as int, pq.d, subv.den as int, sub_bnd.d);
            }
            let term = match p.mul(&subv) {
                Some(t) => t,
                None => {
                    return None;
                },
            };
            proof {
                let prev = phit_sum_bnd(s0, card - 1);
                crate::dealer_dist::lemma_mul_mono(
                    acc.num as int,
                    prev.n,
                    term.den as int,
                    pq.d * sub_bnd.d,
                );
                crate::dealer_dist::lemma_mul_mono(
                    term.num as int,
                    pq.n * sub_bnd.n,
                    acc.den as int,
                    prev.d,
                );
                crate::dealer_dist::lemma_mul_mono(
                    acc.den as int,
                    prev.d,
                    term.den as int,
                    pq.d * sub_bnd.d,
                );
            }
            let acc2 = match acc.add(&term) {
                Some(a) => a,
                None => {
                    return None;
                },
            };
            proof {
                lemma_sexp_pos(child);
                lemma_mul_step(p.q(), subv.q(), term.q(), sexp(child));
                lemma_shit_sum_pos(s0, card - 1);
                lemma_acc_step(
                    acc.q(),
                    term.q(),
                    acc2.q(),
                    shit_sum(s0, card - 1),
                    q_mul(spec_card_prob(s0.deck, card as int, false), sexp(child)),
                );
            }
            acc = acc2;
        } else {
            proof {
                lemma_shit_sum_pos(s0, card - 1);
                lemma_q_add_zero(shit_sum(s0, card - 1));
            }
        }
        card = card + 1;
    }
    Some(acc)
}

/// Expected return of doubling down: one forced card, a forced stand, and
/// both the bet and the outcome doubled.
pub fn double_expectation(state: &mut GameState) -> (r: Option<Rat>)
    requires
        old(state).wf(),
        old(state).player@.len() <= 5,
    ensures
        same_state(*old(state), *final(state)),
        r matches Some(v) ==> v.wf() && q_eq(v.q(), sdouble(old(state).v())),
        r matches Some(v) ==> v.num <= pdouble_bnd(old(state).v()).n && v.den <= pdouble_bnd(
            old(state).v(),
        ).d,
        pdouble_fits(old(state).v()) ==> r is Some,
{
    let ghost s0 = state.v();
    proof {
        lemma_pdouble_sum_bnd_nonneg(s0, 10);
    }
    let mut acc = Rat::zero();
    let mut card: u16 = 1;
    while card <= 10
        invariant
            state.wf(),
            state.v() == s0,
            s0.player.len() <= 5,
            s0.dealer.len() <= 6,
            1 <= card <= 11,
            acc.wf(),
            q_eq(acc.q(), sdouble_sum(s0, card - 1)),
            acc.num <= pdouble_sum_bnd(s0, card - 1).n,
            acc.den <= pdouble_sum_bnd(s0, card - 1).d,
            same_state(*old(state), *state),
        decreases 11 - card,
    {
        let idx = card_index(card);
        if state.deck.cards[idx] > 0 {
            let ghost child = SpecState {
                deck: spec_draw(s0.deck, card as int),
                player: s0.player.push(card),
                dealer: s0.dealer,
                fi: s0.fi,
                split: s0.split,
                fsh: s0.fsh,
            };
            let ghost pq = spec_card_prob(s0.deck, card as int, false);
            let ghost sub_bnd = pstand_bnd(child);
            proof {
                lemma_pdouble_bnd_step(s0, card as int);
                lemma_pdouble_bnd_mono(s0, card as int, 10);
                lemma_pdouble_sum_bnd_nonneg(s0, card - 1);
                lemma_pstand_bnd_nonneg(child);
            }
            let p = state.deck.card_prob(card, false);
            proof {
                assert(p.num == pq.n && p.den == pq.d);
            }
            state.deck.draw_to(&mut state.player, card);
            proof {
                assert(valid_hand(state.player@));
                assert(state.v() == child);
            }
            let sub = stand_expectation(state);
            proof {
                lemma_remove_pushed(s0.player, card);
                lemma_draw_replace_roundtrip(s0.deck, card as int);
            }
            state.deck.replace_from(&mut state.player, card);
            proof {
                assert(state.v() == s0);
            }
            let subv = match sub {
                Some(v) => v,
                None => {
                    return None;
                },
            };
            proof {
                crate::dealer_dist::lemma_mul_mono(p.num as int, pq.n, subv.num as int, sub_bnd.n);
                crate::dealer_dist::lemma_mul_mono(p.den as int, pq.d, subv.den as int, sub_bnd.d);
            }
            let term = match p.mul(&subv) {
                Some(t) => t,
                None => {
                    return None;
                },
            };
            proof {
                let prev = pdouble_sum_bnd(s0, card - 1);
                crate::dealer_dist::lemma_mul_mono(
                    acc.num as int,
                    prev.n,
                    term.den as int,
                    pq.d * sub_bnd.d,
                );
                crate::dealer_dist::lemma_mul_mono(
                    term.num as int,
                    pq.n * sub_bnd.n,
                    acc.den as int,
                    prev.d,
                );
                crate::dealer_dist::lemma_mul_mono(
                    acc.den as int,
                    prev.d,
                    term.den as int,
                    pq.d * sub_bnd.d,
                );
            }
            let acc2 = match acc.add(&term) {
                Some(a) => a,
                None => {
                    return None;
                },
            };
            proof {
                lemma_sstand_pos(child);
                lemma_mul_step(p.q(), subv.q(), term.q(), sstand(child));
                lemma_sdouble_sum_pos(s0, card - 1);
                lemma_acc_step(
                    acc.q(),
                    term.q(),
                    acc2.q(),
                    sdouble_sum(s0, card - 1),
                    q_mul(spec_card_prob(s0.deck, card as int, false), sstand(child)),
                );
            }
            acc = acc2;
        } else {
            proof {
                lemma_sdouble_sum_pos(s0, card - 1);
                lemma_q_add_zero(sdouble_sum(s0, card - 1));
            }
        }
        card = card + 1;
    }
    let two = Rat::frac(2, 1);
    let res = match two.mul(&acc) {
        Some(v) => v,
        None => {
            return None;
        },
    };
    proof {
        lemma_sdouble_sum_pos(s0, 10);
        lemma_mul_step(two.q(), acc.q(), res.q(), sdouble_sum(s0, 10));
    }
    Some(res)
}

/// Expected return of the insurance side bet against a lone dealer ace: a
/// natural wins outright; a shoe of nothing but tens cannot be evaluated
/// and counts zero; otherwise the hand continues in the world where the
/// hole card is not a ten, half a bet poorer, weighted by that world's
/// probability.
pub fn insurance_expectation(state: &mut GameState) -> (r: Option<Rat>)
    requires
        old(state).wf(),
        spec_can_insurance(old(state).v()),
    ensures
        same_state(*old(state), *final(state)),
        r matches Some(v) ==> v.wf() && q_eq(v.q(), sins(old(state).v())),
        spec_score(old(state).player@) == Score::Natural || deck_total(old(state).deck.cards@)
            == old(state).deck.cards@[9] ==> r is Some,
        r matches Some(v) ==> v.num <= pins_bnd(old(state).v()).n && v.den <= pins_bnd(
            old(state).v(),
        ).d,
        pins_fits(old(state).v()) ==> r is Some,
    decreases split_allowance(old(state).v()), ins_allowance(old(state).v()),
        6 - old(state).player@.len(), 3int,
{
    let ghost s0 = state.v();
    if score(&state.player) == Score::Natural {
        return Some(Rat::frac(1, 1));
    }
    if state.deck.size == state.deck.cards[9] {
        return Some(Rat::zero());
    }
    let ghost s2 = SpecState {
        deck: s0.deck,
        player: s0.player,
        dealer: s0.dealer,
        fi: true,
        split: s0.split,
        fsh: s0.fsh,
    };
    let ghost p10q = spec_card_prob(s0.deck, 10, false);
    let ghost e_bnd = pexp_bnd(s2);
    let ghost fb = Q { n: p10q.d + p10q.n, d: p10q.d };
    let ghost ib = Q { n: e_bnd.n * 2 + e_bnd.d, d: e_bnd.d * 2 };
    proof {
        lemma_pexp_bnd_nonneg(s2);
        assert(p10q.n >= 0 && p10q.d >= 1);
        // Each stage of the computation stays under the overall bound.
        assert(fb.n <= fb.n * ib.n && fb.d <= fb.d * ib.d && ib.n <= fb.n * ib.n && ib.d <= fb.d
            * ib.d && e_bnd.n <= ib.n && e_bnd.d <= ib.d) by (nonlinear_arith)
            requires
                fb.n >= 1,
                fb.d >= 1,
                ib.n >= 1,
                ib.d >= 2,
                ib.n == e_bnd.n * 2 + e_bnd.d,
                ib.d == e_bnd.d * 2,
                e_bnd.n >= 0,
                e_bnd.d >= 1,
        ;
        assert(pins_bnd(s0) == (Q { n: fb.n * ib.n, d: fb.d * ib.d }));
    }
    state.failed_insurance = true;
    proof {
        assert(state.v() == (SpecState {
            deck: s0.deck,
            player: s0.player,
            dealer: s0.dealer,
            fi: true,
            split: s0.split,
            fsh: s0.fsh,
        }));
    }
    let sub = expectation(state);
    state.failed_insurance = false;
    proof {
        assert(state.v() == s0);
    }
    let subv = match sub {
        Some(v) => v,
        None => {
            return None;
        },
    };
    let p10 = state.deck.card_prob(10, false);
    let one = Rat::frac(1, 1);
    proof {
        assert(one.num == 1 && one.den == 1);
        assert(p10.num == p10q.n && p10.den == p10q.d);
    }
    let factor = match one.sub(&p10) {
        Some(v) => v,
        None => {
            return None;
        },
    };
    let half = Rat::frac(1, 2);
    proof {
        assert(half.num == 1 && half.den == 2);
        assert(subv.num * 2 + subv.den <= ib.n && subv.den * 2 <= ib.d) by (nonlinear_arith)
            requires
                subv.num <= e_bnd.n,
                subv.den <= e_bnd.d,
                ib.n == e_bnd.n * 2 + e_bnd.d,
                ib.d == e_bnd.d * 2,
                subv.num >= 0,
                subv.den >= 0,
        ;
    }
    let inner = match subv.sub(&half) {
        Some(v) => v,
        None => {
            return None;
        },
    };
    proof {
        crate::dealer_dist::lemma_mul_mono(factor.num as int, fb.n, inner.num as int, ib.n);
        crate::dealer_dist::lemma_mul_mono(factor.den as int, fb.d, inner.den as int, ib.d);
    }
    let res = match factor.mul(&inner) {
        Some(v) => v,
        None => {
            return None;
        },
    };
    proof {
        let s2 = SpecState {
            deck: s0.deck,
            player: s0.player,
            dealer: s0.dealer,
            fi: true,
            split: s0.split,
            fsh: s0.fsh,
        };
        let first_spec = q_sub(q_int(1), spec_card_prob(s0.deck, 10, false));
        let second_spec = q_sub(sexp(s2), q_frac(1, 2));
        lemma_sexp_pos(s2);
        // inner tracks the continuation minus the half-bet cost.
        crate::rat::lemma_q_add_cong(
            subv.q(),
            crate::rat::q_neg(half.q()),
            sexp(s2),
            crate::rat::q_neg(q_frac(1, 2)),
        );
        crate::rat::lemma_q_eq_trans(
            inner.q(),
            q_sub(subv.q(), half.q()),
            second_spec,
        );
        // res tracks the weighted product.
        crate::rat::lemma_q_mul_cong(factor.q(), inner.q(), first_spec, second_spec);
        crate::rat::lemma_q_eq_trans(res.q(), q_mul(factor.q(), inner.q()), q_mul(first_spec, second_spec));
    }
    Some(res)
}

/// Expected return of splitting the pair: the hand is reduced to one card,
/// played out against a fresh full shoe, and the result is doubled; the
/// original deck and hand are restored afterwards.
pub fn split_expectation(state: &mut GameState) -> (r: Option<Rat>)
    requires
        old(state).wf(),
        spec_can_split(old(state).v()),
    ensures
        same_state(*old(state), *final(state)),
        r matches Some(v) ==> v.wf() && q_eq(v.q(), ssplit(old(state).v())),
        r matches Some(v) ==> v.num <= psplit_bnd(old(state).v()).n && v.den <= psplit_bnd(
            old(state).v(),
        ).d,
        psplit_fits(old(state).v()) ==> r is Some,
    decreases split_allowance(old(state).v()), ins_allowance(old(state).v()),
        6 - old(state).player@.len(), 3int,
{
    let ghost s0 = state.v();
    let ghost child_bnd_state = SpecState {
        deck: crate::deck::full_shoe_counts(),
        player: s0.player.drop_last(),
        dealer: s0.dealer,
        fi: s0.fi,
        split: true,
        fsh: s0.fsh,
    };
    let ghost h_bnd = phit_bnd(child_bnd_state);
    proof {
        lemma_valid_drop_last(s0.player);
        lemma_phit_bnd_nonneg(child_bnd_state);
        assert(psplit_bnd(s0) == (Q { n: 2 * h_bnd.n, d: h_bnd.d }));
    }
    state.is_split = true;
    let _popped = state.player.pop().unwrap();
    let original_deck = state.deck;
    state.deck = full_shoe();
    proof {
        lemma_valid_drop_last(s0.player);
        assert(state.player@ =~= s0.player.drop_last());
        assert(spec_sum(state.player@) < 21) by {
            let t = state.player@;
            assert(t.drop_last() =~= Seq::<u16>::empty());
            assert(spec_sum(t) == spec_sum(t.drop_last()) + t.last());
        }
        lemma_low_sum_not_bust(state.player@);
        assert(state.v() == child_bnd_state);
    }
    let sub = hit_expectation(state);
    state.is_split = false;
    let pc = state.player[0];
    state.player.push(pc);
    state.deck = original_deck;
    proof {
        assert(state.player@ =~= s0.player);
        assert(state.v() == s0);
    }
    let subv = match sub {
        Some(v) => v,
        None => {
            return None;
        },
    };
    let two = Rat::frac(2, 1);
    proof {
        assert(two.num == 2 && two.den == 1);
    }
    let res = match two.mul(&subv) {
        Some(v) => v,
        None => {
            return None;
        },
    };
    proof {
        lemma_shit_pos(child_bnd_state);
        lemma_mul_step(two.q(), subv.q(), res.q(), shit(child_bnd_state));
    }
    Some(res)
}

/// The best expected return among the legal decisions: always at least the
/// stand value; when the hand can still act, the best of insurance,
/// surrender, double, split and hit, each behind its eligibility rule.
pub fn expectation(state: &mut GameState) -> (r: Option<Rat>)
    requires
        old(state).wf(),
    ensures
        same_state(*old(state), *final(state)),
        r matches Some(v) ==> v.wf() && q_eq(v.q(), sexp(old(state).v())),
        spec_score(old(state).player@) == Score::Bust ==> r is Some,
        r matches Some(v) ==> v.num <= pexp_bnd(old(state).v()).n && v.den <= pexp_bnd(
            old(state).v(),
        ).d,
        pexp_fits(old(state).v()) ==> r is Some,
    decreases split_allowance(old(state).v()), ins_allowance(old(state).v()),
        6 - old(state).player@.len(), 4int,
{
    let ghost s0 = state.v();
    proof {
        if spec_score(s0.player) == Score::Bust && spec_sum(s0.player) < 21 {
            lemma_low_sum_not_bust(s0.player);
        }
        lemma_pstand_bnd_nonneg(s0);
    }
    let stand = match stand_expectation(state) {
        Some(v) => v,
        None => {
            proof {
                if pexp_fits(s0) {
                    assert(pstand_bnd(s0).n <= pexp_bnd(s0).n && pstand_bnd(s0).d <= pexp_bnd(
                        s0,
                    ).d);
                }
            }
            return None;
        },
    };
    if cannot_hit(&state.player) {
        return Some(stand);
    }
    let ghost mut m: Q = sstand(s0);
    let ghost mut mb: Q = pstand_bnd(s0);
    proof {
        lemma_sstand_pos(s0);
    }
    let mut best = stand;
    if can_insurance(state) {
        proof {
            if pexp_fits(s0) {
                assert(pins_bnd(s0).n <= pexp_bnd(s0).n && pins_bnd(s0).d <= pexp_bnd(s0).d);
            }
        }
        let iv = match insurance_expectation(state) {
            Some(v) => v,
            None => {
                return None;
            },
        };
        proof {
            lemma_sins_pos(s0);
            lemma_max_step(best.q(), iv.q(), m, sins(s0));
            m = q_max(m, sins(s0));
            mb = bmax(mb, pins_bnd(s0));
        }
        best = best.max_val(&iv);
    }
    if can_surrender(state) {
        let sur = Rat::neg_frac(1, 2);
        proof {
            lemma_max_step(best.q(), sur.q(), m, q_frac(-1, 2));
            m = q_max(m, q_frac(-1, 2));
            mb = bmax(mb, Q { n: 1, d: 2 });
        }
        best = best.max_val(&sur);
    }
    if can_double(state) {
        proof {
            if pexp_fits(s0) {
                assert(pdouble_bnd(s0).n <= pexp_bnd(s0).n && pdouble_bnd(s0).d <= pexp_bnd(
                    s0,
                ).d);
            }
        }
        let dv = match double_expectation(state) {
            Some(v) => v,
            None => {
                return None;
            },
        };
        proof {
            lemma_sdouble_pos(s0);
            lemma_max_step(best.q(), dv.q(), m, sdouble(s0));
            m = q_max(m, sdouble(s0));
            mb = bmax(mb, pdouble_bnd(s0));
        }
        best = best.max_val(&dv);
    }
    if can_split(state) {
        proof {
            if pexp_fits(s0) {
                assert(psplit_bnd(s0).n <= pexp_bnd(s0).n && psplit_bnd(s0).d <= pexp_bnd(
                    s0,
                ).d);
            }
        }
        let sv = match split_expectation(state) {
            Some(v) => v,
            None => {
                return None;
            },
        };
        proof {
            lemma_ssplit_pos(s0);
            lemma_max_step(best.q(), sv.q(), m, ssplit(s0));
            m = q_max(m, ssplit(s0));
            mb = bmax(mb, psplit_bnd(s0));
        }
        best = best.max_val(&sv);
    }
    proof {
        lemma_low_sum_not_bust(s0.player);
        if pexp_fits(s0) {
            assert(phit_bnd(s0).n <= pexp_bnd(s0).n && phit_bnd(s0).d <= pexp_bnd(s0).d);
        }
    }
    let hv = match hit_expectation(state) {
        Some(v) => v,
        None => {
            return None;
        },
    };
    proof {
        lemma_shit_pos(s0);
        lemma_max_step(best.q(), hv.q(), m, shit(s0));
        m = q_max(m, shit(s0));
        mb = bmax(mb, phit_bnd(s0));
    }
    best = best.max_val(&hv);
    proof {
        assert(m == sexp(s0));
        assert(mb == pexp_bnd(s0));
    }
    Some(best)
}

/// Expected return of the player's hand averaged over the dealer's next
/// (hidden) card.
pub fn player_hand_expectation(state: &mut GameState) -> (r: Option<Rat>)
    requires
        old(state).wf(),
        old(state).dealer@.len() <= 5,
    ensures
        same_state(*old(state), *final(state)),
        r matches Some(v) ==> v.wf() && q_eq(v.q(), splayer_hand(old(state).v())),
        r matches Some(v) ==> v.num <= pph_bnd(old(state).v()).n && v.den <= pph_bnd(
            old(state).v(),
        ).d,
        pph_fits(old(state).v()) ==> r is Some,
{
    let ghost s0 = state.v();
    let mut acc = Rat::zero();
    let mut card: u16 = 1;
    while card <= 10
        invariant
            state.wf(),
            state.v() == s0,
            s0.dealer.len() <= 5,
            s0.player.len() <= 6,
            1 <= card <= 11,
            acc.wf(),
            q_eq(acc.q(), splayer_sum(s0, card - 1)),
            acc.num <= pph_sum_bnd(s0, card - 1).n,
            acc.den <= pph_sum_bnd(s0, card - 1).d,
            same_state(*old(state), *state),
        decreases 11 - card,
    {
        let idx = card_index(card);
        if state.deck.cards[idx] > 0 {
            let ghost child = SpecState {
                deck: spec_draw(s0.deck, card as int),
                player: s0.player,
                dealer: s0.dealer.push(card),
                fi: s0.fi,
                split: s0.split,
                fsh: s0.fsh,
            };
            let ghost pq = spec_card_prob(s0.deck, card as int, false);
            let ghost sub_bnd = pexp_bnd(child);
            proof {
                lemma_pph_bnd_step(s0, card as int);
                lemma_pph_bnd_mono(s0, card as int, 10);
                lemma_pph_sum_bnd_nonneg(s0, card - 1);
                lemma_pexp_bnd_nonneg(child);
            }
            let p = state.deck.card_prob(card, false);
            proof {
                assert(p.num == pq.n && p.den == pq.d);
            }
            state.deck.draw_to(&mut state.dealer, card);
            proof {
                assert(valid_hand(state.dealer@));
                assert(state.v() == child);
            }
            let sub = expectation(state);
            proof {
                lemma_remove_pushed(s0.dealer, card);
                lemma_draw_replace_roundtrip(s0.deck, card as int);
            }
            state.deck.replace_from(&mut state.dealer, card);
            proof {
                assert(state.v() == s0);
            }
            let subv = match sub {
                Some(v) => v,
                None => {
                    return None;
                },
            };
            proof {
                crate::dealer_dist::lemma_mul_mono(p.num as int, pq.n, subv.num as int, sub_bnd.n);
                crate::dealer_dist::lemma_mul_mono(p.den as int, pq.d, subv.den as int, sub_bnd.d);
            }
            let term = match p.mul(&subv) {
                Some(t) => t,
                None => {
                    return None;
                },
            };
            proof {
                let prev = pph_sum_bnd(s0, card - 1);
                crate::dealer_dist::lemma_mul_mono(
                    acc.num as int,
                    prev.n,
                    term.den as int,
                    pq.d * sub_bnd.d,
                );
                crate::dealer_dist::lemma_mul_mono(
                    term.num as int,
                    pq.n * sub_bnd.n,
                    acc.den as int,
                    prev.d,
                );
                crate::dealer_dist::lemma_mul_mono(
                    acc.den as int,
                    prev.d,
                    term.den as int,
                    pq.d * sub_bnd.d,
                );
            }
            let acc2 = match acc.add(&term) {
                Some(a) => a,
                None => {
                    return None;
                },
            };
            proof {
                lemma_sexp_pos(child);
                lemma_mul_step(p.q(), subv.q(), term.q(), sexp(child));
                lemma_splayer_sum_pos(s0, card - 1);
                lemma_acc_step(
                    acc.q(),
                    term.q(),
                    acc2.q(),
                    splayer_sum(s0, card - 1),
                    q_mul(spec_card_prob(s0.deck, card as int, false), sexp(child)),
                );
            }
            acc = acc2;
        } else {
            proof {
                lemma_splayer_sum_pos(s0, card - 1);
                lemma_q_add_zero(splayer_sum(s0, card - 1));
            }
        }
        card = card + 1;
    }
    Some(acc)
}

/// Expected return per unit bet of a whole shoe under optimal play: every
/// unordered pair of starting cards and every dealer card, weighted by its
/// exact probability (pairs of distinct ranks counting both orders).
pub fn deck_expectation(deck: Deck) -> (r: Option<Rat>)
    requires
        deck.wf(),
    ensures
        r matches Some(v) ==> v.wf() && q_eq(v.q(), sdeck_ev(deck.cards@)),
        r matches Some(v) ==> v.num <= pdeck_outer_bnd(deck.cards@, 10).n && v.den
            <= pdeck_outer_bnd(deck.cards@, 10).d,
        pdeck_fits(deck.cards@) ==> r is Some,
{
    let ghost d0 = deck.cards@;
    let mut state = GameState {
        player: Vec::new(),
        dealer: Vec::new(),
        deck,
        failed_insurance: false,
        is_split: false,
        first_split_hand: false,
    };
    let mut acc = Rat::zero();
    let mut card1: u16 = 1;
    while card1 <= 10
        invariant
            state.wf(),
            state.deck.cards@ == d0,
            state.player@ =~= Seq::<u16>::empty(),
            state.dealer@ =~= Seq::<u16>::empty(),
            !state.failed_insurance,
            !state.is_split,
            !state.first_split_hand,
            1 <= card1 <= 11,
            acc.wf(),
            q_eq(acc.q(), sdeck_outer(d0, card1 - 1)),
            acc.num <= pdeck_outer_bnd(d0, card1 - 1).n,
            acc.den <= pdeck_outer_bnd(d0, card1 - 1).d,
            deck.cards@ == d0,
        decreases 11 - card1,
    {
        let idx1 = card_index(card1);
        if state.deck.cards[idx1] > 0 {
            let ghost pq1 = spec_card_prob(d0, card1 as int, false);
            proof {
                lemma_pdeck_outer_bnd_step(d0, card1 as int);
                lemma_pdeck_outer_bnd_mono(d0, card1 as int, 10);
                lemma_pdeck_outer_bnd_nonneg(d0, card1 - 1);
            }
            let p1 = state.deck.card_prob(card1, false);
            proof {
                assert(p1.num == pq1.n && p1.den == pq1.d);
            }
            state.deck.draw_to(&mut state.player, card1);
            let ghost d1 = spec_draw(d0, card1 as int);
            let ghost s1 = SpecState {
                deck: d1,
                player: seq![card1],
                dealer: Seq::<u16>::empty(),
                fi: false,
                split: false,
                fsh: false,
            };
            proof {
                assert(state.player@ =~= seq![card1]);
                assert(state.v() == s1);
                assert(s1.player.len() == 1);
                lemma_pdeck_inner_bnd_nonneg(s1, pq1, card1 as int, 10);
            }
            let mut inner = Rat::zero();
            let mut card2: u16 = card1;
            while card2 <= 10
                invariant
                    state.wf(),
                    state.v() == s1,
                    s1 == (SpecState {
                        deck: d1,
                        player: seq![card1],
                        dealer: Seq::<u16>::empty(),
                        fi: false,
                        split: false,
                        fsh: false,
                    }),
                    1 <= card1 <= 10,
                    card1 <= card2 <= 11,
                    p1.wf(),
                    p1.q() == spec_card_prob(d0, card1 as int, false),
                    pq1 == spec_card_prob(d0, card1 as int, false),
                    d0[card1 - 1] != 0,
                    d0.len() == 10,
                    d1 == spec_draw(d0, card1 as int),
                    deck.cards@ == d0,
                    inner.wf(),
                    q_eq(inner.q(), sdeck_inner(s1, p1.q(), card1 as int, card2 - 1)),
                    inner.num <= pdeck_inner_bnd(s1, pq1, card1 as int, card2 - 1).n,
                    inner.den <= pdeck_inner_bnd(s1, pq1, card1 as int, card2 - 1).d,
                decreases 11 - card2,
            {
                let idx2 = card_index(card2);
                if state.deck.cards[idx2] > 0 {
                    let ghost pq2 = spec_card_prob(s1.deck, card2 as int, false);
                    let ghost child = SpecState {
                        deck: spec_draw(s1.deck, card2 as int),
                        player: s1.player.push(card2),
                        dealer: s1.dealer,
                        fi: false,
                        split: false,
                        fsh: false,
                    };
                    let ghost hb = pph_bnd(child);
                    proof {
                        lemma_pdeck_inner_bnd_step(s1, pq1, card1 as int, card2 as int);
                        lemma_pdeck_inner_bnd_mono(s1, pq1, card1 as int, card2 as int, 10);
                        lemma_pdeck_inner_bnd_nonneg(s1, pq1, card1 as int, card2 - 1);
                        lemma_pdeck_term_bnd_nonneg(s1, pq1, card1 as int, card2 as int);
                        lemma_pph_sum_bnd_nonneg(child, 10);
                        lemma_pdeck_outer_bnd_step(d0, card1 as int);
                        lemma_pdeck_outer_bnd_mono(d0, card1 as int, 10);
                        assert(((card1 as int) as u16) == card1);
                        assert(seq![(card1 as int) as u16] =~= seq![card1]);
                        assert(s1 == (SpecState {
                            deck: spec_draw(d0, card1 as int),
                            player: seq![(card1 as int) as u16],
                            dealer: Seq::<u16>::empty(),
                            fi: false,
                            split: false,
                            fsh: false,
                        }));
                        assert(pdeck_term_bnd(s1, pq1, card1 as int, card2 as int) == if card1
                            == card2 {
                            Q { n: (pq1.n * pq2.n) * (hb.n + 1), d: (pq1.d * pq2.d) * hb.d }
                        } else {
                            Q { n: 2 * ((pq1.n * pq2.n) * (hb.n + 1)), d: (pq1.d * pq2.d) * hb.d }
                        });
                        // The partial products stay under the padded term bound.
                        assert(pq1.n * pq2.n <= (pq1.n * pq2.n) * (hb.n + 1) && pq1.d * pq2.d
                            <= (pq1.d * pq2.d) * hb.d && hb.n <= (pq1.n * pq2.n) * (hb.n + 1)
                            && hb.d <= (pq1.d * pq2.d) * hb.d && (pq1.n * pq2.n) * (hb.n + 1) <= 2
                            * ((pq1.n * pq2.n) * (hb.n + 1))) by (nonlinear_arith)
                            requires
                                pq1.n >= 1,
                                pq1.d >= 1,
                                pq2.n >= 1,
                                pq2.d >= 1,
                                hb.n >= 0,
                                hb.d >= 1,
                        ;
                    }
                    let p2 = state.deck.card_prob(card2, false);
                    proof {
                        assert(p2.num == pq2.n && p2.den == pq2.d);
                    }
                    state.deck.draw_to(&mut state.player, card2);
                    proof {
                        assert(valid_hand(state.player@));
                        assert(state.v() == child);
                    }
                    let sub = player_hand_expectation(&mut state);
                    proof {
                        lemma_remove_pushed(s1.player, card2);
                        lemma_draw_replace_roundtrip(s1.deck, card2 as int);
                    }
                    state.deck.replace_from(&mut state.player, card2);
                    proof {
                        assert(state.v() == s1);
                    }
                    let subv = match sub {
                        Some(v) => v,
                        None => {
                            return None;
                        },
                    };
                    let t1 = match p1.mul(&p2) {
                        Some(t) => t,
                        None => {
                            return None;
                        },
                    };
                    proof {
                        crate::dealer_dist::lemma_mul_mono(
                            t1.num as int,
                            pq1.n * pq2.n,
                            subv.num as int,
                            hb.n,
                        );
                        crate::dealer_dist::lemma_mul_mono(
                            t1.den as int,
                            pq1.d * pq2.d,
                            subv.den as int,
                            hb.d,
                        );
                        assert((pq1.n * pq2.n) * hb.n <= (pq1.n * pq2.n) * (hb.n + 1))
                            by (nonlinear_arith)
                            requires
                                pq1.n >= 1,
                                pq2.n >= 1,
                                hb.n >= 0,
                        ;
                    }
                    let mut t2 = match t1.mul(&subv) {
                        Some(t) => t,
                        None => {
                            return None;
                        },
                    };
                    let ghost base = q_mul(
                        q_mul(p1.q(), spec_card_prob(s1.deck, card2 as int, false)),
                        splayer_hand(child),
                    );
                    proof {
                        lemma_splayer_sum_pos(child, 10);
                        crate::rat::lemma_q_mul_cong(
                            t1.q(),
                            subv.q(),
                            q_mul(p1.q(), p2.q()),
                            splayer_hand(child),
                        );
                        crate::rat::lemma_q_eq_trans(
                            t2.q(),
                            q_mul(t1.q(), subv.q()),
                            base,
                        );
                    }
                    if card1 != card2 {
                        let two = Rat::frac(2, 1);
                        proof {
                            assert(two.num == 2 && two.den == 1);
                        }
                        let t3 = match two.mul(&t2) {
                            Some(t) => t,
                            None => {
                                return None;
                            },
                        };
                        proof {
                            lemma_mul_step(two.q(), t2.q(), t3.q(), base);
                        }
                        t2 = t3;
                    }
                    proof {
                        let prev = pdeck_inner_bnd(s1, pq1, card1 as int, card2 - 1);
                        let tb = pdeck_term_bnd(s1, pq1, card1 as int, card2 as int);
                        crate::dealer_dist::lemma_mul_mono(
                            inner.num as int,
                            prev.n,
                            t2.den as int,
                            tb.d,
                        );
                        crate::dealer_dist::lemma_mul_mono(
                            t2.num as int,
                            tb.n,
                            inner.den as int,
                            prev.d,
                        );
                        crate::dealer_dist::lemma_mul_mono(
                            inner.den as int,
                            prev.d,
                            t2.den as int,
                            tb.d,
                        );
                    }
                    let acc2 = match inner.add(&t2) {
                        Some(a) => a,
                        None => {
                            return None;
                        },
                    };
                    proof {
                        lemma_sdeck_inner_pos(s1, p1.q(), card1 as int, card2 - 1);
                        let sterm = if card1 == card2 {
                            base
                        } else {
                            q_mul(q_int(2), base)
                        };
                        lemma_acc_step(
                            inner.q(),
                            t2.q(),
                            acc2.q(),
                            sdeck_inner(s1, p1.q(), card1 as int, card2 - 1),
                            sterm,
                        );
                    }
                    inner = acc2;
                } else {
                    proof {
                        lemma_sdeck_inner_pos(s1, p1.q(), card1 as int, card2 - 1);
                        lemma_q_add_zero(sdeck_inner(s1, p1.q(), card1 as int, card2 - 1));
                    }
                }
                card2 = card2 + 1;
            }
            proof {
                lemma_remove_pushed(Seq::<u16>::empty(), card1);
                assert(Seq::<u16>::empty().push(card1) =~= seq![card1]);
                lemma_draw_replace_roundtrip(d0, card1 as int);
            }
            state.deck.replace_from(&mut state.player, card1);
            proof {
                assert(state.player@ =~= Seq::<u16>::empty());
            }
            proof {
                assert(((card1 as int) as u16) == card1);
                assert(seq![(card1 as int) as u16] =~= seq![card1]);
                assert(s1 == (SpecState {
                    deck: spec_draw(d0, card1 as int),
                    player: seq![(card1 as int) as u16],
                    dealer: Seq::<u16>::empty(),
                    fi: false,
                    split: false,
                    fsh: false,
                }));
                lemma_pdeck_outer_bnd_step(d0, card1 as int);
                lemma_pdeck_outer_bnd_mono(d0, card1 as int, 10);
                let prev = pdeck_outer_bnd(d0, card1 - 1);
                let tb = pdeck_inner_bnd(s1, pq1, card1 as int, 10);
                crate::dealer_dist::lemma_mul_mono(
                    acc.num as int,
                    prev.n,
                    inner.den as int,
                    tb.d,
                );
                crate::dealer_dist::lemma_mul_mono(
                    inner.num as int,
                    tb.n,
                    acc.den as int,
                    prev.d,
                );
                crate::dealer_dist::lemma_mul_mono(
                    acc.den as int,
                    prev.d,
                    inner.den as int,
                    tb.d,
                );
            }
            let acc2 = match acc.add(&inner) {
                Some(a) => a,
                None => {
                    return None;
                },
            };
            proof {
                lemma_sdeck_outer_pos(d0, card1 - 1);
                lemma_sdeck_inner_pos(s1, p1.q(), card1 as int, 10);
                lemma_acc_step(
                    acc.q(),
                    inner.q(),
                    acc2.q(),
                    sdeck_outer(d0, card1 - 1),
                    sdeck_inner(s1, spec_card_prob(d0, card1 as int, false), card1 as int, 10),
                );
            }
            acc = acc2;
        } else {
            proof {
                lemma_sdeck_outer_pos(d0, card1 - 1);
                lemma_q_add_zero(sdeck_outer(d0, card1 - 1));
            }
        }
        card1 = card1 + 1;
    }
    Some(acc)
}

/// Which action the engine would pick, in specification terms: stand,
/// beaten in turn by hit, double and split only when each is eligible and
/// strictly better than everything before it (so ties keep the earlier
/// action in the fixed order stand, hit, double, split).
pub open spec fn sbest_action(s: SpecState) -> int {
    let b1 = sstand(s);
    let hit_better = !spec_cannot_hit(s.player) && q_lt(b1, shit(s));
    let b2 = if hit_better {
        shit(s)
    } else {
        b1
    };
    let dbl_better = spec_can_double(s) && q_lt(b2, sdouble(s));
    let b3 = if dbl_better {
        sdouble(s)
    } else {
        b2
    };
    let split_better = spec_can_split(s) && q_lt(b3, ssplit(s));
    if split_better {
        3
    } else if dbl_better {
        2
    } else if hit_better {
        1
    } else {
        0
    }
}

/// The name of the action with the best expected return, among those
/// legally available, ties resolved toward the earlier of stand, hit,
/// double, split.  An action is only ever named when its eligibility rule
/// holds.
pub fn best_action(state: &mut GameState) -> (r: Option<String>)
    requires
        old(state).wf(),
    ensures
        same_state(*old(state), *final(state)),
        r matches Some(a) ==> {
            let s = old(state).v();
            (a@ == "Stand"@ && sbest_action(s) == 0) || (a@ == "Hit"@ && sbest_action(s) == 1
                && !spec_cannot_hit(s.player)) || (a@ == "Double"@ && sbest_action(s) == 2
                && spec_can_double(s)) || (a@ == "Split"@ && sbest_action(s) == 3
                && spec_can_split(s))
        },
        pexp_fits(old(state).v()) ==> r is Some,
{
    let ghost s0 = state.v();
    proof {
        lemma_pstand_bnd_nonneg(s0);
        // A two-card hand can always act: its minimum total is at most
        // twenty, so it is neither six cards nor already at twenty-one.
        if s0.player.len() == 2 {
            crate::hand::lemma_sum_at_most(s0.player);
        }
    }
    let stand = match stand_expectation(state) {
        Some(v) => v,
        None => {
            proof {
                if pexp_fits(s0) {
                    assert(pstand_bnd(s0).n <= pexp_bnd(s0).n && pstand_bnd(s0).d <= pexp_bnd(
                        s0,
                    ).d);
                }
            }
            return None;
        },
    };
    proof {
        lemma_sstand_pos(s0);
    }
    let mut best = stand;
    let mut act: u8 = 0;
    let ghost b1 = sstand(s0);
    let ghost mut bq: Q = b1;
    if !cannot_hit(&state.player) {
        proof {
            lemma_low_sum_not_bust(s0.player);
            if pexp_fits(s0) {
                assert(phit_bnd(s0).n <= pexp_bnd(s0).n && phit_bnd(s0).d <= pexp_bnd(s0).d);
            }
        }
        let hv = match hit_expectation(state) {
            Some(v) => v,
            None => {
                return None;
            },
        };
        proof {
            lemma_shit_pos(s0);
            crate::rat::lemma_q_le_cong(hv.q(), best.q(), shit(s0), bq);
        }
        if !hv.le(&best) {
            best = hv;
            act = 1;
            proof {
                bq = shit(s0);
            }
        }
    }
    let ghost hit_better = !spec_cannot_hit(s0.player) && q_lt(b1, shit(s0));
    let ghost b2 = if hit_better {
        shit(s0)
    } else {
        b1
    };
    proof {
        assert(bq == b2);
        assert((act == 1) == hit_better);
    }
    if can_double(state) {
        proof {
            if pexp_fits(s0) {
                assert(!spec_cannot_hit(s0.player));
                assert(pdouble_bnd(s0).n <= pexp_bnd(s0).n && pdouble_bnd(s0).d <= pexp_bnd(
                    s0,
                ).d);
            }
        }
        let dv = match double_expectation(state) {
            Some(v) => v,
            None => {
                return None;
            },
        };
        proof {
            lemma_sdouble_pos(s0);
            crate::rat::lemma_q_le_cong(dv.q(), best.q(), sdouble(s0), bq);
        }
        if !dv.le(&best) {
            best = dv;
            act = 2;
            proof {
                bq = sdouble(s0);
            }
        }
    }
    let ghost dbl_better = spec_can_double(s0) && q_lt(b2, sdouble(s0));
    let ghost b3 = if dbl_better {
        sdouble(s0)
    } else {
        b2
    };
    proof {
        assert(bq == b3);
        assert((act == 2) == dbl_better);
    }
    if can_split(state) {
        proof {
            if pexp_fits(s0) {
                assert(!spec_cannot_hit(s0.player));
                assert(psplit_bnd(s0).n <= pexp_bnd(s0).n && psplit_bnd(s0).d <= pexp_bnd(
                    s0,
                ).d);
            }
        }
        let sv = match split_expectation(state) {
            Some(v) => v,
            None => {
                return None;
            },
        };
        proof {
            lemma_ssplit_pos(s0);
            crate::rat::lemma_q_le_cong(sv.q(), best.q(), ssplit(s0), bq);
        }
        if !sv.le(&best) {
            best = sv;
            act = 3;
            proof {
                bq = ssplit(s0);
            }
        }
    }
    let name: String = if act == 3 {
        "Split".to_owned()
    } else if act == 2 {
        "Double".to_owned()
    } else if act == 1 {
        "Hit".to_owned()
    } else {
        "Stand".to_owned()
    };
    Some(name)
}

} // verus!
