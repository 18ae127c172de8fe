//! The state of one hand being analysed: both hands, the shoe, and the
//! three flags that gate the player's options.

use vstd::prelude::*;
use crate::deck::{full_shoe, full_shoe_counts, spec_draw, Deck};
use crate::hand::valid_hand;

verus! {

#[derive(Debug, Clone)]
pub struct GameState {
    pub player: Vec<u16>,
    pub dealer: Vec<u16>,
    /// The shoe shared by the whole recursive search; every draw made
    /// while exploring a branch is undone before the branch returns.
    pub deck: Deck,
    /// True only inside the counterfactual branch where insurance was
    /// taken and lost: the dealer's hole card is then known not to be a
    /// ten.
    pub failed_insurance: bool,
    /// True while evaluating a sub-hand produced by a split; disables
    /// further splitting and insurance.
    pub is_split: bool,
    /// Marks the earlier of the two split sub-hands; disables surrender.
    pub first_split_hand: bool,
}

/// The specification-level mirror of a `GameState`: plain sequences and
/// flags, so the engine's meaning can be written as pure functions.
pub struct SpecState {
    pub deck: Seq<u16>,
    pub player: Seq<u16>,
    pub dealer: Seq<u16>,
    pub fi: bool,
    pub split: bool,
    pub fsh: bool,
}

impl GameState {
    pub open spec fn v(self) -> SpecState {
        SpecState {
            deck: self.deck.cards@,
            player: self.player@,
            dealer: self.dealer@,
            fi: self.failed_insurance,
            split: self.is_split,
            fsh: self.first_split_hand,
        }
    }

    /// A state the engine may explore: legal hands and a consistent deck.
    pub open spec fn wf(self) -> bool {
        self.deck.wf() && valid_hand(self.player@) && valid_hand(self.dealer@)
    }
}

/// Insurance is offered against a lone dealer ace, on the player's
/// untouched two-card hand, once, and never on a split hand.
pub open spec fn spec_can_insurance(s: SpecState) -> bool {
    s.dealer.len() == 1 && s.dealer[0] == 1 && s.player.len() == 2 && !s.fi && !s.split
}

pub fn can_insurance(state: &GameState) -> (r: bool)
    ensures
        r == spec_can_insurance(state.v()),
{
    state.dealer.len() == 1 && state.dealer[0] == 1 && state.player.len() == 2
        && !state.failed_insurance && !state.is_split
}

/// Surrender is allowed only on the original two cards, not on the first
/// of two split hands, and not after a failed insurance bet.
pub open spec fn spec_can_surrender(s: SpecState) -> bool {
    s.player.len() == 2 && !s.fsh && !s.fi
}

pub fn can_surrender(state: &GameState) -> (r: bool)
    ensures
        r == spec_can_surrender(state.v()),
{
    state.player.len() == 2 && !state.first_split_hand && !state.failed_insurance
}

/// Doubling down is allowed only on the original two cards.
pub open spec fn spec_can_double(s: SpecState) -> bool {
    s.player.len() == 2 && !s.fi
}

pub fn can_double(state: &GameState) -> (r: bool)
    ensures
        r == spec_can_double(state.v()),
{
    state.player.len() == 2 && !state.failed_insurance
}

/// Splitting needs an equal-rank pair, at most one split per round, and no
/// failed insurance bet.
pub open spec fn spec_can_split(s: SpecState) -> bool {
    s.player.len() == 2 && s.player[0] == s.player[1] && !s.split && !s.fi
}

pub fn can_split(state: &GameState) -> (r: bool)
    ensures
        r == spec_can_split(state.v()),
{
    state.player.len() == 2 && state.player[0] == state.player[1] && !state.is_split
        && !state.failed_insurance
}

/// This engine never forces a reshuffle in the middle of a hand.
pub fn will_reshuffle(deck: &Deck) -> (r: bool)
    ensures
        r == false,
{
    false
}

/// Replace the shoe with a fresh full shoe from which the dealt cards
/// have been removed: both cards of the player's pair (two of the player's
/// first rank) and the dealer's one or two cards.
pub fn reshuffle_deck(state: &mut GameState)
    requires
        old(state).wf(),
        1 <= old(state).player@.len(),
        1 <= old(state).dealer@.len() <= 2,
    ensures
        final(state).player@ == old(state).player@,
        final(state).dealer@ == old(state).dealer@,
        final(state).failed_insurance == old(state).failed_insurance,
        final(state).is_split == old(state).is_split,
        final(state).first_split_hand == old(state).first_split_hand,
        final(state).deck.wf(),
        final(state).deck.cards@ == if old(state).dealer@.len() == 2 {
            spec_draw(
                spec_draw(
                    spec_draw(
                        spec_draw(full_shoe_counts(), old(state).player@[0] as int),
                        old(state).player@[0] as int,
                    ),
                    old(state).dealer@[0] as int,
                ),
                old(state).dealer@[1] as int,
            )
        } else {
            spec_draw(
                spec_draw(
                    spec_draw(full_shoe_counts(), old(state).player@[0] as int),
                    old(state).player@[0] as int,
                ),
                old(state).dealer@[0] as int,
            )
        },
        final(state).deck.size == if old(state).dealer@.len() == 2 {
            412int
        } else {
            413int
        },
{
    state.deck = full_shoe();
    proof {
        assert(forall|i: int| 0 <= i < 10 ==> full_shoe_counts()[i] >= 32);
    }
    let p0 = state.player[0];
    state.deck.draw(p0);
    state.deck.draw(p0);
    let d0 = state.dealer[0];
    state.deck.draw(d0);
    if state.dealer.len() == 2 {
        let d1 = state.dealer[1];
        state.deck.draw(d1);
    }
}

} // verus!
