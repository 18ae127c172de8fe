//! Exact expected-value analysis of blackjack decisions.
//!
//! Given the exact composition of the remaining shoe, the engine computes
//! the expected monetary return of every legal decision — stand, hit,
//! double, split, insurance, surrender — by exhaustive enumeration of all
//! future card sequences weighted by their exact probabilities, and the
//! overall return of a whole shoe under optimal play.  All probabilities
//! and returns are exact rationals.

pub mod dealer_dist;
pub mod deck;
pub mod engine;
pub mod hand;
pub mod parse;
pub mod rat;
pub mod spec_ev;
pub mod state;
