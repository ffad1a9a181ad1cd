//! A verified multi-player poker engine.
//!
//! The core is a deterministic, side-effect-free state machine for no-limit
//! hold'em style play: given a game state and a proposed action, it computes
//! the unique successor state, including betting-round closure, street
//! advancement and showdown hand evaluation.  All chip amounts are integers;
//! rewards at a terminal state are signed chip counts.
//!
//! The payoff model is a single shared pot split evenly among the winners:
//! side pots for unequal all-in stakes are not modelled, and the indivisible
//! remainder of an even split is discarded rather than redistributed.
//!
//! The crate also carries a small integer complex-number type used by an
//! integer FFT pipeline.

pub mod action;
pub mod args;
pub mod card;
pub mod complex;
pub mod game_logic;
pub mod hand;
pub mod shuffle;
pub mod stage;
pub mod state;

use vstd::prelude::*;

verus! {

} // verus!
