//! Branch-and-bound search for hands of cards, read as vectors over the
//! binary field, with many or with an exact number of quads: sets of four
//! cards `a, b, c, d` with `a ^ b == c ^ d`.
//!
//! - `counting`: the mathematical model (quad and pair counts of a hand).
//! - `hand`: hands as 128-bit masks.
//! - `tracker`: the difference table, updated one card at a time.
//! - `policy`: which cards are worth trying next.
//! - `engine`: the searches.

pub mod counting;
pub mod engine;
pub mod hand;
pub mod policy;
pub mod tracker;
