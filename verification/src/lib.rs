//! Decides whether a fixed, fully known deal of a cooperative
//! trick-taking card game can be played out so that a tiered set of
//! per-player objectives is satisfied. A 40-card universe lives in a
//! bitset with suit and rank semantics; a lazy enumerator produces every
//! legal play of a trick under the follow-suit rule; a task state
//! machine tracks three priority tiers of obligations plus one optional
//! final one; and a depth-first search ties them together. The search's
//! verdict is proved equal to a mathematical solvability predicate.

pub mod card;
pub mod cli;
pub mod play;
pub mod player;
pub mod solver;
pub mod suit;
pub mod tasks;
