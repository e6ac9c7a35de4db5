use vstd::prelude::*;

verus! {

/// Seat number of a player, `0` up to `NUM_PLAYERS - 1`.
pub type PlayerIndex = u8;

/// Number of players in a game.
pub const NUM_PLAYERS: usize = 4;

} // verus!
