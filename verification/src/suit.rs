use vstd::prelude::*;

use crate::card::RawCardSet;

verus! {

/// The nine blue cards, bit positions 0 through 8.
pub const BLUE: RawCardSet = 0x1FFu64;

/// The nine yellow cards, bit positions 9 through 17.
pub const YELLOW: RawCardSet = 0x3FE00u64;

/// The nine magenta cards, bit positions 18 through 26.
pub const MAGENTA: RawCardSet = 0x7FC0000u64;

/// The nine green cards, bit positions 27 through 35.
pub const GREEN: RawCardSet = 0xFF8000000u64;

/// The four rocket (trump) cards, bit positions 36 through 39.
pub const ROCKETS: RawCardSet = 0xF000000000u64;

/// Every bit of the 40-bit card universe.
pub const UNIVERSE: RawCardSet = 0xFFFFFFFFFFu64;

} // verus!
