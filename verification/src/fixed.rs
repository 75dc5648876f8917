//! Fixed-point representation of the real quantities kept in the search tree.
//!
//! Probabilities and values live in the closed interval from zero to one and are
//! stored as multiples of `1 / UNIT`.

use vstd::prelude::*;

verus! {

/// The fixed-point representation of 1.
pub const UNIT: u64 = 0x1_0000_0000;

/// The fixed-point representation of one half, the value of a drawn game.
pub const HALF: u64 = 0x8000_0000;

/// The value seen from the other side: `1 - v`.
pub open spec fn flipped(v: u64) -> int {
    UNIT - v
}

/// Returns `1 - v` in fixed point.
pub fn flip(v: u64) -> (r: u64)
    requires
        v <= UNIT,
    ensures
        r == flipped(v),
        r <= UNIT,
{
    UNIT - v
}

} // verus!
