//! Splitting double-limb intermediate results.
//!
//! Carry-propagating loops compute each step in a 64-bit double limb and
//! split it into a low limb and a high (carry) limb.

use vstd::prelude::*;

use crate::model::base;

verus! {

/// Splits a double limb into its low and high limbs:
/// `x == lo + base * hi`.
pub fn split_double(x: u64) -> (r: (u32, u32))
    ensures
        r.0 as nat + base() * (r.1 as nat) == x as nat,
{
    let lo = x as u32;
    let hi = (x >> 32) as u32;
    proof {
        assert(lo as u64 + 0x1_0000_0000u64 * (hi as u64) == x) by (bit_vector)
            requires
                lo == x as u32 && hi == (x >> 32) as u32,
        ;
    }
    (lo, hi)
}

} // verus!
