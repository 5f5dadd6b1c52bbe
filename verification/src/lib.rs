//! An arbitrary-precision integer arithmetic engine.
//!
//! Non-negative integers ([`natural::Natural`]) and signed integers
//! ([`integer::Integer`]) are stored as sequences of fixed-width machine
//! words ("limbs"), least-significant first. Every operation is specified
//! against the mathematical value of those sequences and verified.

use vstd::prelude::*;

pub mod mod_power_of_two;
pub mod model;
pub mod mul;
pub mod add;
pub mod bit_access;
pub mod bits;
pub mod cmp;
pub mod div;
pub mod float_extras;
pub mod inputs;
pub mod integer;
pub mod logic;
pub mod double_limb;
pub mod eq_mod;
pub mod natural;
pub mod or;
pub mod parity;
pub mod round;
pub mod shift;
pub mod slices;
pub mod square;
pub mod strings;
pub mod sub;
pub mod toom;
pub mod twos_complement;

verus! {

/// The fixed-width unsigned machine word that is the atomic unit of storage
/// and arithmetic. This build uses 32-bit limbs.
pub type Limb = u32;

/// Base-2 logarithm of the number of bits in a `Limb`.
pub const LOG_LIMB_BITS: u32 = 5;

/// The number of bits in a `Limb`.
pub const LIMB_BITS: u32 = 1 << LOG_LIMB_BITS;

} // verus!
