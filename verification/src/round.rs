//! Rounding modes and the operations that apply them.
//!
//! Every operation that can be inexact — a right shift, a division — takes a
//! `RoundingMode`. `Exact` demands the precise result and reports failure
//! rather than approximate; the directed modes truncate toward the named
//! direction; `Nearest` rounds to the closest value and breaks exact ties
//! toward the value with an even low bit.

use vstd::prelude::*;

use vstd::arithmetic::power2::pow2;

use crate::natural::Natural;

verus! {

/// How an operation chooses among representable values when its exact result
/// is not representable.
#[derive(Clone, Copy, PartialEq, Eq, Structural, Debug)]
pub enum RoundingMode {
    Down,
    Up,
    Floor,
    Ceiling,
    Nearest,
    Exact,
}

/// The quotient of `x` by `d`, rounded by `rm`. For `Exact` this reads as
/// the exact quotient, which the operations only return when the division
/// leaves no remainder.
pub open spec fn rounded_div(x: nat, d: nat, rm: RoundingMode) -> nat
    recommends
        d > 0,
{
    let q = x / d;
    let r = x % d;
    match rm {
        RoundingMode::Down => q,
        RoundingMode::Floor => q,
        RoundingMode::Exact => q,
        RoundingMode::Up => if r == 0 {
            q
        } else {
            q + 1
        },
        RoundingMode::Ceiling => if r == 0 {
            q
        } else {
            q + 1
        },
        RoundingMode::Nearest => if 2 * r < d {
            q
        } else if 2 * r > d {
            q + 1
        } else if q % 2 == 0 {
            q
        } else {
            q + 1
        },
    }
}

/// On exact divisions, every rounding mode produces the same exact quotient.
pub proof fn lemma_rounded_div_exact(x: nat, d: nat, rm: RoundingMode)
    requires
        d > 0,
        x % d == 0,
    ensures
        rounded_div(x, d, rm) == x / d,
{
}

/// The rounded quotients are ordered: flooring modes never exceed `Nearest`,
/// which never exceeds the ceiling modes, and the two truncating directions
/// agree with `Floor` and `Ceiling` on non-negative values.
pub proof fn lemma_rounded_div_order(x: nat, d: nat)
    requires
        d > 0,
    ensures
        rounded_div(x, d, RoundingMode::Down) == rounded_div(x, d, RoundingMode::Floor),
        rounded_div(x, d, RoundingMode::Up) == rounded_div(x, d, RoundingMode::Ceiling),
        rounded_div(x, d, RoundingMode::Floor) <= rounded_div(x, d, RoundingMode::Nearest),
        rounded_div(x, d, RoundingMode::Nearest) <= rounded_div(x, d, RoundingMode::Ceiling),
        rounded_div(x, d, RoundingMode::Ceiling) <= rounded_div(x, d, RoundingMode::Floor) + 1,
{
}

/// An exact tie — a remainder of exactly half the divisor — rounds to the
/// neighbour whose low bit is zero.
pub proof fn lemma_rounded_div_tie_even(x: nat, d: nat)
    requires
        d > 0,
        2 * (x % d) == d,
    ensures
        rounded_div(x, d, RoundingMode::Nearest) % 2 == 0,
{
    let q = x / d;
    if q % 2 != 0 {
        vstd::arithmetic::div_mod::lemma_fundamental_div_mod(q as int, 2);
    }
}

impl Natural {
    /// Divides by `other`, rounding by `rm`: `None` exactly when `rm` is
    /// `Exact` and the division leaves a remainder.
    pub fn div_round(&self, other: &Natural, rm: RoundingMode) -> (r: Option<Natural>)
        requires
            self.is_canonical(),
            other.is_canonical(),
            other@ != 0,
        ensures
            match r {
                Some(v) => v@ == rounded_div(self@, other@, rm) && v.is_canonical(),
                None => rm == RoundingMode::Exact && self@ % other@ != 0,
            },
            (r is None) <==> (rm == RoundingMode::Exact && self@ % other@ != 0),
    {
        let (q, rem) = self.div_mod(other);
        proof {
            crate::div::lemma_div_mod_round_trip(self@, other@, q@, rem@);
        }
        let rem_zero = rem.is_zero();
        match rm {
            RoundingMode::Down => Some(q),
            RoundingMode::Floor => Some(q),
            RoundingMode::Up => {
                if rem_zero {
                    Some(q)
                } else {
                    Some(q.add(&Natural::one()))
                }
            }
            RoundingMode::Ceiling => {
                if rem_zero {
                    Some(q)
                } else {
                    Some(q.add(&Natural::one()))
                }
            }
            RoundingMode::Exact => {
                if rem_zero {
                    Some(q)
                } else {
                    None
                }
            }
            RoundingMode::Nearest => {
                let twice = rem.add(&rem);
                match twice.cmp(other) {
                    core::cmp::Ordering::Less => Some(q),
                    core::cmp::Ordering::Greater => Some(q.add(&Natural::one())),
                    core::cmp::Ordering::Equal => {
                        if q.even() {
                            Some(q)
                        } else {
                            Some(q.add(&Natural::one()))
                        }
                    }
                }
            }
        }
    }

    /// Shifts right by `bits`, rounding by `rm`: division by `2^bits` with
    /// the same rounding rules.
    pub fn shr_round(&self, bits: u64, rm: RoundingMode) -> (r: Option<Natural>)
        requires
            self.is_canonical(),
            bits / 32 + 2 <= usize::MAX,
        ensures
            match r {
                Some(v) => v@ == rounded_div(self@, pow2(bits as nat), rm) && v.is_canonical(),
                None => rm == RoundingMode::Exact && self@ as int % (pow2(bits as nat) as int)
                    != 0,
            },
            (r is None) <==> (rm == RoundingMode::Exact && self@ as int % (pow2(bits as nat) as int)
                != 0),
    {
        proof {
            vstd::arithmetic::power2::lemma_pow2_pos(bits as nat);
        }
        let q = self.shr(bits);
        let rem = self.mod_power_of_2(bits);
        proof {
            vstd::arithmetic::div_mod::lemma_fundamental_div_mod(
                self@ as int,
                pow2(bits as nat) as int,
            );
        }
        let rem_zero = rem.is_zero();
        match rm {
            RoundingMode::Down => Some(q),
            RoundingMode::Floor => Some(q),
            RoundingMode::Up => {
                if rem_zero {
                    Some(q)
                } else {
                    Some(q.add(&Natural::one()))
                }
            }
            RoundingMode::Ceiling => {
                if rem_zero {
                    Some(q)
                } else {
                    Some(q.add(&Natural::one()))
                }
            }
            RoundingMode::Exact => {
                if rem_zero {
                    Some(q)
                } else {
                    None
                }
            }
            RoundingMode::Nearest => {
                let twice = rem.add(&rem);
                let p = Natural::one().shl(bits);
                proof {
                    assert(1 * pow2(bits as nat) == pow2(bits as nat)) by (nonlinear_arith);
                }
                match twice.cmp(&p) {
                    core::cmp::Ordering::Less => Some(q),
                    core::cmp::Ordering::Greater => Some(q.add(&Natural::one())),
                    core::cmp::Ordering::Equal => {
                        if q.even() {
                            Some(q)
                        } else {
                            Some(q.add(&Natural::one()))
                        }
                    }
                }
            }
        }
    }
}


/// The rounding mode that acts on a magnitude the way `rm` acts on its
/// negation: the directed modes swap direction, the rest stay.
pub open spec fn negated_mode(rm: RoundingMode) -> RoundingMode {
    match rm {
        RoundingMode::Floor => RoundingMode::Ceiling,
        RoundingMode::Ceiling => RoundingMode::Floor,
        RoundingMode::Down => RoundingMode::Down,
        RoundingMode::Up => RoundingMode::Up,
        RoundingMode::Nearest => RoundingMode::Nearest,
        RoundingMode::Exact => RoundingMode::Exact,
    }
}

/// A signed value shifted right by `bits`, rounded by `rm`: the magnitude is
/// rounded with the direction flipped under negation, so `Floor` moves
/// toward minus infinity, `Down` toward zero, and `Nearest` still breaks
/// ties toward the even neighbour.
pub open spec fn rounded_shr_int(x: int, bits: nat, rm: RoundingMode) -> int {
    if x >= 0 {
        rounded_div(x as nat, pow2(bits), rm) as int
    } else {
        -(rounded_div((-x) as nat, pow2(bits), negated_mode(rm)) as int)
    }
}

/// The flooring mode really floors: for every sign it gives the euclidean
/// quotient by the power of two, and `Ceiling` its mirror image.
pub proof fn lemma_rounded_shr_int_directed(x: int, bits: nat)
    ensures
        rounded_shr_int(x, bits, RoundingMode::Floor) == x / (pow2(bits) as int),
        rounded_shr_int(x, bits, RoundingMode::Ceiling) == -((-x) / (pow2(bits) as int)),
{
    vstd::arithmetic::power2::lemma_pow2_pos(bits);
    if x >= 0 {
        crate::shift::lemma_neg_div(x as nat, pow2(bits));
        vstd::arithmetic::div_mod::lemma_fundamental_div_mod(x, pow2(bits) as int);
    } else {
        crate::shift::lemma_neg_div((-x) as nat, pow2(bits));
        vstd::arithmetic::div_mod::lemma_fundamental_div_mod(-x, pow2(bits) as int);
    }
}

impl crate::integer::Integer {
    /// Shifts right by a signed amount, rounding by `rm`: a negative amount
    /// shifts left exactly, and `None` comes exactly when `rm` is `Exact`
    /// and low bits would be lost.
    pub fn shr_round(&self, bits: i32, rm: RoundingMode) -> (r: Option<crate::integer::Integer>)
        requires
            self.is_canonical(),
            self.abs.spec_limb_len() + 0x0400_0002 <= usize::MAX,
        ensures
            bits >= 0 ==> match r {
                Some(v) => v@ == rounded_shr_int(self@, bits as nat, rm) && v.is_canonical(),
                None => rm == RoundingMode::Exact && self@ % (pow2(bits as nat) as int) != 0,
            },
            bits >= 0 ==> ((r is None) <==> (rm == RoundingMode::Exact && self@ % (pow2(
                bits as nat,
            ) as int) != 0)),
            bits < 0 ==> match r {
                Some(v) => v@ == self@ * pow2((-bits) as nat) && v.is_canonical(),
                None => false,
            },
    {
        if bits < 0 {
            return Some(self.shr_i32(bits));
        }
        let mag_mode = if self.sign {
            rm
        } else {
            match rm {
                RoundingMode::Floor => RoundingMode::Ceiling,
                RoundingMode::Ceiling => RoundingMode::Floor,
                RoundingMode::Down => RoundingMode::Down,
                RoundingMode::Up => RoundingMode::Up,
                RoundingMode::Nearest => RoundingMode::Nearest,
                RoundingMode::Exact => RoundingMode::Exact,
            }
        };
        proof {
            vstd::arithmetic::power2::lemma_pow2_pos(bits as nat);
            if !self.sign {
                crate::eq_mod::lemma_mod_neg_zero(self.abs@, pow2(bits as nat) as int);
            }
        }
        match self.abs.shr_round(bits as u64, mag_mode) {
            Some(mag) => Some(
                crate::integer::Integer::from_sign_and_abs(self.sign, mag),
            ),
            None => None,
        }
    }

    /// Replaces `self` by `self` shifted right by `bits`, rounding by `rm`;
    /// the shift must be representable, so `Exact` demands an exact result.
    pub fn shr_round_assign(&mut self, bits: i32, rm: RoundingMode) -> (r: bool)
        requires
            old(self).is_canonical(),
            old(self).abs.spec_limb_len() + 0x0400_0002 <= usize::MAX,
        ensures
            bits >= 0 ==> (r <==> !(rm == RoundingMode::Exact && old(self)@ % (pow2(
                bits as nat,
            ) as int) != 0)),
            (bits >= 0 && r) ==> (final(self)@ == rounded_shr_int(old(self)@, bits as nat, rm)
                && final(self).is_canonical()),
            bits < 0 ==> (r && final(self)@ == old(self)@ * pow2((-bits) as nat)
                && final(self).is_canonical()),
            !r ==> *final(self) == *old(self),
    {
        match self.shr_round(bits, rm) {
            Some(v) => {
                *self = v;
                true
            }
            None => false,
        }
    }
}

} // verus!
