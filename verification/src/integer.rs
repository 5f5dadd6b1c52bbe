//! The `Integer` type: a sign composed with a `Natural` magnitude.
//!
//! The sign flag is true for non-negative values. Canonical form: the
//! magnitude is canonical, and zero is always non-negative — there is no
//! signed zero.

use vstd::prelude::*;

use core::cmp::Ordering;

use crate::natural::Natural;
use vstd::std_specs::cmp::PartialEqSpec;

verus! {

/// A signed integer: a sign and an exclusively owned magnitude.
pub struct Integer {
    /// True exactly when the value is non-negative.
    pub sign: bool,
    /// The magnitude.
    pub abs: Natural,
}

impl View for Integer {
    type V = int;

    open spec fn view(&self) -> int {
        if self.sign {
            self.abs@ as int
        } else {
            -(self.abs@ as int)
        }
    }
}

impl Integer {
    /// Canonical form: canonical magnitude, and no negative zero.
    pub open spec fn is_canonical(&self) -> bool {
        self.abs.is_canonical() && (self.sign || self.abs@ != 0)
    }

    /// Returns true iff `self` is in canonical form.
    pub fn is_valid(&self) -> (r: bool)
        ensures
            r == self.is_canonical(),
    {
        self.abs.is_valid() && (self.sign || !self.abs.is_zero_any())
    }

    /// The value zero.
    pub fn zero() -> (r: Integer)
        ensures
            r@ == 0,
            r.is_canonical(),
    {
        Integer { sign: true, abs: Natural::zero() }
    }

    /// The value one.
    pub fn one() -> (r: Integer)
        ensures
            r@ == 1,
            r.is_canonical(),
    {
        Integer { sign: true, abs: Natural::one() }
    }

    /// The value two.
    pub fn two() -> (r: Integer)
        ensures
            r@ == 2,
            r.is_canonical(),
    {
        Integer { sign: true, abs: Natural::two() }
    }

    /// The value minus one.
    pub fn negative_one() -> (r: Integer)
        ensures
            r@ == -1,
            r.is_canonical(),
    {
        Integer { sign: false, abs: Natural::one() }
    }

    /// Composes a sign and a magnitude, taking the magnitude by value. A zero
    /// magnitude gives a non-negative zero whatever the sign.
    pub fn from_sign_and_abs(sign: bool, abs: Natural) -> (r: Integer)
        requires
            abs.is_canonical(),
        ensures
            r@ == if sign {
                abs@ as int
            } else {
                -(abs@ as int)
            },
            r.is_canonical(),
    {
        let z = abs.is_zero();
        Integer { sign: sign || z, abs }
    }

    /// Composes a sign and a magnitude, taking the magnitude by reference.
    pub fn from_sign_and_abs_ref(sign: bool, abs: &Natural) -> (r: Integer)
        requires
            abs.is_canonical(),
        ensures
            r@ == if sign {
                abs@ as int
            } else {
                -(abs@ as int)
            },
            r.is_canonical(),
    {
        Integer::from_sign_and_abs(sign, abs.clone())
    }

    /// The magnitude of `self` as a `Natural`.
    pub fn unsigned_abs(&self) -> (r: Natural)
        requires
            self.is_canonical(),
        ensures
            r@ == if self@ >= 0 {
                self@
            } else {
                -self@
            },
            r.is_canonical(),
    {
        self.abs.clone()
    }

    /// The negative of `self`.
    pub fn neg(&self) -> (r: Integer)
        requires
            self.is_canonical(),
        ensures
            r@ == -self@,
            r.is_canonical(),
    {
        Integer::from_sign_and_abs_ref(!self.sign, &self.abs)
    }

    /// The absolute value of `self`.
    pub fn abs(&self) -> (r: Integer)
        requires
            self.is_canonical(),
        ensures
            r@ == if self@ >= 0 {
                self@
            } else {
                -self@
            },
            r.is_canonical(),
    {
        Integer { sign: true, abs: self.abs.clone() }
    }

    /// The sign of `self`: whether it is negative, zero, or positive.
    pub fn sign(&self) -> (r: Ordering)
        requires
            self.is_canonical(),
        ensures
            r == Ordering::Less <==> self@ < 0,
            r == Ordering::Equal <==> self@ == 0,
            r == Ordering::Greater <==> self@ > 0,
    {
        if !self.sign {
            Ordering::Less
        } else if self.abs.is_zero() {
            Ordering::Equal
        } else {
            Ordering::Greater
        }
    }

    /// The sum of `self` and `other`: magnitudes combine by sign, with the
    /// larger magnitude deciding the sign of a mixed-sign sum.
    pub fn add(&self, other: &Integer) -> (r: Integer)
        requires
            self.is_canonical(),
            other.is_canonical(),
        ensures
            r@ == self@ + other@,
            r.is_canonical(),
    {
        if self.sign == other.sign {
            let mag = self.abs.add(&other.abs);
            Integer::from_sign_and_abs(self.sign, mag)
        } else {
            match self.abs.cmp(&other.abs) {
                Ordering::Less => {
                    let mag = other.abs.sub(&self.abs);
                    Integer::from_sign_and_abs(other.sign, mag)
                }
                _ => {
                    let mag = self.abs.sub(&other.abs);
                    Integer::from_sign_and_abs(self.sign, mag)
                }
            }
        }
    }

    /// Adds `other` into `self`.
    pub fn add_assign(&mut self, other: &Integer)
        requires
            old(self).is_canonical(),
            other.is_canonical(),
        ensures
            final(self)@ == old(self)@ + other@,
            final(self).is_canonical(),
    {
        let r = self.add(other);
        *self = r;
    }

    /// The difference `self - other`.
    pub fn sub(&self, other: &Integer) -> (r: Integer)
        requires
            self.is_canonical(),
            other.is_canonical(),
        ensures
            r@ == self@ - other@,
            r.is_canonical(),
    {
        let n = other.neg();
        self.add(&n)
    }

    /// Subtracts `other` from `self` in place.
    pub fn sub_assign(&mut self, other: &Integer)
        requires
            old(self).is_canonical(),
            other.is_canonical(),
        ensures
            final(self)@ == old(self)@ - other@,
            final(self).is_canonical(),
    {
        let r = self.sub(other);
        *self = r;
    }

    /// The product of `self` and `other`.
    pub fn mul(&self, other: &Integer) -> (r: Integer)
        requires
            self.is_canonical(),
            other.is_canonical(),
            self.abs.spec_limb_len() + other.abs.spec_limb_len() <= usize::MAX,
        ensures
            r@ == self@ * other@,
            r.is_canonical(),
    {
        let mag = self.abs.mul(&other.abs);
        proof {
            lemma_mul_sign_cases(self@, other@, self.abs@, other.abs@);
        }
        Integer::from_sign_and_abs(self.sign == other.sign, mag)
    }

    /// Compares `self` and `other` as numbers.
    pub fn cmp(&self, other: &Integer) -> (r: Ordering)
        requires
            self.is_canonical(),
            other.is_canonical(),
        ensures
            r == Ordering::Less <==> self@ < other@,
            r == Ordering::Greater <==> self@ > other@,
            r == Ordering::Equal <==> self@ == other@,
    {
        match (self.sign, other.sign) {
            (true, false) => Ordering::Greater,
            (false, true) => Ordering::Less,
            (true, true) => self.abs.cmp(&other.abs),
            (false, false) => other.abs.cmp(&self.abs),
        }
    }

    /// Whether `self` is strictly smaller than `other`.
    pub fn lt(&self, other: &Integer) -> (r: bool)
        requires
            self.is_canonical(),
            other.is_canonical(),
        ensures
            r <==> self@ < other@,
    {
        matches!(self.cmp(other), Ordering::Less)
    }
}

/// Magnitudes multiply to the magnitude of the product, for every combination
/// of signs.
proof fn lemma_mul_sign_cases(x: int, y: int, a: nat, b: nat)
    requires
        a == if x >= 0 {
            x
        } else {
            -x
        },
        b == if y >= 0 {
            y
        } else {
            -y
        },
    ensures
        (x >= 0 <==> y >= 0) && x != 0 && y != 0 ==> x * y == a * b && x * y > 0,
        !(x >= 0 <==> y >= 0) ==> x * y == -(a * b) && x * y <= 0,
        x == 0 || y == 0 ==> x * y == 0 && a * b == 0,
{
    assert(x * y == if (x >= 0 <==> y >= 0) {
        (a * b) as int
    } else {
        -(a * b) as int
    }) by (nonlinear_arith)
        requires
            a == if x >= 0 {
                x
            } else {
                -x
            } && b == if y >= 0 {
                y
            } else {
                -y
            },
    ;
    if x == 0 || y == 0 {
        assert(x * y == 0) by (nonlinear_arith)
            requires
                x == 0 || y == 0,
        ;
        assert(a * b == 0) by (nonlinear_arith)
            requires
                a == 0 || b == 0,
        ;
    } else if (x >= 0 <==> y >= 0) {
        assert(x * y > 0) by (nonlinear_arith)
            requires
                (x > 0 && y > 0) || (x < 0 && y < 0),
        ;
    }
}

impl Natural {
    /// Whether `self` denotes zero, without assuming canonical form.
    pub fn is_zero_any(&self) -> (r: bool)
        ensures
            r <==> self@ == 0,
    {
        match self {
            Natural::Small(x) => *x == 0,
            Natural::Large(xs) => crate::slices::slice_test_zero(xs.as_slice()),
        }
    }
}

impl Clone for Integer {
    /// An exact structural copy.
    fn clone(&self) -> (r: Integer)
        ensures
            r@ == self@,
            spec_integer_struct_eq(&r, self),
            r.is_canonical() <==> self.is_canonical(),
    {
        Integer { sign: self.sign, abs: self.abs.clone() }
    }
}

impl PartialEq for Integer {
    /// Structural equality; on canonical values this coincides with equality
    /// of the denoted numbers.
    fn eq(&self, other: &Integer) -> (r: bool)
        ensures
            r == spec_integer_struct_eq(self, other),
    {
        self.sign == other.sign && self.abs.eq_limbwise(&other.abs)
    }
}

/// Structural equality of two signed representations.
pub open spec fn spec_integer_struct_eq(a: &Integer, b: &Integer) -> bool {
    a.sign == b.sign && crate::natural::spec_struct_eq(&a.abs, &b.abs)
}

impl vstd::std_specs::cmp::PartialEqSpecImpl for Integer {
    open spec fn obeys_eq_spec() -> bool {
        true
    }

    open spec fn eq_spec(&self, other: &Integer) -> bool {
        spec_integer_struct_eq(self, other)
    }
}

impl Eq for Integer {

}

/// On canonical values, structural equality agrees with equality of values:
/// the canonical representation of a signed integer is unique.
pub proof fn lemma_integer_canonical_eq(a: Integer, b: Integer)
    requires
        a.is_canonical(),
        b.is_canonical(),
    ensures
        spec_integer_struct_eq(&a, &b) <==> a@ == b@,
{
    crate::natural::lemma_canonical_eq(a.abs, b.abs);
}

impl From<u32> for Natural {
    /// A one-limb `Natural`.
    fn from(v: u32) -> (r: Natural) {
        Natural::Small(v)
    }
}

impl vstd::std_specs::convert::FromSpecImpl<u32> for Natural {
    open spec fn obeys_from_spec() -> bool {
        true
    }

    open spec fn from_spec(v: u32) -> Natural {
        Natural::Small(v)
    }
}

impl From<u32> for Integer {
    /// A non-negative one-limb `Integer`.
    fn from(v: u32) -> (r: Integer) {
        Integer { sign: true, abs: Natural::Small(v) }
    }
}

impl vstd::std_specs::convert::FromSpecImpl<u32> for Integer {
    open spec fn obeys_from_spec() -> bool {
        true
    }

    open spec fn from_spec(v: u32) -> Integer {
        Integer { sign: true, abs: Natural::Small(v) }
    }
}

impl From<i32> for Integer {
    /// An `Integer` with the sign and magnitude of the given machine word.
    fn from(v: i32) -> (r: Integer) {
        if v >= 0 {
            Integer { sign: true, abs: Natural::Small(v as u32) }
        } else {
            let m = if v == i32::MIN {
                0x8000_0000u32
            } else {
                (-v) as u32
            };
            Integer { sign: false, abs: Natural::Small(m) }
        }
    }
}

impl vstd::std_specs::convert::FromSpecImpl<i32> for Integer {
    open spec fn obeys_from_spec() -> bool {
        true
    }

    open spec fn from_spec(v: i32) -> Integer {
        if v >= 0 {
            Integer { sign: true, abs: Natural::Small(v as u32) }
        } else {
            Integer { sign: false, abs: Natural::Small((-(v as int)) as u32) }
        }
    }
}

impl From<Natural> for Integer {
    /// A non-negative `Integer` with the given magnitude.
    fn from(v: Natural) -> (r: Integer) {
        Integer { sign: true, abs: v }
    }
}

impl vstd::std_specs::convert::FromSpecImpl<Natural> for Integer {
    open spec fn obeys_from_spec() -> bool {
        true
    }

    open spec fn from_spec(v: Natural) -> Integer {
        Integer { sign: true, abs: v }
    }
}

impl Natural {
    /// A `Natural` from a double limb.
    pub fn from_u64(v: u64) -> (r: Natural)
        ensures
            r@ == v,
            r.is_canonical(),
    {
        let (lo, hi) = crate::double_limb::split_double(v);
        if hi == 0 {
            Natural::Small(lo)
        } else {
            let mut limbs: Vec<u32> = Vec::new();
            limbs.push(lo);
            limbs.push(hi);
            proof {
                assert(limbs@.skip(1) =~= seq![hi]);
                assert(limbs@.skip(1).skip(1) =~= Seq::<u32>::empty());
                assert(crate::model::limbs_val(limbs@.skip(1)) == hi as nat
                    + crate::model::base() * crate::model::limbs_val(limbs@.skip(1).skip(1)));
                assert(crate::model::limbs_val(limbs@) == lo as nat + crate::model::base()
                    * crate::model::limbs_val(limbs@.skip(1)));
            }
            Natural::Large(limbs)
        }
    }
}

impl Integer {
    /// An `Integer` from a signed double limb.
    pub fn from_i64(v: i64) -> (r: Integer)
        ensures
            r@ == v,
            r.is_canonical(),
    {
        if v >= 0 {
            Integer { sign: true, abs: Natural::from_u64(v as u64) }
        } else {
            let m: u64 = if v == i64::MIN {
                0x8000_0000_0000_0000u64
            } else {
                (-v) as u64
            };
            Integer { sign: false, abs: Natural::from_u64(m) }
        }
    }

    /// The value of `self` as a `u32`, or `None` when `self` is negative or
    /// too large.
    pub fn to_u32(&self) -> (r: Option<u32>)
        requires
            self.is_canonical(),
        ensures
            match r {
                Some(v) => self@ == v,
                None => self@ < 0 || self@ > u32::MAX,
            },
    {
        if !self.sign {
            return None;
        }
        match &self.abs {
            Natural::Small(x) => Some(*x),
            Natural::Large(xs) => {
                proof {
                    crate::natural::lemma_large_canonical_big(xs@);
                }
                None
            }
        }
    }

    /// The value of `self` as a `u32`, wrapping modulo `2^32`.
    pub fn to_u32_wrapping(&self) -> (r: u32)
        requires
            self.is_canonical(),
        ensures
            r == self@ % (crate::model::base() as int),
    {
        let low = match &self.abs {
            Natural::Small(x) => *x,
            Natural::Large(xs) => {
                proof {
                    lemma_low_limb_mod(xs@);
                }
                xs[0]
            }
        };
        proof {
            lemma_wrap_neg(self@, self.abs@, low);
        }
        if self.sign || low == 0 {
            low
        } else {
            (0xffff_ffffu32 - low) + 1
        }
    }
}

/// The low limb is the value modulo the base.
proof fn lemma_low_limb_mod(s: Seq<u32>)
    requires
        s.len() > 0,
    ensures
        crate::model::limbs_val(s) % crate::model::base() == s[0],
{
    let b = crate::model::base() as int;
    assert(crate::model::limbs_val(s) == s[0] as nat + crate::model::base()
        * crate::model::limbs_val(s.skip(1)));
    vstd::arithmetic::div_mod::lemma_fundamental_div_mod_converse(
        crate::model::limbs_val(s) as int,
        b,
        crate::model::limbs_val(s.skip(1)) as int,
        s[0] as int,
    );
}

/// Wrapping a signed value modulo the base, from the low limb of its
/// magnitude.
proof fn lemma_wrap_neg(x: int, a: nat, low: u32)
    requires
        x == a || x == -(a as int),
        a % crate::model::base() == low,
    ensures
        x >= 0 ==> x % (crate::model::base() as int) == low,
        x < 0 && low == 0 ==> x % (crate::model::base() as int) == 0,
        x < 0 && low != 0 ==> x % (crate::model::base() as int) == crate::model::base() - low,
{
    let b = crate::model::base() as int;
    if x >= 0 {
        if x == a {
        }
    } else {
        let q = a as int / b;
        vstd::arithmetic::div_mod::lemma_fundamental_div_mod(a as int, b);
        if low == 0 {
            vstd::arithmetic::div_mod::lemma_fundamental_div_mod_converse(x, b, -q, 0);
        } else {
            vstd::arithmetic::div_mod::lemma_fundamental_div_mod_converse(x, b, -q - 1, b - low);
        }
    }
}

} // verus!
