//! Modular equality: congruence modulo a limb, a multi-limb modulus, or a
//! power of two, for magnitudes and for signed values.

use vstd::prelude::*;

use vstd::arithmetic::power2::pow2;

use crate::model::limbs_val;
use crate::natural::Natural;
use crate::integer::Integer;

verus! {

/// A negative value is divisible exactly when its magnitude is.
pub proof fn lemma_mod_neg_zero(t: nat, m: int)
    requires
        m > 0,
    ensures
        ((-(t as int)) % m == 0) <==> (t as int % m == 0),
{
    let q = t as int / m;
    let r = t as int % m;
    vstd::arithmetic::div_mod::lemma_fundamental_div_mod(t as int, m);
    if r == 0 {
        assert((-q) * m + 0 == -(t as int)) by (nonlinear_arith)
            requires
                t as int == m * q + 0,
        ;
        vstd::arithmetic::div_mod::lemma_fundamental_div_mod_converse(-(t as int), m, -q, 0);
    } else {
        if (-(t as int)) % m == 0 {
            let q2 = (-(t as int)) / m;
            vstd::arithmetic::div_mod::lemma_fundamental_div_mod(-(t as int), m);
            assert((-q2) * m + 0 == t as int) by (nonlinear_arith)
                requires
                    -(t as int) == m * q2 + 0,
            ;
            vstd::arithmetic::div_mod::lemma_fundamental_div_mod_converse(t as int, m, -q2, 0);
        }
    }
}

/// Two values are congruent exactly when their euclidean remainders agree.
pub proof fn lemma_congruence(x: int, y: int, m: int)
    requires
        m > 0,
    ensures
        (x % m == y % m) <==> ((x - y) % m == 0),
{
    vstd::arithmetic::div_mod::lemma_fundamental_div_mod(x, m);
    vstd::arithmetic::div_mod::lemma_fundamental_div_mod(y, m);
    let qx = x / m;
    let qy = y / m;
    if x % m == y % m {
        assert((qx - qy) * m + 0 == x - y) by (nonlinear_arith)
            requires
                x == m * qx + x % m && y == m * qy + y % m && x % m == y % m,
        ;
        vstd::arithmetic::div_mod::lemma_fundamental_div_mod_converse(x - y, m, qx - qy, 0);
    }
    if (x - y) % m == 0 {
        let qd = (x - y) / m;
        vstd::arithmetic::div_mod::lemma_fundamental_div_mod(x - y, m);
        assert((qd + qy) * m + y % m == x) by (nonlinear_arith)
            requires
                x - y == m * qd && y == m * qy + y % m,
        ;
        vstd::arithmetic::div_mod::lemma_fundamental_div_mod_converse(x, m, qd + qy, y % m);
    }
}

/// Whether the value of `xs` is congruent to the negative of `y` modulo
/// `2^pow`: whether `2^pow` divides `X + y`. The congruence must be
/// witnessed inside the limbs of `xs`: a `pow` whose limb index reaches past
/// them is rejected outright.
pub fn limbs_eq_mod_power_of_two_neg_limb(xs: &[u32], y: u32, pow: u64) -> (r: bool)
    ensures
        r <==> pow / 32 < xs@.len() && (limbs_val(xs@) + y) as int % (pow2(pow as nat) as int)
            == 0,
{
    if pow / 32 >= xs.len() as u64 {
        return false;
    }
    let mut ys: Vec<u32> = Vec::new();
    ys.push(y);
    proof {
        crate::logic::lemma_val_singleton(y);
    }
    let mut sum = crate::add::limbs_add(xs, ys.as_slice());
    crate::mod_power_of_two::limbs_slice_mod_power_of_two_in_place(&mut sum, pow);
    crate::slices::slice_test_zero(sum.as_slice())
}

/// Whether the value of `xs` is congruent to the negative of the value of
/// `ys` modulo `2^pow`: whether `2^pow` divides `X + Y`.
pub fn limbs_eq_mod_power_of_two_neg_pos(xs: &[u32], ys: &[u32], pow: u64) -> (r: bool)
    ensures
        r <==> (limbs_val(xs@) + limbs_val(ys@)) as int % (pow2(pow as nat) as int) == 0,
{
    let mut sum = crate::add::limbs_add(xs, ys);
    crate::mod_power_of_two::limbs_slice_mod_power_of_two_in_place(&mut sum, pow);
    crate::slices::slice_test_zero(sum.as_slice())
}

/// The value of a limb sequence modulo a single limb.
pub fn limbs_mod_limb(xs: &[u32], d: u32) -> (r: u32)
    requires
        d >= 1,
    ensures
        r as int == limbs_val(xs@) as int % (d as int),
{
    let (q, rem) = crate::div::limbs_div_limb_mod(xs, d);
    proof {
        crate::div::lemma_div_mod_round_trip(limbs_val(xs@), d as nat, limbs_val(q@), rem as nat);
    }
    rem
}

/// Whether the value of `xs` is congruent to `y` modulo the limb `m`.
pub fn limbs_eq_limb_mod_limb(xs: &[u32], y: u32, m: u32) -> (r: bool)
    requires
        m >= 1,
    ensures
        r <==> (limbs_val(xs@) as int % (m as int)) == (y as int % (m as int)),
{
    let rx = limbs_mod_limb(xs, m);
    let ry = y % m;
    rx == ry
}

/// Whether the values of `xs` and `ys` are congruent modulo the limb `m`.
pub fn limbs_eq_mod_limb_ref_ref(xs: &[u32], ys: &[u32], m: u32) -> (r: bool)
    requires
        m >= 1,
    ensures
        r <==> (limbs_val(xs@) as int % (m as int)) == (limbs_val(ys@) as int % (m as int)),
{
    let rx = limbs_mod_limb(xs, m);
    let ry = limbs_mod_limb(ys, m);
    rx == ry
}

/// Whether the value of `xs` is congruent to `y` modulo the value of `ms`.
pub fn limbs_eq_limb_mod_ref_ref(xs: &[u32], y: u32, ms: &[u32]) -> (r: bool)
    requires
        limbs_val(ms@) > 0,
    ensures
        r <==> (limbs_val(xs@) as int % (limbs_val(ms@) as int)) == (y as int % (limbs_val(
            ms@,
        ) as int)),
{
    let x = Natural::from_limbs_asc(xs);
    let yn = Natural::Small(y);
    let m = Natural::from_limbs_asc(ms);
    let (qx, rx) = x.div_mod(&m);
    let (qy, ry) = yn.div_mod(&m);
    proof {
        crate::div::lemma_div_mod_round_trip(x@, m@, qx@, rx@);
        crate::div::lemma_div_mod_round_trip(yn@, m@, qy@, ry@);
    }
    let r = rx.eq_limbwise(&ry);
    proof {
        crate::natural::lemma_canonical_eq(rx, ry);
    }
    r
}

/// Whether the values of `xs` and `ys` are congruent modulo the value of
/// `ms`.
pub fn limbs_eq_mod_ref_ref_ref(xs: &[u32], ys: &[u32], ms: &[u32]) -> (r: bool)
    requires
        limbs_val(ms@) > 0,
    ensures
        r <==> (limbs_val(xs@) as int % (limbs_val(ms@) as int)) == (limbs_val(ys@) as int % (
        limbs_val(ms@) as int)),
{
    let x = Natural::from_limbs_asc(xs);
    let y = Natural::from_limbs_asc(ys);
    let m = Natural::from_limbs_asc(ms);
    let (qx, rx) = x.div_mod(&m);
    let (qy, ry) = y.div_mod(&m);
    proof {
        crate::div::lemma_div_mod_round_trip(x@, m@, qx@, rx@);
        crate::div::lemma_div_mod_round_trip(y@, m@, qy@, ry@);
    }
    let r = rx.eq_limbwise(&ry);
    proof {
        crate::natural::lemma_canonical_eq(rx, ry);
    }
    r
}

impl Natural {
    /// Whether `self` and `other` are congruent modulo `m`.
    pub fn eq_mod(&self, other: &Natural, m: &Natural) -> (r: bool)
        requires
            self.is_canonical(),
            other.is_canonical(),
            m.is_canonical(),
            m@ > 0,
        ensures
            r <==> (self@ as int % (m@ as int)) == (other@ as int % (m@ as int)),
    {
        let (qx, rx) = self.div_mod(m);
        let (qy, ry) = other.div_mod(m);
        proof {
            crate::div::lemma_div_mod_round_trip(self@, m@, qx@, rx@);
            crate::div::lemma_div_mod_round_trip(other@, m@, qy@, ry@);
        }
        let r = rx.eq_limbwise(&ry);
        proof {
            crate::natural::lemma_canonical_eq(rx, ry);
        }
        r
    }
}

impl Integer {
    /// Whether `self` and `other` are congruent modulo `m`: whether `m`
    /// divides their difference.
    pub fn eq_mod(&self, other: &Integer, m: &Natural) -> (r: bool)
        requires
            self.is_canonical(),
            other.is_canonical(),
            m.is_canonical(),
            m@ > 0,
        ensures
            r <==> (self@ - other@) % (m@ as int) == 0,
    {
        let d = self.sub(other);
        let (q, rem) = d.abs.div_mod(m);
        proof {
            crate::div::lemma_div_mod_round_trip(d.abs@, m@, q@, rem@);
            lemma_mod_neg_zero(d.abs@, m@ as int);
        }
        rem.is_zero()
    }

    /// Whether `self` and `other` are congruent modulo `2^pow`: whether
    /// `2^pow` divides their difference.
    pub fn eq_mod_power_of_two(&self, other: &Integer, pow: u64) -> (r: bool)
        requires
            self.is_canonical(),
            other.is_canonical(),
        ensures
            r <==> (self@ - other@) % (pow2(pow as nat) as int) == 0,
    {
        let d = self.sub(other);
        proof {
            vstd::arithmetic::power2::lemma_pow2_pos(pow as nat);
            lemma_mod_neg_zero(d.abs@, pow2(pow as nat) as int);
        }
        d.abs.divisible_by_power_of_2(pow)
    }
}

} // verus!
