//! Shifts: multiplication and division by powers of two.

use vstd::prelude::*;

use vstd::arithmetic::power2::pow2;
use vstd::arithmetic::power2::lemma_pow2_adds;
use vstd::arithmetic::power2::lemma_pow2_pos;
use vstd::arithmetic::power2::lemma2_to64;

use crate::model::base;
use crate::model::bpow;
use crate::model::limbs_val;
use crate::model::lemma_val_split;
use crate::model::lemma_val_of_zeros;
use crate::model::lemma_val_bound;
use crate::model::lemma_mul_comm;
use crate::natural::Natural;

verus! {

/// The weight of limb `k` is the `32 k`-th power of two.
pub proof fn lemma_bpow_pow2(k: nat)
    ensures
        bpow(k) == pow2(32 * k),
    decreases k,
{
    if k == 0 {
        lemma2_to64();
    } else {
        lemma_bpow_pow2((k - 1) as nat);
        lemma2_to64();
        lemma_pow2_adds(32, 32 * (k - 1) as nat);
        assert(32 * k == 32 + 32 * (k - 1) as nat);
    }
}

/// The power of two `2^s` as a limb, for `s` below the limb width.
pub fn limb_pow2(s: u32) -> (r: u32)
    requires
        s < 32,
    ensures
        r == pow2(s as nat),
        r >= 1,
{
    proof {
        vstd::bits::lemma_u32_pow2_no_overflow(s as nat);
        assert(1 * pow2(s as nat) == pow2(s as nat)) by (nonlinear_arith);
        vstd::bits::lemma_u32_shl_is_mul(1u32, s);
        lemma_pow2_pos(s as nat);
    }
    1u32 << s
}

/// Shifts a limb sequence left by `bits`: `bits / 32` zero limbs below, and
/// each remaining limb moved up by `bits % 32` bits.
pub fn limbs_shl(xs: &[u32], bits: u64) -> (r: Vec<u32>)
    requires
        bits / 32 + xs@.len() + 1 <= usize::MAX,
    ensures
        limbs_val(r@) == limbs_val(xs@) * pow2(bits as nat),
{
    let k = (bits / 32) as usize;
    let s = (bits % 32) as u32;
    let shifted = crate::mul::limbs_mul_limb(xs, limb_pow2(s));
    let mut r: Vec<u32> = Vec::new();
    let mut i: usize = 0;
    while i < k
        invariant
            0 <= i <= k,
            r@.len() == i,
            forall|j: int| 0 <= j < i ==> r@[j] == 0,
        decreases k - i,
    {
        r.push(0);
        i = i + 1;
    }
    let m = shifted.len();
    let mut j: usize = 0;
    while j < m
        invariant
            0 <= j <= m,
            m == shifted@.len(),
            r@.len() == k + j,
            forall|t: int| 0 <= t < k ==> r@[t] == 0,
            forall|t: int| 0 <= t < j ==> r@[k + t] == shifted@[t],
        decreases m - j,
    {
        r.push(shifted[j]);
        j = j + 1;
    }
    proof {
        lemma_val_split(r@, k as int);
        lemma_val_of_zeros(r@.take(k as int));
        assert(r@.skip(k as int) =~= shifted@);
        lemma_bpow_pow2(k as nat);
        let p = pow2(s as nat);
        let x = limbs_val(xs@);
        assert(bpow(k as nat) * (x * p) == x * (pow2(32 * k as nat) * p)) by (nonlinear_arith)
            requires
                bpow(k as nat) == pow2(32 * k as nat),
        ;
        lemma_pow2_adds(32 * k as nat, s as nat);
        assert(32 * k as nat + s as nat == bits as nat) by {
            vstd::arithmetic::div_mod::lemma_fundamental_div_mod(bits as int, 32);
        }
    }
    r
}

impl Natural {
    /// `self` shifted left by `bits`: multiplication by `2^bits`.
    pub fn shl(&self, bits: u64) -> (r: Natural)
        requires
            self.is_canonical(),
            bits / 32 + self.spec_limb_len() + 1 <= usize::MAX,
        ensures
            r@ == self@ * pow2(bits as nat),
            r.is_canonical(),
    {
        let limbs = self.to_limbs_asc();
        let shifted = limbs_shl(limbs.as_slice(), bits);
        Natural::from_owned_limbs_asc(shifted)
    }

    /// `self` shifted right by `bits`: division by `2^bits`, discarding the
    /// shifted-out bits.
    pub fn shr(&self, bits: u64) -> (r: Natural)
        requires
            self.is_canonical(),
        ensures
            r@ == self@ / pow2(bits as nat),
            r.is_canonical(),
    {
        let limbs = self.to_limbs_asc();
        let k64 = bits / 32;
        let s = (bits % 32) as u32;
        proof {
            lemma_pow2_pos(bits as nat);
            vstd::arithmetic::div_mod::lemma_fundamental_div_mod(bits as int, 32);
        }
        if k64 >= limbs.len() as u64 {
            proof {
                lemma_val_bound(limbs@);
                lemma_bpow_pow2(limbs@.len());
                crate::model::lemma_bpow_increases(limbs@.len(), k64 as nat);
                lemma_bpow_pow2(k64 as nat);
                if 32 * (k64 as nat) < (bits as nat) {
                    vstd::arithmetic::power2::lemma_pow2_strictly_increases(
                        32 * k64 as nat,
                        bits as nat,
                    );
                }
                vstd::arithmetic::div_mod::lemma_basic_div(self@ as int, pow2(bits as nat) as int);
            }
            return Natural::zero();
        }
        let k = k64 as usize;
        let n = limbs.len();
        let mut high: Vec<u32> = Vec::new();
        let mut i: usize = k;
        while i < n
            invariant
                k <= i <= n,
                n == limbs@.len(),
                high@ =~= limbs@.subrange(k as int, i as int),
            decreases n - i,
        {
            high.push(limbs[i]);
            i = i + 1;
        }
        proof {
            assert(high@ =~= limbs@.skip(k as int));
            lemma_val_split(limbs@, k as int);
            lemma_val_bound(limbs@.take(k as int));
            crate::model::lemma_bpow_pos(k as nat);
            lemma_mul_comm(bpow(k as nat), limbs_val(high@));
            crate::div::lemma_div_mod_round_trip(
                limbs_val(limbs@),
                bpow(k as nat),
                limbs_val(high@),
                limbs_val(limbs@.take(k as int)),
            );
        }
        let d = limb_pow2(s);
        let (q, rem) = crate::div::limbs_div_limb_mod(high.as_slice(), d);
        proof {
            let hv = limbs_val(high@);
            crate::div::lemma_div_mod_round_trip(hv, pow2(s as nat), limbs_val(q@), rem as nat);
            lemma_bpow_pow2(k as nat);
            lemma_pow2_pos(s as nat);
            lemma_pow2_pos(32 * k as nat);
            vstd::arithmetic::div_mod::lemma_div_denominator(
                self@ as int,
                pow2(32 * k as nat) as int,
                pow2(s as nat) as int,
            );
            lemma_pow2_adds(32 * k as nat, s as nat);
        }
        Natural::from_owned_limbs_asc(q)
    }
}


/// Floor division of a negated value: the quotient of `-a` by a positive
/// power rounds away from zero on any remainder.
pub(crate) proof fn lemma_neg_div(a: nat, p: nat)
    requires
        p > 0,
    ensures
        (-(a as int)) / (p as int) == if a % p == 0 {
            -((a / p) as int)
        } else {
            -((a / p) as int) - 1
        },
{
    let q = (a / p) as int;
    let r = (a % p) as int;
    vstd::arithmetic::div_mod::lemma_fundamental_div_mod(a as int, p as int);
    if r == 0 {
        assert((-q) * p + 0 == -(a as int)) by (nonlinear_arith)
            requires
                a as int == p * q,
        ;
        vstd::arithmetic::div_mod::lemma_fundamental_div_mod_converse(
            -(a as int),
            p as int,
            -q,
            0,
        );
    } else {
        assert((-q - 1) * p + (p - r) == -(a as int)) by (nonlinear_arith)
            requires
                a as int == p * q + r,
        ;
        vstd::arithmetic::div_mod::lemma_fundamental_div_mod_converse(
            -(a as int),
            p as int,
            -q - 1,
            p - r,
        );
    }
}

impl crate::integer::Integer {
    /// `self` shifted left by `bits`: multiplication by `2^bits`.
    pub fn shl(&self, bits: u64) -> (r: crate::integer::Integer)
        requires
            self.is_canonical(),
            bits / 32 + self.abs.spec_limb_len() + 1 <= usize::MAX,
        ensures
            r@ == self@ * pow2(bits as nat),
            r.is_canonical(),
    {
        let mag = self.abs.shl(bits);
        proof {
            let a = self.abs@ as int;
            let p = pow2(bits as nat) as int;
            assert(-(a * p) == (-a) * p) by (nonlinear_arith);
            lemma_pow2_pos(bits as nat);
            if a > 0 {
                assert(a * p >= 1 * p) by (nonlinear_arith)
                    requires
                        a >= 1 && p > 0,
                ;
            }
            if a == 0 {
                assert(a * p == 0) by (nonlinear_arith)
                    requires
                        a == 0,
                ;
            }
        }
        crate::integer::Integer::from_sign_and_abs(self.sign, mag)
    }

    /// `self` shifted right by `bits`: arithmetic shift, flooring division by
    /// `2^bits`.
    pub fn shr(&self, bits: u64) -> (r: crate::integer::Integer)
        requires
            self.is_canonical(),
        ensures
            r@ == self@ / (pow2(bits as nat) as int),
            r.is_canonical(),
    {
        proof {
            lemma_pow2_pos(bits as nat);
        }
        if self.sign {
            let mag = self.abs.shr(bits);
            crate::integer::Integer::from_sign_and_abs(true, mag)
        } else {
            let q = self.abs.shr(bits);
            proof {
                lemma_neg_div(self.abs@, pow2(bits as nat));
            }
            let exact = self.abs.divisible_by_power_of_2(bits);
            let mag = if exact {
                q
            } else {
                q.add(&crate::natural::Natural::one())
            };
            crate::integer::Integer::from_sign_and_abs(false, mag)
        }
    }
}


impl crate::integer::Integer {
    /// `self` shifted right by a signed amount: a negative amount shifts
    /// left.
    pub fn shr_i32(&self, bits: i32) -> (r: crate::integer::Integer)
        requires
            self.is_canonical(),
            self.abs.spec_limb_len() + 0x0400_0002 <= usize::MAX,
        ensures
            bits >= 0 ==> r@ == self@ / (pow2(bits as nat) as int),
            bits < 0 ==> r@ == self@ * pow2((-bits) as nat),
            r.is_canonical(),
    {
        if bits >= 0 {
            self.shr(bits as u64)
        } else {
            let mag: u64 = if bits == i32::MIN {
                0x8000_0000u64
            } else {
                (-bits) as u64
            };
            self.shl(mag)
        }
    }
}

} // verus!
