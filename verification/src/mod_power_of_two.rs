//! Reduction modulo a power of two: masking away the high bits.

use vstd::prelude::*;

use vstd::arithmetic::power2::pow2;
use vstd::arithmetic::power2::lemma_pow2_pos;
use vstd::arithmetic::power2::lemma_pow2_adds;

use crate::model::bpow;
use crate::model::base;
use crate::model::limbs_val;
use crate::model::lemma_val_bound;
use crate::model::lemma_val_take_mod;
use crate::model::lemma_val_split;
use crate::model::lemma_val_drop_trailing_zeros;
use crate::model::lemma_bpow_increases;
use crate::natural::Natural;
use crate::shift::lemma_bpow_pow2;
use crate::shift::limb_pow2;

verus! {

/// Reduces a limb sequence modulo `2^pow` in place: the boundary limb is
/// masked and everything above it is cleared; the length does not change.
#[verifier::loop_isolation(false)]
#[verifier::rlimit(60)]
pub fn limbs_slice_mod_power_of_two_in_place(xs: &mut Vec<u32>, pow: u64)
    ensures
        final(xs)@.len() == old(xs)@.len(),
        limbs_val(final(xs)@) as int == limbs_val(old(xs)@) as int % (pow2(pow as nat) as int),
{
    let n = xs.len();
    let k64 = pow / 32;
    let s = (pow % 32) as u32;
    proof {
        lemma_pow2_pos(pow as nat);
        vstd::arithmetic::div_mod::lemma_fundamental_div_mod(pow as int, 32);
    }
    if k64 >= n as u64 {
        proof {
            lemma_val_bound(xs@);
            lemma_bpow_pow2(n as nat);
            lemma_bpow_increases(n as nat, k64 as nat);
            lemma_bpow_pow2(k64 as nat);
            if 32 * (k64 as nat) < pow as nat {
                vstd::arithmetic::power2::lemma_pow2_strictly_increases(
                    32 * (k64 as nat),
                    pow as nat,
                );
            }
            vstd::arithmetic::div_mod::lemma_small_mod(limbs_val(xs@), pow2(pow as nat));
        }
        return ;
    }
    let k = k64 as usize;
    let ghost orig = xs@;
    let mask = limb_pow2(s) - 1;
    let masked = xs[k] & mask;
    xs[k] = masked;
    let mut i: usize = k + 1;
    while i < n
        invariant
            k + 1 <= i <= n,
            xs@.len() == n,
            forall|t: int| 0 <= t < k ==> xs@[t] == orig[t],
            xs@[k as int] == masked,
            forall|t: int| k < t < i ==> xs@[t] == 0,
            forall|t: int| i <= t < n ==> xs@[t] == orig[t],
        decreases n - i,
    {
        xs[i] = 0;
        i = i + 1;
    }
    proof {
        // The final value: the low `k` limbs, then the masked boundary limb.
        lemma_val_drop_trailing_zeros(xs@, k + 1);
        lemma_val_split(xs@.take(k + 1), k as int);
        assert(xs@.take(k + 1).take(k as int) =~= orig.take(k as int));
        assert(xs@.take(k + 1).skip(k as int) =~= seq![masked]);
        crate::logic::lemma_val_singleton(masked);
        // The mathematical value: breakdown of the modulus at the limb border.
        let p = pow2(pow as nat) as int;
        let w = bpow(k as nat) as int;
        let x = limbs_val(orig) as int;
        crate::model::lemma_bpow_pos(k as nat);
        lemma_bpow_pow2(k as nat);
        lemma_pow2_pos(s as nat);
        lemma_pow2_adds(32 * (k as nat), s as nat);
        vstd::arithmetic::div_mod::lemma_breakdown(x, w, pow2(s as nat) as int);
        lemma_val_take_mod(orig, k as int);
        lemma_val_split(orig, k as int);
        lemma_val_bound(orig.take(k as int));
        crate::model::lemma_mul_comm(bpow(k as nat), limbs_val(orig.skip(k as int)));
        crate::div::lemma_div_mod_round_trip(
            limbs_val(orig),
            bpow(k as nat),
            limbs_val(orig.skip(k as int)),
            limbs_val(orig.take(k as int)),
        );
        // The high part reduces limb-wise: only the boundary limb's low bits
        // survive.
        let hi = orig.skip(k as int);
        assert(hi.len() == n - k && n - k >= 1);
        assert(hi[0] == orig[k as int]);
        assert(limbs_val(hi) == hi[0] as nat + base() * limbs_val(hi.skip(1)));
        let m = pow2(s as nat) as int;
        assert(base() as int == m * (pow2((32 - s) as nat) as int)) by {
            crate::logic::lemma_base_pow2();
            lemma_pow2_adds(s as nat, (32 - s) as nat);
            assert(s as nat + (32 - s) as nat == 32);
        }
        assert((hi[0] as nat + base() * limbs_val(hi.skip(1))) as int % m == hi[0] as int % m) by {
            let t = limbs_val(hi.skip(1)) as int;
            let c = pow2((32 - s) as nat) as int;
            assert(base() * t == m * (c * t)) by (nonlinear_arith)
                requires
                    base() as int == m * c,
            ;
            vstd::arithmetic::div_mod::lemma_mod_multiples_vanish(c * t, hi[0] as int, m);
        }
        // The masked limb is the boundary limb modulo `2^s`.
        vstd::bits::lemma_u32_low_bits_mask_is_mod(orig[k as int], s as nat);
        assert(mask == vstd::bits::low_bits_mask(s as nat));
        assert(w * (masked as int) == w * ((x / w) % m)) by (nonlinear_arith)
            requires
                masked as int == (x / w) % m,
        ;
    }
}

impl Natural {
    /// `self` modulo `2^pow`.
    pub fn mod_power_of_2(&self, pow: u64) -> (r: Natural)
        requires
            self.is_canonical(),
        ensures
            r@ as int == self@ as int % (pow2(pow as nat) as int),
            r.is_canonical(),
    {
        let mut limbs = self.to_limbs_asc();
        limbs_slice_mod_power_of_two_in_place(&mut limbs, pow);
        Natural::from_owned_limbs_asc(limbs)
    }

    /// Whether `self` is divisible by `2^pow`.
    pub fn divisible_by_power_of_2(&self, pow: u64) -> (r: bool)
        requires
            self.is_canonical(),
        ensures
            r <==> self@ as int % (pow2(pow as nat) as int) == 0,
    {
        let m = self.mod_power_of_2(pow);
        m.is_zero()
    }
}

} // verus!
