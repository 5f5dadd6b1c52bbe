//! Low squares: the lowest limbs of a square, and squaring modulo a power of
//! two. Dispatched by operand length between a basecase and a
//! divide-and-conquer variant; both meet the same contract, so the choice is
//! a matter of cost alone.

use vstd::prelude::*;

use vstd::arithmetic::power2::pow2;

use crate::model::base;
use crate::model::bpow;
use crate::model::limbs_val;
use crate::model::lemma_val_take_mod;
use crate::model::lemma_bpow_adds;
use crate::model::lemma_bpow_pos;
use crate::model::lemma_mul_comm;
use crate::mul::limbs_mul;
use crate::natural::Natural;

verus! {

/// Operand length at which the low square switches from the basecase to the
/// divide-and-conquer variant. A tuning constant: it affects cost, never the
/// result.
pub const SQRLO_DC_THRESHOLD: usize = 40;

/// The scratch space the low square asks its caller to provide: two limbs
/// per input limb.
pub fn limbs_square_low_scratch_len(len: usize) -> (r: usize)
    requires
        len * 2 <= usize::MAX,
    ensures
        r == 2 * len,
{
    len * 2
}

/// Writes the lowest `xs.len()` limbs of the square of `xs` to the front of
/// `out`: the square reduced modulo the weight just past the operand's
/// length.
pub fn limbs_square_low_basecase(out: &mut Vec<u32>, xs: &[u32])
    requires
        xs@.len() >= 1,
        xs@.len() * 2 <= usize::MAX,
        old(out)@.len() >= xs@.len(),
    ensures
        final(out)@.len() == old(out)@.len(),
        limbs_val(final(out)@.take(xs@.len() as int)) as int == (limbs_val(xs@) * limbs_val(
            xs@,
        )) as int % (bpow(xs@.len()) as int),
        forall|t: int| xs@.len() <= t < old(out)@.len() ==> final(out)@[t] == old(out)@[t],
{
    let n = xs.len();
    let full = limbs_mul(xs, xs);
    proof {
        lemma_val_take_mod(full@, n as int);
    }
    let mut i: usize = 0;
    while i < n
        invariant
            0 <= i <= n,
            n <= full@.len(),
            out@.len() == old(out)@.len(),
            n <= out@.len(),
            forall|t: int| 0 <= t < i ==> out@[t] == full@[t],
            forall|t: int| i <= t < old(out)@.len() ==> out@[t] == old(out)@[t],
        decreases n - i,
    {
        let v = full[i];
        out[i] = v;
        i = i + 1;
    }
    proof {
        assert(out@.take(n as int) =~= full@.take(n as int));
    }
}

/// The divide-and-conquer low square: split the operand with the larger
/// part low, square the low part in full, and fold in the doubled cross
/// product; the high part's square lies entirely above the kept limbs.
#[verifier::loop_isolation(false)]
#[verifier::rlimit(100)]
pub fn limbs_square_low_divide_and_conquer(out: &mut Vec<u32>, xs: &[u32], scratch: &mut Vec<u32>)
    requires
        xs@.len() >= 2,
        xs@.len() * 2 <= usize::MAX,
        old(out)@.len() >= xs@.len(),
    ensures
        final(out)@.len() == old(out)@.len(),
        limbs_val(final(out)@.take(xs@.len() as int)) as int == (limbs_val(xs@) * limbs_val(
            xs@,
        )) as int % (bpow(xs@.len()) as int),
        forall|t: int| xs@.len() <= t < old(out)@.len() ==> final(out)@[t] == old(out)@[t],
{
    let n = xs.len();
    let h = n - n / 2;
    let lo = &xs[0..h];
    let hi = &xs[h..n];
    proof {
        assert(lo@ =~= xs@.take(h as int));
        assert(hi@ =~= xs@.skip(h as int));
        crate::model::lemma_val_split(xs@, h as int);
    }
    // The low part's full square, plus the doubled cross product shifted up
    // by the split.
    let mut acc = limbs_mul(lo, lo);
    let cross = limbs_mul(lo, hi);
    let doubled = crate::mul::limbs_mul_limb(cross.as_slice(), 2);
    let mut shifted: Vec<u32> = Vec::new();
    let mut i: usize = 0;
    while i < h
        invariant
            0 <= i <= h,
            shifted@.len() == i,
            forall|t: int| 0 <= t < i ==> shifted@[t] == 0,
        decreases h - i,
    {
        shifted.push(0);
        i = i + 1;
    }
    let m = doubled.len();
    let mut j: usize = 0;
    while j < m
        invariant
            0 <= j <= m,
            m == doubled@.len(),
            shifted@.len() == h + j,
            forall|t: int| 0 <= t < h ==> shifted@[t] == 0,
            forall|t: int| 0 <= t < j ==> shifted@[h + t] == doubled@[t],
        decreases m - j,
    {
        shifted.push(doubled[j]);
        j = j + 1;
    }
    proof {
        crate::model::lemma_val_split(shifted@, h as int);
        crate::model::lemma_val_of_zeros(shifted@.take(h as int));
        assert(shifted@.skip(h as int) =~= doubled@);
    }
    crate::add::limbs_vec_add_in_place_left(&mut acc, shifted.as_slice());
    // Copy the low limbs of the accumulated value out, zero-padded.
    let alen = acc.len();
    let mut t: usize = 0;
    while t < n
        invariant
            0 <= t <= n,
            alen == acc@.len(),
            out@.len() == old(out)@.len(),
            n <= out@.len(),
            forall|u: int| 0 <= u < t ==> out@[u] == crate::model::limb_at(acc@, u),
            forall|u: int| t <= u < old(out)@.len() ==> out@[u] == old(out)@[u],
        decreases n - t,
    {
        let v = if t < alen {
            acc[t]
        } else {
            0
        };
        out[t] = v;
        t = t + 1;
    }
    proof {
        let a = limbs_val(lo@) as int;
        let b = limbs_val(hi@) as int;
        let w = bpow(h as nat) as int;
        let x = limbs_val(xs@) as int;
        let p = bpow(n as nat) as int;
        lemma_bpow_pos(h as nat);
        lemma_bpow_pos(n as nat);
        assert(limbs_val(acc@) as int == a * a + w * (2 * (a * b))) by {
            lemma_mul_comm(limbs_val(lo@) * limbs_val(hi@), 2);
        }
        // The value written out is the accumulated value modulo the kept
        // weight.
        lemma_out_is_acc_mod(out@.take(n as int), acc@, n as int);
        // The high part's square is a multiple of the modulus.
        assert(x * x == a * a + w * (2 * (a * b)) + (w * w) * (b * b)) by (nonlinear_arith)
            requires
                x == a + w * b,
        ;
        lemma_bpow_adds(h as nat, h as nat);
        lemma_bpow_adds(n as nat, (2 * h - n) as nat);
        let extra = bpow((2 * h - n) as nat) as int;
        assert(w * w == p * extra);
        assert((w * w) * (b * b) == p * (extra * (b * b))) by (nonlinear_arith)
            requires
                w * w == p * extra,
        ;
        vstd::arithmetic::div_mod::lemma_mod_multiples_vanish(
            extra * (b * b),
            a * a + w * (2 * (a * b)),
            p,
        );
    }
}

/// Truncating a limb sequence to `n` limbs, zero-extending when it is
/// shorter, keeps exactly its value modulo the weight at `n`.
proof fn lemma_out_is_acc_mod(outp: Seq<u32>, acc: Seq<u32>, n: int)
    requires
        0 <= n,
        outp.len() == n,
        forall|u: int| 0 <= u < n ==> outp[u] == crate::model::limb_at(acc, u),
    ensures
        limbs_val(outp) as int == limbs_val(acc) as int % (bpow(n as nat) as int),
{
    lemma_bpow_pos(n as nat);
    if acc.len() <= n {
        assert(outp.take(acc.len() as int) =~= acc);
        crate::model::lemma_val_drop_trailing_zeros(outp, acc.len() as int);
        crate::model::lemma_val_bound(acc);
        crate::model::lemma_bpow_increases(acc.len(), n as nat);
        vstd::arithmetic::div_mod::lemma_small_mod(limbs_val(acc), bpow(n as nat));
    } else {
        assert(outp =~= acc.take(n));
        lemma_val_take_mod(acc, n);
    }
}

/// The lowest `xs.len()` limbs of the square of `xs`, dispatched by length:
/// the basecase below the threshold, divide-and-conquer above it. The
/// variants agree limb for limb.
pub fn limbs_square_low(out: &mut Vec<u32>, xs: &[u32])
    requires
        xs@.len() >= 1,
        xs@.len() * 2 <= usize::MAX,
        old(out)@.len() >= xs@.len(),
    ensures
        final(out)@.len() == old(out)@.len(),
        limbs_val(final(out)@.take(xs@.len() as int)) as int == (limbs_val(xs@) * limbs_val(
            xs@,
        )) as int % (bpow(xs@.len()) as int),
        forall|t: int| xs@.len() <= t < old(out)@.len() ==> final(out)@[t] == old(out)@[t],
{
    if xs.len() < SQRLO_DC_THRESHOLD {
        limbs_square_low_basecase(out, xs);
    } else {
        let mut scratch: Vec<u32> = Vec::new();
        limbs_square_low_divide_and_conquer(out, xs, &mut scratch);
    }
}


/// The limbs of the square of the value of `xs`, reduced modulo `2^pow`.
/// Chooses between a plain square and a low square by how much of the square
/// the modulus keeps.
#[verifier::rlimit(60)]
pub fn limbs_mod_power_of_2_square_ref(xs: &[u32], pow: u64) -> (r: Vec<u32>)
    requires
        xs@.len() >= 1,
        xs@.len() * 4 + 4 <= usize::MAX,
        pow / 32 + 2 <= usize::MAX,
    ensures
        limbs_val(r@) as int == (limbs_val(xs@) * limbs_val(xs@)) as int % (pow2(
            pow as nat,
        ) as int),
{
    let len = xs.len();
    let k64 = pow / 32;
    let max_len_64: u64 = if pow % 32 == 0 {
        k64
    } else {
        k64 + 1
    };
    proof {
        vstd::arithmetic::power2::lemma_pow2_pos(pow as nat);
        vstd::arithmetic::div_mod::lemma_fundamental_div_mod(pow as int, 32);
    }
    if max_len_64 == 0 {
        let r: Vec<u32> = Vec::new();
        proof {
            assert(pow == 0);
            vstd::arithmetic::power2::lemma2_to64();
            vstd::arithmetic::div_mod::lemma_mod_multiples_vanish(
                (limbs_val(xs@) * limbs_val(xs@)) as int,
                0,
                1,
            );
            vstd::arithmetic::div_mod::lemma_small_mod(0, 1);
        }
        return r;
    }
    if max_len_64 > (2 * len) as u64 {
        // The modulus keeps the whole square.
        let full = limbs_mul(xs, xs);
        proof {
            crate::model::lemma_val_bound(full@);
            crate::model::lemma_bpow_increases((2 * len) as nat, (max_len_64 - 1) as nat);
            crate::shift::lemma_bpow_pow2((max_len_64 - 1) as nat);
            assert(32 * ((max_len_64 - 1) as nat) <= pow as nat);
            if 32 * ((max_len_64 - 1) as nat) < pow as nat {
                vstd::arithmetic::power2::lemma_pow2_strictly_increases(
                    32 * ((max_len_64 - 1) as nat),
                    pow as nat,
                );
            }
            vstd::arithmetic::div_mod::lemma_small_mod(limbs_val(full@), pow2(pow as nat));
        }
        return full;
    }
    let max_len = max_len_64 as usize;
    let mut padded: Vec<u32> = Vec::new();
    let mut i: usize = 0;
    let copy_len = if len < max_len {
        len
    } else {
        max_len
    };
    while i < copy_len
        invariant
            0 <= i <= copy_len,
            copy_len <= len,
            len == xs@.len(),
            padded@ =~= xs@.take(i as int),
        decreases copy_len - i,
    {
        padded.push(xs[i]);
        i = i + 1;
    }
    while i < max_len
        invariant
            copy_len <= i <= max_len || i <= copy_len,
            padded@.len() == i,
            i >= copy_len,
            padded@.take(copy_len as int) =~= xs@.take(copy_len as int),
            forall|t: int| copy_len <= t < i ==> padded@[t] == 0,
        decreases max_len - i,
    {
        padded.push(0);
        i = i + 1;
    }
    proof {
        assert(padded@.take(copy_len as int) =~= xs@.take(copy_len as int));
        if copy_len < len {
            // A reduced input has at most `max_len` significant limbs.
            lemma_reduced_input_fits(xs@, pow as nat, max_len as int);
        } else {
            assert(padded@.take(copy_len as int) =~= xs@);
            crate::model::lemma_val_drop_trailing_zeros(padded@, copy_len as int);
        }
        assert(padded@.len() == max_len);
    }
    let mut sq: Vec<u32> = Vec::new();
    let mut j: usize = 0;
    while j < max_len
        invariant
            0 <= j <= max_len,
            sq@.len() == j,
        decreases max_len - j,
    {
        sq.push(0);
        j = j + 1;
    }
    limbs_square_low(&mut sq, padded.as_slice());
    proof {
        assert(sq@.take(max_len as int) =~= sq@);
        crate::shift::lemma_bpow_pow2(max_len as nat);
        let p = pow2(pow as nat) as int;
        vstd::arithmetic::power2::lemma_pow2_pos(pow as nat);
        vstd::arithmetic::power2::lemma_pow2_pos((32 * (max_len as nat) - pow as nat) as nat);
        vstd::arithmetic::power2::lemma_pow2_adds(
            pow as nat,
            (32 * (max_len as nat) - pow as nat) as nat,
        );
        let pv = limbs_val(padded@);
        let xv = limbs_val(xs@);
        // Folding the low square's modulus into the requested one.
        vstd::arithmetic::div_mod::lemma_mod_mod(
            (pv * pv) as int,
            p,
            pow2((32 * (max_len as nat) - pow as nat) as nat) as int,
        );
        // The padded input is congruent to the input, so the squares agree
        // modulo the requested power.
        assert(pv as int % p == xv as int % p) by {
            if copy_len < len {
                crate::model::lemma_val_drop_trailing_zeros(padded@, copy_len as int);
                lemma_reduced_input_fits(xs@, pow as nat, max_len as int);
            } else {
                assert(padded@.take(copy_len as int) =~= xs@);
                crate::model::lemma_val_drop_trailing_zeros(padded@, copy_len as int);
            }
        }
        vstd::arithmetic::div_mod::lemma_mul_mod_noop(pv as int, pv as int, p);
        vstd::arithmetic::div_mod::lemma_mul_mod_noop(xv as int, xv as int, p);
    }
    crate::mod_power_of_two::limbs_slice_mod_power_of_two_in_place(&mut sq, pow);
    sq
}

/// A value already reduced modulo `2^pow` fits in the limbs the modulus
/// covers; any limbs above them are zero.
proof fn lemma_reduced_input_fits(s: Seq<u32>, pow: nat, max_len: int)
    requires
        0 <= max_len <= s.len(),
        32 * (max_len as nat) >= pow,
    ensures
        limbs_val(s) as int % (pow2(pow) as int) == limbs_val(s.take(max_len)) as int % (pow2(
            pow,
        ) as int),
{
    crate::model::lemma_val_split(s, max_len);
    crate::shift::lemma_bpow_pow2(max_len as nat);
    vstd::arithmetic::power2::lemma_pow2_pos(pow);
    vstd::arithmetic::power2::lemma_pow2_pos((32 * (max_len as nat) - pow) as nat);
    vstd::arithmetic::power2::lemma_pow2_adds(pow, (32 * (max_len as nat) - pow) as nat);
    let p = pow2(pow) as int;
    let c = pow2((32 * (max_len as nat) - pow) as nat) as int;
    let hi = limbs_val(s.skip(max_len)) as int;
    assert(bpow(max_len as nat) as int * hi == p * (c * hi)) by (nonlinear_arith)
        requires
            bpow(max_len as nat) as int == p * c,
    ;
    vstd::arithmetic::div_mod::lemma_mod_multiples_vanish(
        c * hi,
        limbs_val(s.take(max_len)) as int,
        p,
    );
}

/// The limbs of the square modulo `2^pow`, taking the input by value.
pub fn limbs_mod_power_of_2_square(xs: &mut Vec<u32>, pow: u64) -> (r: Vec<u32>)
    requires
        old(xs)@.len() >= 1,
        old(xs)@.len() * 4 + 4 <= usize::MAX,
        pow / 32 + 2 <= usize::MAX,
    ensures
        limbs_val(r@) as int == (limbs_val(old(xs)@) * limbs_val(old(xs)@)) as int % (pow2(
            pow as nat,
        ) as int),
{
    limbs_mod_power_of_2_square_ref(xs.as_slice(), pow)
}

impl Natural {
    /// `self * self` modulo `2^pow`. The input is assumed already reduced
    /// only for cost; the result is exact for any input.
    pub fn mod_power_of_2_square(&self, pow: u64) -> (r: Natural)
        requires
            self.is_canonical(),
            self.spec_limb_len() * 4 + 4 <= usize::MAX,
            pow / 32 + 2 <= usize::MAX,
        ensures
            r@ as int == (self@ * self@) as int % (pow2(pow as nat) as int),
            r.is_canonical(),
    {
        let limbs = self.to_limbs_asc();
        if limbs.len() == 0 {
            proof {
                crate::model::lemma_mul_zero(self@);
                vstd::arithmetic::power2::lemma_pow2_pos(pow as nat);
                vstd::arithmetic::div_mod::lemma_small_mod(0, pow2(pow as nat));
            }
            return Natural::zero();
        }
        let sq = limbs_mod_power_of_2_square_ref(limbs.as_slice(), pow);
        Natural::from_owned_limbs_asc(sq)
    }
}

} // verus!
