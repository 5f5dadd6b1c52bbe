//! Multiplication: limb-by-limb products and schoolbook multiplication.

use vstd::prelude::*;

use crate::double_limb::split_double;
use crate::model::base;
use crate::model::bpow;
use crate::model::limbs_val;
use crate::model::val_pref;
use crate::model::lemma_val_pref_step;
use crate::model::lemma_val_pref_all;
use crate::model::lemma_val_push;
use crate::model::lemma_val_split;
use crate::model::lemma_bpow_adds;
use crate::model::lemma_mul_zero;
use crate::model::lemma_mul_comm;
use crate::add::lemma_val_update;
use crate::natural::Natural;

verus! {

/// A double-limb step never overflows 64 bits: a limb product plus two limb
/// addends stays below `base * base`.
proof fn lemma_step_fits(a: u32, b: u32, c: u32, d: u32)
    ensures
        a as nat * (b as nat) + c as nat + (d as nat) < base() * base(),
{
    assert(a as nat * (b as nat) + c as nat + (d as nat) < base() * base()) by (nonlinear_arith)
        requires
            a < base() && b < base() && c < base() && d < base(),
    ;
}

/// The length of the product of a limb sequence and a limb: one extra limb
/// exactly when the product outgrows the sequence's weight.
pub open spec fn spec_mul_limb_len(s: Seq<u32>, y: u32) -> nat {
    if limbs_val(s) * y >= bpow(s.len()) {
        s.len() + 1
    } else {
        s.len()
    }
}

/// Multiplies a limb sequence by a single limb. The product's top limb is
/// appended only when it is nonzero, matching the carry out of the loop.
#[verifier::loop_isolation(false)]
pub fn limbs_mul_limb(xs: &[u32], y: u32) -> (r: Vec<u32>)
    ensures
        limbs_val(r@) == limbs_val(xs@) * y,
        r@.len() == spec_mul_limb_len(xs@, y),
        r@.len() > xs@.len() ==> r@[xs@.len() as int] != 0,
{
    let n = xs.len();
    let mut r: Vec<u32> = Vec::new();
    let mut carry: u32 = 0;
    let mut i: usize = 0;
    proof {
        lemma_mul_zero(y as nat);
    }
    while i < n
        invariant
            0 <= i <= n,
            r@.len() == i,
            limbs_val(r@) + (carry as nat) * bpow(i as nat) == val_pref(xs@, i as int) * y,
        decreases n - i,
    {
        proof {
            lemma_step_fits(xs@[i as int], y, carry, 0);
        }
        let t: u64 = xs[i] as u64 * y as u64 + carry as u64;
        let (lo, hi) = split_double(t);
        proof {
            lemma_val_pref_step(xs@, i as int);
            lemma_val_push(r@, lo);
            let w = bpow(i as nat);
            assert(bpow((i + 1) as nat) == base() * w);
            assert((val_pref(xs@, i as int) + xs@[i as int] as nat * w) * y == val_pref(
                xs@,
                i as int,
            ) * y + xs@[i as int] as nat * y * w) by (nonlinear_arith);
            assert(lo as nat * w + (hi as nat) * (base() * w) == xs@[i as int] as nat * y * w
                + (carry as nat) * w) by (nonlinear_arith)
                requires
                    lo as nat + base() * (hi as nat) == xs@[i as int] as nat * y as nat
                        + carry as nat,
            ;
        }
        r.push(lo);
        carry = hi;
        i = i + 1;
    }
    proof {
        lemma_val_pref_all(xs@, n as int);
    }
    if carry != 0 {
        proof {
            lemma_val_push(r@, carry);
            crate::model::lemma_val_bound(r@);
            crate::model::lemma_mul_le(bpow(n as nat), 1, carry as nat);
            assert(bpow(n as nat) * 1 == bpow(n as nat)) by (nonlinear_arith);
            lemma_mul_comm(carry as nat, bpow(n as nat));
        }
        r.push(carry);
    } else {
        proof {
            lemma_mul_zero(bpow(n as nat));
            crate::model::lemma_val_bound(r@);
        }
    }
    r
}

/// Multiplies a limb sequence in place by a single limb, returning the carry
/// out of the top limb.
pub fn limbs_slice_mul_limb_in_place(xs: &mut Vec<u32>, y: u32) -> (carry: u32)
    ensures
        final(xs)@.len() == old(xs)@.len(),
        limbs_val(final(xs)@) + (carry as nat) * bpow(old(xs)@.len()) == limbs_val(old(xs)@) * y,
{
    let n = xs.len();
    let r = limbs_mul_limb(xs.as_slice(), y);
    proof {
        lemma_val_split(r@, n as int);
    }
    let mut i: usize = 0;
    while i < n
        invariant
            0 <= i <= n,
            xs@.len() == n,
            n <= r@.len(),
            forall|j: int| 0 <= j < i ==> xs@[j] == r@[j],
        decreases n - i,
    {
        let v = r[i];
        xs[i] = v;
        i = i + 1;
    }
    proof {
        assert(xs@ =~= r@.take(n as int));
    }
    let carry = if r.len() > n {
        r[n]
    } else {
        0
    };
    proof {
        let tail = r@.skip(n as int);
        if r@.len() > n {
            assert(tail.len() == 1);
            assert(limbs_val(tail) == tail[0] as nat + base() * limbs_val(tail.skip(1)));
            assert(tail.skip(1).len() == 0);
        }
        lemma_mul_comm(bpow(n as nat), carry as nat);
        if r@.len() == n {
            lemma_mul_zero(bpow(n as nat));
        }
    }
    carry
}

/// Multiplies a limb sequence in place by a single limb, growing the vector
/// by the carry limb when one remains.
pub fn limbs_vec_mul_limb_in_place(xs: &mut Vec<u32>, y: u32)
    ensures
        limbs_val(final(xs)@) == limbs_val(old(xs)@) * y,
{
    let r = limbs_mul_limb(xs.as_slice(), y);
    *xs = r;
}

/// The accounting for one inner step of schoolbook multiplication: limb `x`
/// of the first factor meets limb `d` of the second, at combined weight
/// `j + i`.
proof fn lemma_mul_row_step(
    out: Seq<u32>,
    j: int,
    i: int,
    x: u32,
    d: u32,
    carry: u32,
    lo: u32,
    hi: u32,
    acc: nat,
    pref: nat,
)
    requires
        0 <= j,
        0 <= i,
        j + i < out.len(),
        lo as nat + base() * (hi as nat) == out[j + i] as nat + x as nat * (d as nat)
            + carry as nat,
        limbs_val(out) + (carry as nat) * bpow((j + i) as nat) == acc + pref * (d as nat) * bpow(
            j as nat,
        ),
    ensures
        limbs_val(out.update(j + i, lo)) + (hi as nat) * bpow((j + i + 1) as nat) == acc + (pref
            + x as nat * bpow(i as nat)) * (d as nat) * bpow(j as nat),
{
    lemma_val_update(out, j + i, lo);
    lemma_bpow_adds(j as nat, i as nat);
    let wj = bpow(j as nat);
    let wi = bpow(i as nat);
    let w = bpow((j + i) as nat);
    assert(bpow((j + i + 1) as nat) == base() * w);
    assert((pref + x as nat * wi) * (d as nat) * wj == pref * (d as nat) * wj + x as nat * (
    d as nat) * (wj * wi)) by (nonlinear_arith);
    assert(lo as nat * w + (hi as nat) * (base() * w) == out[j + i] as nat * w + x as nat * (
    d as nat) * w + (carry as nat) * w) by (nonlinear_arith)
        requires
            lo as nat + base() * (hi as nat) == out[j + i] as nat + x as nat * (d as nat)
                + carry as nat,
    ;
}

/// Schoolbook multiplication: writes the `xs.len() + ys.len()` limbs of the
/// exact product of `xs` and `ys` to the front of `out`. The first factor
/// must be at least as long as the second, which must not be empty.
#[verifier::loop_isolation(false)]
#[verifier::rlimit(60)]
pub fn limbs_mul_greater_to_out_basecase(out: &mut Vec<u32>, xs: &[u32], ys: &[u32])
    requires
        xs@.len() >= ys@.len(),
        ys@.len() >= 1,
        old(out)@.len() >= xs@.len() + ys@.len(),
    ensures
        final(out)@.len() == old(out)@.len(),
        limbs_val(final(out)@.take(xs@.len() + ys@.len() as int)) == limbs_val(xs@) * limbs_val(
            ys@,
        ),
        forall|k: int| xs@.len() + ys@.len() <= k < old(out)@.len() ==> final(out)@[k] == old(
            out,
        )@[k],
{
    let m = xs.len();
    let n = ys.len();
    let total_len = out.len();
    proof {
        assert(m + n <= total_len);
    }
    let mut k: usize = 0;
    while k < m + n
        invariant
            0 <= k <= m + n,
            out@.len() == old(out)@.len(),
            m + n <= out@.len(),
            forall|j: int| 0 <= j < k ==> out@[j] == 0,
            forall|j: int| m + n <= j < out@.len() ==> out@[j] == old(out)@[j],
        decreases m + n - k,
    {
        out[k] = 0;
        k = k + 1;
    }
    let ghost cleared = out@;
    let mut j: usize = 0;
    proof {
        crate::model::lemma_val_of_zeros(cleared.take((m + n) as int));
        lemma_mul_zero(limbs_val(xs@));
        lemma_mul_zero(bpow(0));
    }
    while j < n
        invariant
            0 <= j <= n,
            out@.len() == cleared.len(),
            limbs_val(out@.take((m + n) as int)) == limbs_val(xs@) * val_pref(ys@, j as int),
            forall|k2: int| j + m <= k2 < m + n ==> out@[k2] == 0,
            forall|k2: int| m + n <= k2 < out@.len() ==> out@[k2] == cleared[k2],
        decreases n - j,
    {
        let d = ys[j];
        let ghost acc = limbs_val(xs@) * val_pref(ys@, j as int);
        let mut carry: u32 = 0;
        let mut i: usize = 0;
        proof {
            lemma_mul_zero(d as nat);
            lemma_mul_zero(bpow(j as nat));
            assert(0 * (d as nat) * bpow(j as nat) == 0) by (nonlinear_arith);
        }
        while i < m
            invariant
                0 <= i <= m,
                0 <= j < n,
                out@.len() == cleared.len(),
                limbs_val(out@.take((m + n) as int)) + (carry as nat) * bpow((j + i) as nat) == acc
                    + val_pref(xs@, i as int) * (ys@[j as int] as nat) * bpow(j as nat),
                forall|k2: int| j + m < k2 < m + n ==> out@[k2] == 0,
                out@[(j + m) as int] == 0,
                forall|k2: int| m + n <= k2 < out@.len() ==> out@[k2] == cleared[k2],
            decreases m - i,
        {
            proof {
                lemma_step_fits(xs@[i as int], d, out@[j + i], carry);
            }
            let t: u64 = out[j + i] as u64 + xs[i] as u64 * d as u64 + carry as u64;
            let (lo, hi) = split_double(t);
            proof {
                lemma_val_pref_step(xs@, i as int);
                assert(out@.take((m + n) as int)[j + i] == out@[j + i]);
                lemma_mul_row_step(
                    out@.take((m + n) as int),
                    j as int,
                    i as int,
                    xs@[i as int],
                    d,
                    carry,
                    lo,
                    hi,
                    acc,
                    val_pref(xs@, i as int),
                );
                assert(out@.update(j + i, lo).take((m + n) as int) =~= out@.take(
                    (m + n) as int,
                ).update(j + i, lo));
            }
            out[j + i] = lo;
            carry = hi;
            i = i + 1;
        }
        proof {
            lemma_val_pref_all(xs@, m as int);
            assert(out@.take((m + n) as int)[(j + m) as int] == 0);
            lemma_val_update(out@.take((m + n) as int), (j + m) as int, carry);
            assert(0 * bpow((j + m) as nat) == 0) by (nonlinear_arith);
            lemma_mul_comm(carry as nat, bpow((j + m) as nat));
            assert(out@.update((j + m) as int, carry).take((m + n) as int) =~= out@.take(
                (m + n) as int,
            ).update((j + m) as int, carry));
            lemma_val_pref_step(ys@, j as int);
            assert(limbs_val(xs@) * (val_pref(ys@, j as int) + ys@[j as int] as nat * bpow(
                j as nat,
            )) == limbs_val(xs@) * val_pref(ys@, j as int) + limbs_val(xs@) * (
            ys@[j as int] as nat) * bpow(j as nat)) by (nonlinear_arith);
        }
        let c = carry;
        out[j + m] = c;
        j = j + 1;
    }
    proof {
        lemma_val_pref_all(ys@, n as int);
    }
}


/// A value below the weight at `k` stores nothing at or above limb `k`.
pub proof fn lemma_small_val_high_zero(s: Seq<u32>, k: int)
    requires
        0 <= k <= s.len(),
        limbs_val(s) < bpow(k as nat),
    ensures
        forall|j: int| k <= j < s.len() ==> s[j] == 0,
        limbs_val(s.take(k)) == limbs_val(s),
{
    lemma_val_split(s, k);
    crate::model::lemma_bpow_pos(k as nat);
    if limbs_val(s.skip(k)) > 0 {
        crate::model::lemma_mul_le(bpow(k as nat), 1, limbs_val(s.skip(k)));
        assert(bpow(k as nat) * 1 == bpow(k as nat)) by (nonlinear_arith);
        assert(false);
    }
    crate::model::lemma_val_zero_all_zero(s.skip(k));
    assert forall|j: int| k <= j < s.len() implies s[j] == 0 by {
        assert(s.skip(k)[j - k] == s[j]);
    }
    assert(bpow(k as nat) * 0 == 0) by (nonlinear_arith);
}

/// The exact product of two nonempty limb sequences, `xs.len() + ys.len()`
/// limbs long (the top limb may be zero). Dispatched by the shorter length:
/// schoolbook below the threshold, the two-way split above it; the variants
/// meet the same contract, so the cutoff affects cost alone.
pub fn limbs_mul(xs: &[u32], ys: &[u32]) -> (r: Vec<u32>)
    requires
        xs@.len() >= 1,
        ys@.len() >= 1,
        xs@.len() + ys@.len() <= usize::MAX,
    ensures
        limbs_val(r@) == limbs_val(xs@) * limbs_val(ys@),
        r@.len() == xs@.len() + ys@.len(),
{
    let total = xs.len() + ys.len();
    let mut out: Vec<u32> = Vec::new();
    let mut k: usize = 0;
    while k < total
        invariant
            0 <= k <= total,
            out@.len() == k,
        decreases total - k,
    {
        out.push(0);
        k = k + 1;
    }
    if xs.len() >= ys.len() {
        limbs_mul_greater_to_out_basecase(&mut out, xs, ys);
    } else {
        limbs_mul_greater_to_out_basecase(&mut out, ys, xs);
        proof {
            lemma_mul_comm(limbs_val(xs@), limbs_val(ys@));
        }
    }
    proof {
        assert(out@.take(total as int) =~= out@);
    }
    out
}

/// Multiplication cross-agreement: any two procedures that meet the exact
/// product contract and produce the same number of limbs return identical
/// limbs — the value pins the representation, so algorithm choice can never
/// change the result.
pub proof fn lemma_mul_variants_agree(r1: Seq<u32>, r2: Seq<u32>, x: nat, y: nat)
    requires
        r1.len() == r2.len(),
        limbs_val(r1) == x * y,
        limbs_val(r2) == x * y,
    ensures
        r1 =~= r2,
{
    crate::model::lemma_val_injective(r1, r2);
}

impl Natural {
    /// The product of `self` and `other`.
    pub fn mul(&self, other: &Natural) -> (r: Natural)
        requires
            self.is_canonical(),
            other.is_canonical(),
            self.spec_limb_len() + other.spec_limb_len() <= usize::MAX,
        ensures
            r@ == self@ * other@,
            r.is_canonical(),
    {
        let a = self.to_limbs_asc();
        let b = other.to_limbs_asc();
        if a.len() == 0 || b.len() == 0 {
            proof {
                lemma_mul_zero(self@);
                lemma_mul_zero(other@);
            }
            return Natural::zero();
        }
        let p = limbs_mul(a.as_slice(), b.as_slice());
        Natural::from_owned_limbs_asc(p)
    }
}

} // verus!
