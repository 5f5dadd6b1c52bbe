//! A two-way-split multiplication variant: both operands split at half the
//! shorter length, three subproducts, and a recombination by shifts and
//! adds. It meets the same exact-product contract as the schoolbook
//! basecase, so the dispatcher's choice between them is a matter of cost
//! alone.

use vstd::prelude::*;

use vstd::arithmetic::power2::pow2;

use crate::model::bpow;
use crate::model::limbs_val;
use crate::model::lemma_val_split;
use crate::model::lemma_mul_zero;
use crate::model::lemma_mul_comm;
use crate::mul::limbs_mul_greater_to_out_basecase;

verus! {

/// The operand length at which multiplication switches from the schoolbook
/// basecase to the two-way split. A tuning constant: it affects cost, never
/// the result.
pub const MUL_TOOM22_THRESHOLD: usize = 30;

/// The middle product covers both outer products: no borrow can occur when
/// they are taken back out.
proof fn lemma_middle_product_bounds(a: nat, b: nat, c: nat, d: nat)
    ensures
        (a + b) * (c + d) >= a * c + b * d,
        (a + b) * (c + d) - a * c - b * d == a * d + b * c,
{
    assert((a + b) * (c + d) == a * c + a * d + b * c + b * d) by (nonlinear_arith);
}

/// The recombination identity: with both operands split at weight `w`, the
/// product is the low product, plus the cross terms at `w`, plus the high
/// product at `w * w`.
proof fn lemma_toom_combine(a: nat, b: nat, c: nat, d: nat, w: nat)
    ensures
        (a + w * b) * (c + w * d) == a * c + (a * d + b * c) * w + (b * d) * (w * w),
{
    assert((a + w * b) * (c + w * d) == a * c + (a * d + b * c) * w + (b * d) * (w * w))
        by (nonlinear_arith);
}

/// Multiplies by splitting both operands in two at the shorter one's half,
/// forming three schoolbook subproducts and recombining them with shifts and
/// adds. Meets the same exact-product contract as the basecase on its whole
/// precondition range.
#[verifier::loop_isolation(false)]
#[verifier::rlimit(100)]
#[verifier::spinoff_prover]
pub fn limbs_mul_greater_toom_22(xs: &[u32], ys: &[u32]) -> (r: Vec<u32>)
    requires
        xs@.len() >= ys@.len(),
        ys@.len() >= 2,
        xs@.len() + ys@.len() + 6 <= usize::MAX,
        32 * (xs@.len() + ys@.len()) <= u64::MAX,
    ensures
        limbs_val(r@) == limbs_val(xs@) * limbs_val(ys@),
{
    let h = ys.len() / 2;
    let x0 = &xs[0..h];
    let x1 = &xs[h..xs.len()];
    let y0 = &ys[0..h];
    let y1 = &ys[h..ys.len()];
    proof {
        assert(x0@ =~= xs@.take(h as int));
        assert(x1@ =~= xs@.skip(h as int));
        assert(y0@ =~= ys@.take(h as int));
        assert(y1@ =~= ys@.skip(h as int));
        lemma_val_split(xs@, h as int);
        lemma_val_split(ys@, h as int);
    }
    let ghost a = limbs_val(x0@);
    let ghost b = limbs_val(x1@);
    let ghost c = limbs_val(y0@);
    let ghost d = limbs_val(y1@);
    let z0 = mul_basecase_any(x0, y0);
    let z2 = mul_basecase_any(x1, y1);
    let sx = crate::add::limbs_add(x0, x1);
    let sy = crate::add::limbs_add(y0, y1);
    let zm = mul_basecase_any(sx.as_slice(), sy.as_slice());
    proof {
        lemma_middle_product_bounds(a, b, c, d);
    }
    let mut z1 = zm;
    let borrow1 = crate::sub::limbs_sub_in_place_left(&mut z1, z0.as_slice());
    let borrow2 = crate::sub::limbs_sub_in_place_left(&mut z1, z2.as_slice());
    proof {
        assert(limbs_val(z1@) == a * d + b * c);
    }
    // Recombine: z0 + z1 * base^h + z2 * base^(2 h).
    let sh1 = crate::shift::limbs_shl(z1.as_slice(), 32 * (h as u64));
    let sh2 = crate::shift::limbs_shl(z2.as_slice(), 64 * (h as u64));
    let t = crate::add::limbs_add(z0.as_slice(), sh1.as_slice());
    let r = crate::add::limbs_add(t.as_slice(), sh2.as_slice());
    proof {
        let w = bpow(h as nat);
        crate::shift::lemma_bpow_pow2(h as nat);
        crate::shift::lemma_bpow_pow2((2 * h) as nat);
        crate::model::lemma_bpow_adds(h as nat, h as nat);
        assert((32 * (h as u64)) as nat == 32 * (h as nat));
        assert((64 * (h as u64)) as nat == 32 * ((2 * h) as nat));
        assert(pow2((32 * (h as u64)) as nat) == w);
        assert(pow2((64 * (h as u64)) as nat) == w * w);
        lemma_toom_combine(a, b, c, d, w);
    }
    r
}

/// The basecase product of two sequences in either length order; empty
/// operands give an empty product, and nonempty ones a full-length product.
fn mul_basecase_any(xs: &[u32], ys: &[u32]) -> (r: Vec<u32>)
    requires
        xs@.len() + ys@.len() + 2 <= usize::MAX,
    ensures
        limbs_val(r@) == limbs_val(xs@) * limbs_val(ys@),
        xs@.len() >= 1 && ys@.len() >= 1 ==> r@.len() == xs@.len() + ys@.len(),
        r@.len() <= xs@.len() + ys@.len(),
{
    if xs.len() == 0 || ys.len() == 0 {
        let r: Vec<u32> = Vec::new();
        proof {
            lemma_mul_zero(limbs_val(xs@));
            lemma_mul_zero(limbs_val(ys@));
        }
        return r;
    }
    let total = xs.len() + ys.len();
    let mut out: Vec<u32> = Vec::new();
    let mut k: usize = 0;
    while k < total
        invariant
            0 <= k <= total,
            out@.len() == k,
        decreases total - k,
    {
        out.push(0);
        k = k + 1;
    }
    if xs.len() >= ys.len() {
        limbs_mul_greater_to_out_basecase(&mut out, xs, ys);
    } else {
        limbs_mul_greater_to_out_basecase(&mut out, ys, xs);
        proof {
            lemma_mul_comm(limbs_val(xs@), limbs_val(ys@));
        }
    }
    proof {
        assert(out@.take(total as int) =~= out@);
    }
    out
}

} // verus!
