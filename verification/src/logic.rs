//! Limb-sequence views of the bitwise model: pointwise limb operations
//! realize AND, OR and AND-NOT on the denoted values, and the helper shapes
//! (the predecessor of a value, a rippling increment) that sign-magnitude
//! bitwise logic leans on.

use vstd::prelude::*;

use vstd::arithmetic::power2::pow2;

use crate::bits::and_nat;
use crate::bits::or_nat;
use crate::bits::diff_nat;
use crate::bits::lemma_limb_and;
use crate::bits::lemma_limb_or;
use crate::bits::lemma_limb_diff;
use crate::bits::lemma_and_nat_split;
use crate::bits::lemma_or_nat_split;
use crate::bits::lemma_diff_nat_split;
use crate::model::base;
use crate::model::bpow;
use crate::model::limb_at;
use crate::model::limbs_val;
use crate::model::lemma_val_split;
use crate::model::lemma_val_of_zeros;
use crate::model::lemma_mul_zero;

verus! {

/// The limb base is the 32nd power of two.
pub proof fn lemma_base_pow2()
    ensures
        base() == pow2(32),
{
    vstd::arithmetic::power2::lemma2_to64();
}

/// A sequence whose limbs are the pointwise AND-NOT of two (zero-extended)
/// sequences denotes the AND-NOT of their values, provided it is long enough
/// to cover the first operand.
pub proof fn lemma_limbs_diff_seq(a: Seq<u32>, b: Seq<u32>, c: Seq<u32>)
    requires
        c.len() >= a.len(),
        forall|i: int| 0 <= i < c.len() ==> c[i] == limb_at(a, i) & !limb_at(b, i),
    ensures
        limbs_val(c) == diff_nat(limbs_val(a), limbs_val(b)),
    decreases c.len(),
{
    lemma_base_pow2();
    if c.len() == 0 {
        assert(a.len() == 0);
    } else {
        let a1 = if a.len() > 0 {
            a.skip(1)
        } else {
            a
        };
        let b1 = if b.len() > 0 {
            b.skip(1)
        } else {
            b
        };
        assert forall|i: int| 0 <= i < c.skip(1).len() implies c.skip(1)[i] == limb_at(a1, i) & !limb_at(
            b1,
            i,
        ) by {
            assert(c.skip(1)[i] == c[i + 1]);
            assert(limb_at(a1, i) == limb_at(a, i + 1));
            assert(limb_at(b1, i) == limb_at(b, i + 1));
        }
        lemma_limbs_diff_seq(a1, b1, c.skip(1));
        let a0 = limb_at(a, 0);
        let b0 = limb_at(b, 0);
        lemma_limb_diff(a0, b0);
        assert(limbs_val(a) == a0 as nat + base() * limbs_val(a1)) by {
            if a.len() == 0 {
                lemma_mul_zero(base());
            }
        }
        assert(limbs_val(b) == b0 as nat + base() * limbs_val(b1)) by {
            if b.len() == 0 {
                lemma_mul_zero(base());
            }
        }
        lemma_diff_nat_split(32, a0 as nat, limbs_val(a1), b0 as nat, limbs_val(b1));
        assert(c[0] == a0 & !b0);
    }
}

/// A sequence whose limbs are the pointwise AND of two (zero-extended)
/// sequences denotes the AND of their values, provided it is long enough to
/// cover the shorter operand.
pub proof fn lemma_limbs_and_seq(a: Seq<u32>, b: Seq<u32>, c: Seq<u32>)
    requires
        c.len() >= a.len() || c.len() >= b.len(),
        forall|i: int| 0 <= i < c.len() ==> c[i] == limb_at(a, i) & limb_at(b, i),
    ensures
        limbs_val(c) == and_nat(limbs_val(a), limbs_val(b)),
    decreases c.len(),
{
    lemma_base_pow2();
    if c.len() == 0 {
        assert(a.len() == 0 || b.len() == 0);
        crate::bits::lemma_and_nat_le(limbs_val(a), limbs_val(b));
    } else {
        let a1 = if a.len() > 0 {
            a.skip(1)
        } else {
            a
        };
        let b1 = if b.len() > 0 {
            b.skip(1)
        } else {
            b
        };
        assert forall|i: int| 0 <= i < c.skip(1).len() implies c.skip(1)[i] == limb_at(a1, i) & limb_at(
            b1,
            i,
        ) by {
            assert(c.skip(1)[i] == c[i + 1]);
            assert(limb_at(a1, i) == limb_at(a, i + 1));
            assert(limb_at(b1, i) == limb_at(b, i + 1));
        }
        lemma_limbs_and_seq(a1, b1, c.skip(1));
        let a0 = limb_at(a, 0);
        let b0 = limb_at(b, 0);
        lemma_limb_and(a0, b0);
        assert(limbs_val(a) == a0 as nat + base() * limbs_val(a1)) by {
            if a.len() == 0 {
                lemma_mul_zero(base());
            }
        }
        assert(limbs_val(b) == b0 as nat + base() * limbs_val(b1)) by {
            if b.len() == 0 {
                lemma_mul_zero(base());
            }
        }
        lemma_and_nat_split(32, a0 as nat, limbs_val(a1), b0 as nat, limbs_val(b1));
        assert(c[0] == a0 & b0);
    }
}

/// A sequence whose limbs are the pointwise OR of two (zero-extended)
/// sequences denotes the OR of their values, provided it covers both.
pub proof fn lemma_limbs_or_seq(a: Seq<u32>, b: Seq<u32>, c: Seq<u32>)
    requires
        c.len() >= a.len(),
        c.len() >= b.len(),
        forall|i: int| 0 <= i < c.len() ==> c[i] == limb_at(a, i) | limb_at(b, i),
    ensures
        limbs_val(c) == or_nat(limbs_val(a), limbs_val(b)),
    decreases c.len(),
{
    lemma_base_pow2();
    if c.len() == 0 {
    } else {
        let a1 = if a.len() > 0 {
            a.skip(1)
        } else {
            a
        };
        let b1 = if b.len() > 0 {
            b.skip(1)
        } else {
            b
        };
        assert forall|i: int| 0 <= i < c.skip(1).len() implies c.skip(1)[i] == limb_at(a1, i) | limb_at(
            b1,
            i,
        ) by {
            assert(c.skip(1)[i] == c[i + 1]);
            assert(limb_at(a1, i) == limb_at(a, i + 1));
            assert(limb_at(b1, i) == limb_at(b, i + 1));
        }
        lemma_limbs_or_seq(a1, b1, c.skip(1));
        let a0 = limb_at(a, 0);
        let b0 = limb_at(b, 0);
        lemma_limb_or(a0, b0);
        assert(limbs_val(a) == a0 as nat + base() * limbs_val(a1)) by {
            if a.len() == 0 {
                lemma_mul_zero(base());
            }
        }
        assert(limbs_val(b) == b0 as nat + base() * limbs_val(b1)) by {
            if b.len() == 0 {
                lemma_mul_zero(base());
            }
        }
        lemma_or_nat_split(32, a0 as nat, limbs_val(a1), b0 as nat, limbs_val(b1));
        assert(c[0] == a0 | b0);
    }
}

/// An all-ones sequence denotes one less than the weight past its end.
pub proof fn lemma_val_all_max(s: Seq<u32>)
    requires
        forall|i: int| 0 <= i < s.len() ==> s[i] == 0xffff_ffffu32,
    ensures
        limbs_val(s) + 1 == bpow(s.len()),
    decreases s.len(),
{
    if s.len() > 0 {
        lemma_val_all_max(s.skip(1));
        assert(base() * (limbs_val(s.skip(1)) + 1) == base() * limbs_val(s.skip(1)) + base() * 1)
            by (nonlinear_arith);
    }
}

/// The limbs of the predecessor: with `k` zero limbs below a first nonzero
/// limb, subtracting one turns the low zeros into all-ones and decrements the
/// boundary limb.
pub proof fn lemma_pred_limbs(ys: Seq<u32>, k: int, ym: Seq<u32>)
    requires
        0 <= k < ys.len(),
        forall|j: int| 0 <= j < k ==> ys[j] == 0,
        ys[k] != 0,
        ym.len() == ys.len(),
        forall|j: int| 0 <= j < k ==> ym[j] == 0xffff_ffffu32,
        ym[k] == (ys[k] - 1) as u32,
        forall|j: int| k < j < ys.len() ==> ym[j] == ys[j],
    ensures
        limbs_val(ym) + 1 == limbs_val(ys),
{
    lemma_val_split(ys, k + 1);
    lemma_val_split(ym, k + 1);
    assert(ys.skip(k + 1) =~= ym.skip(k + 1));
    lemma_val_split(ys.take(k + 1), k);
    lemma_val_split(ym.take(k + 1), k);
    lemma_val_of_zeros(ys.take(k + 1).take(k));
    lemma_val_all_max(ym.take(k + 1).take(k));
    assert(ys.take(k + 1).skip(k) =~= seq![ys[k]]);
    assert(ym.take(k + 1).skip(k) =~= seq![ym[k]]);
    lemma_val_singleton(ys[k]);
    lemma_val_singleton(ym[k]);
    let w = bpow(k as nat);
    assert(limbs_val(ys.take(k + 1)) == 0 + w * (ys[k] as nat));
    assert(limbs_val(ym.take(k + 1)) == (w - 1) + w * (ym[k] as nat));
    assert(w * (ys[k] as nat) == w * (ym[k] as nat) + w * 1) by (nonlinear_arith)
        requires
            ys[k] as nat == ym[k] as nat + 1,
    ;
}

/// A one-limb sequence denotes its limb.
pub proof fn lemma_val_singleton(x: u32)
    ensures
        limbs_val(seq![x]) == x,
{
    assert(seq![x].skip(1) =~= Seq::<u32>::empty());
    assert(limbs_val(seq![x]) == x as nat + base() * limbs_val(seq![x].skip(1)));
}

/// Adding one to a value whose low limbs are all ones: the ripple clears them
/// and increments the first limb with room.
pub proof fn lemma_plus_one_ripple(c: Seq<u32>, r: Seq<u32>, p: int)
    requires
        0 <= p < c.len(),
        r.len() == c.len(),
        forall|j: int| 0 <= j < p ==> c[j] == 0xffff_ffffu32,
        c[p] < 0xffff_ffffu32,
        forall|j: int| 0 <= j < p ==> r[j] == 0,
        r[p] == c[p] + 1,
        forall|j: int| p < j < c.len() ==> r[j] == c[j],
    ensures
        limbs_val(r) == limbs_val(c) + 1,
{
    lemma_val_split(c, p + 1);
    lemma_val_split(r, p + 1);
    assert(c.skip(p + 1) =~= r.skip(p + 1));
    lemma_val_split(c.take(p + 1), p);
    lemma_val_split(r.take(p + 1), p);
    lemma_val_all_max(c.take(p + 1).take(p));
    lemma_val_of_zeros(r.take(p + 1).take(p));
    assert(c.take(p + 1).skip(p) =~= seq![c[p]]);
    assert(r.take(p + 1).skip(p) =~= seq![r[p]]);
    lemma_val_singleton(c[p]);
    lemma_val_singleton(r[p]);
    let w = bpow(p as nat);
    assert(w * (r[p] as nat) == w * (c[p] as nat) + w * 1) by (nonlinear_arith)
        requires
            r[p] as nat == c[p] as nat + 1,
    ;
}

} // verus!
