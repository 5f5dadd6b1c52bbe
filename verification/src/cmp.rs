//! Comparison: lexicographic from the most significant limb down, with
//! short-circuit on the first differing limb.

use vstd::prelude::*;

use core::cmp::Ordering;

use crate::model::bpow;
use crate::model::limbs_val;
use crate::model::lemma_val_bound;
use crate::model::lemma_val_split;
use crate::model::lemma_mul_distrib;
use crate::model::lemma_mul_le;
use crate::natural::Natural;

verus! {

/// With equal high limbs above index `k` and a smaller limb at `k`, the whole
/// value is smaller, whatever the low limbs hold.
proof fn lemma_val_lt_from_top(a: Seq<u32>, b: Seq<u32>, k: int)
    requires
        a.len() == b.len(),
        0 <= k < a.len(),
        a[k] < b[k],
        forall|j: int| k < j < a.len() ==> a[j] == b[j],
    ensures
        limbs_val(a) < limbs_val(b),
{
    lemma_val_split(a, k);
    lemma_val_split(b, k);
    let w = bpow(k as nat);
    let ta = a.skip(k);
    let tb = b.skip(k);
    assert(ta.skip(1) =~= tb.skip(1));
    assert(ta[0] == a[k] && tb[0] == b[k]);
    assert(limbs_val(ta) == a[k] as nat + crate::model::base() * limbs_val(ta.skip(1)));
    assert(limbs_val(tb) == b[k] as nat + crate::model::base() * limbs_val(tb.skip(1)));
    assert(limbs_val(ta) + 1 <= limbs_val(tb));
    lemma_val_bound(a.take(k));
    lemma_mul_le(w, (limbs_val(ta) + 1) as nat, limbs_val(tb));
    lemma_mul_distrib(w, limbs_val(ta), 1);
    assert(w * 1 == w) by (nonlinear_arith);
}

/// Compares two equal-length limb sequences as values.
#[verifier::loop_isolation(false)]
pub fn limbs_cmp_same_length(xs: &[u32], ys: &[u32]) -> (r: Ordering)
    requires
        xs@.len() == ys@.len(),
    ensures
        r == Ordering::Less <==> limbs_val(xs@) < limbs_val(ys@),
        r == Ordering::Greater <==> limbs_val(xs@) > limbs_val(ys@),
        r == Ordering::Equal <==> limbs_val(xs@) == limbs_val(ys@),
{
    let n = xs.len();
    let mut i: usize = n;
    while i > 0
        invariant
            0 <= i <= n,
            forall|j: int| i <= j < n ==> xs@[j] == ys@[j],
        decreases i,
    {
        if xs[i - 1] < ys[i - 1] {
            proof {
                lemma_val_lt_from_top(xs@, ys@, i - 1);
            }
            return Ordering::Less;
        }
        if xs[i - 1] > ys[i - 1] {
            proof {
                lemma_val_lt_from_top(ys@, xs@, i - 1);
            }
            return Ordering::Greater;
        }
        i = i - 1;
    }
    proof {
        assert(xs@ =~= ys@);
    }
    Ordering::Equal
}

impl Natural {
    /// Compares `self` and `other` as numbers.
    pub fn cmp(&self, other: &Natural) -> (r: Ordering)
        requires
            self.is_canonical(),
            other.is_canonical(),
        ensures
            r == Ordering::Less <==> self@ < other@,
            r == Ordering::Greater <==> self@ > other@,
            r == Ordering::Equal <==> self@ == other@,
    {
        match (self, other) {
            (Natural::Small(x), Natural::Small(y)) => {
                if *x < *y {
                    Ordering::Less
                } else if *x > *y {
                    Ordering::Greater
                } else {
                    Ordering::Equal
                }
            }
            (Natural::Small(_), Natural::Large(ys)) => {
                proof {
                    crate::natural::lemma_large_canonical_big(ys@);
                }
                Ordering::Less
            }
            (Natural::Large(xs), Natural::Small(_)) => {
                proof {
                    crate::natural::lemma_large_canonical_big(xs@);
                }
                Ordering::Greater
            }
            (Natural::Large(xs), Natural::Large(ys)) => {
                if xs.len() < ys.len() {
                    proof {
                        lemma_val_bound(xs@);
                        crate::natural::lemma_min_val_of_nonzero_top(ys@);
                        crate::model::lemma_bpow_increases(xs@.len(), (ys@.len() - 1) as nat);
                    }
                    Ordering::Less
                } else if xs.len() > ys.len() {
                    proof {
                        lemma_val_bound(ys@);
                        crate::natural::lemma_min_val_of_nonzero_top(xs@);
                        crate::model::lemma_bpow_increases(ys@.len(), (xs@.len() - 1) as nat);
                    }
                    Ordering::Greater
                } else {
                    limbs_cmp_same_length(xs.as_slice(), ys.as_slice())
                }
            }
        }
    }

    /// Whether `self` is strictly smaller than `other`.
    pub fn lt(&self, other: &Natural) -> (r: bool)
        requires
            self.is_canonical(),
            other.is_canonical(),
        ensures
            r <==> self@ < other@,
    {
        matches!(self.cmp(other), Ordering::Less)
    }

    /// Whether `self` denotes zero.
    pub fn is_zero(&self) -> (r: bool)
        requires
            self.is_canonical(),
        ensures
            r <==> self@ == 0,
    {
        match self {
            Natural::Small(x) => *x == 0,
            Natural::Large(xs) => {
                proof {
                    crate::natural::lemma_large_canonical_big(xs@);
                }
                false
            }
        }
    }
}

} // verus!
