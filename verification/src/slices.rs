//! Basic queries on limb slices.

use vstd::prelude::*;

use crate::model::limbs_val;
use crate::model::lemma_val_of_zeros;
use crate::model::lemma_val_zero_all_zero;

verus! {

/// Returns whether every limb of `xs` is zero, that is, whether `xs` denotes
/// the value zero.
pub fn slice_test_zero(xs: &[u32]) -> (r: bool)
    ensures
        r <==> limbs_val(xs@) == 0,
{
    let n = xs.len();
    let mut i: usize = 0;
    while i < n
        invariant
            0 <= i <= n,
            n == xs@.len(),
            forall|j: int| 0 <= j < i ==> xs@[j] == 0,
        decreases n - i,
    {
        if xs[i] != 0 {
            proof {
                if limbs_val(xs@) == 0 {
                    lemma_val_zero_all_zero(xs@);
                }
            }
            return false;
        }
        i = i + 1;
    }
    proof {
        lemma_val_of_zeros(xs@);
    }
    true
}

/// The number of zero limbs at the little end of `xs`, before the first
/// nonzero limb.
pub fn limbs_leading_zero_limbs(xs: &[u32]) -> (r: usize)
    ensures
        r <= xs@.len(),
        forall|j: int| 0 <= j < r ==> xs@[j] == 0,
        r < xs@.len() ==> xs@[r as int] != 0,
        r == xs@.len() ==> limbs_val(xs@) == 0,
{
    let n = xs.len();
    let mut i: usize = 0;
    while i < n
        invariant
            0 <= i <= n,
            n == xs@.len(),
            forall|j: int| 0 <= j < i ==> xs@[j] == 0,
        decreases n - i,
    {
        if xs[i] != 0 {
            return i;
        }
        i = i + 1;
    }
    proof {
        lemma_val_of_zeros(xs@);
    }
    n
}

/// The number of zero limbs at the big end of `xs`: what `trim` would drop.
pub fn limbs_trailing_zero_limbs(xs: &[u32]) -> (r: usize)
    ensures
        r <= xs@.len(),
        forall|j: int| xs@.len() - r <= j < xs@.len() ==> xs@[j] == 0,
        r < xs@.len() ==> xs@[xs@.len() - r - 1] != 0,
{
    let n = xs.len();
    let mut i: usize = n;
    while i > 0
        invariant
            0 <= i <= n,
            n == xs@.len(),
            forall|j: int| i <= j < n ==> xs@[j] == 0,
        decreases i,
    {
        if xs[i - 1] != 0 {
            return n - i;
        }
        i = i - 1;
    }
    n
}

/// Reverses the order of the limbs in place.
pub fn reverse_in_place(xs: &mut Vec<u32>)
    ensures
        final(xs)@ =~= old(xs)@.reverse(),
{
    let n = xs.len();
    let mut i: usize = 0;
    while i < n / 2
        invariant
            0 <= i <= n / 2,
            n == xs@.len(),
            n == old(xs)@.len(),
            forall|j: int|
                0 <= j < n ==> xs@[j] == if j < i || j >= n - i {
                    old(xs)@[n - 1 - j]
                } else {
                    old(xs)@[j]
                },
        decreases n / 2 - i,
    {
        let a = xs[i];
        let b = xs[n - 1 - i];
        xs[i] = b;
        xs[n - 1 - i] = a;
        i = i + 1;
    }
}

} // verus!
