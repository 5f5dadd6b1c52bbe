//! Bit access on the limbs of a negative value.

use vstd::prelude::*;

use vstd::arithmetic::power2::pow2;

use crate::model::bpow;
use crate::model::limbs_val;
use crate::natural::Natural;

verus! {

/// The magnitude after clearing bit `index` of the negative of a positive
/// value `x`: the bit of `-x` at `index` is set exactly when the bit of
/// `x - 1` there is clear, and clearing it adds `2^index` to the magnitude.
pub open spec fn clear_bit_neg_val(x: nat, index: nat) -> nat
    recommends
        x > 0,
{
    if (((x - 1) as nat / pow2(index)) % 2) == 0 {
        (x + pow2(index)) as nat
    } else {
        x
    }
}

/// Clears bit `index` of the negative of the value of `xs`, in place on the
/// magnitude; the vector grows only when the new magnitude needs more limbs.
#[verifier::loop_isolation(false)]
pub fn limbs_vec_clear_bit_neg(xs: &mut Vec<u32>, index: u64)
    requires
        limbs_val(old(xs)@) > 0,
        index / 32 + old(xs)@.len() + 2 <= usize::MAX,
    ensures
        limbs_val(final(xs)@) == clear_bit_neg_val(limbs_val(old(xs)@), index as nat),
        final(xs)@.len() >= old(xs)@.len(),
        final(xs)@.len() == old(xs)@.len() <==> clear_bit_neg_val(limbs_val(old(xs)@), index as nat)
            < bpow(old(xs)@.len()),
{
    let n_len = xs.len();
    proof {
        if xs@.len() == 0 {
            assert(limbs_val(xs@) == 0);
        }
    }
    let one = Natural::one();
    let n = Natural::from_limbs_asc(xs.as_slice());
    let m = n.sub(&one);
    let shifted = m.shr(index);
    proof {
        vstd::arithmetic::power2::lemma_pow2_pos(index as nat);
    }
    let bit_set = shifted.odd();
    if !bit_set {
        let p = one.shl(index);
        proof {
            assert(1 * pow2(index as nat) == pow2(index as nat)) by (nonlinear_arith);
        }
        let nn = n.add(&p);
        let mut limbs = nn.to_limbs_asc();
        let ghost min_len = limbs@.len();
        proof {
            crate::model::lemma_val_bound(limbs@);
        }
        if limbs.len() < n_len {
            let mut i = limbs.len();
            while i < n_len
                invariant
                    i <= n_len,
                    limbs@.len() == i,
                    limbs_val(limbs@) == nn@,
                decreases n_len - i,
            {
                proof {
                    crate::model::lemma_val_push(limbs@, 0);
                    assert(0 * bpow(limbs@.len()) == 0) by (nonlinear_arith);
                }
                limbs.push(0);
                i = i + 1;
            }
            proof {
                crate::model::lemma_bpow_increases(min_len, n_len as nat);
            }
            *xs = limbs;
        } else {
            proof {
                if limbs@.len() > n_len {
                    crate::model::lemma_val_pos(limbs@, limbs@.len() - 1);
                    crate::natural::lemma_min_val_of_nonzero_top(limbs@);
                    crate::model::lemma_bpow_increases(n_len as nat, (limbs@.len() - 1) as nat);
                }
            }
            *xs = limbs;
        }
    } else {
        proof {
            crate::model::lemma_val_bound(xs@);
        }
    }
}

} // verus!
