//! Conversion from two's-complement limb sequences to signed values.
//!
//! The most significant bit of the top limb carries the sign; a negative
//! sequence of `n` limbs denotes its value minus `base^n`.

use vstd::prelude::*;

use crate::model::base;
use crate::model::bpow;
use crate::model::limbs_val;
use crate::natural::Natural;
use crate::integer::Integer;

verus! {

/// Complementing every limb gives the value's distance from all-ones.
proof fn lemma_val_not_seq(s: Seq<u32>, c: Seq<u32>)
    requires
        c.len() == s.len(),
        forall|i: int| 0 <= i < s.len() ==> c[i] == !s[i],
    ensures
        limbs_val(c) + limbs_val(s) + 1 == bpow(s.len()),
    decreases s.len(),
{
    assert(forall|x: u32| #[trigger] (!x) == 0xffff_ffffu32 - x) by (bit_vector);
    if s.len() == 0 {
    } else {
        assert forall|i: int| 0 <= i < s.skip(1).len() implies c.skip(1)[i] == !s.skip(1)[i] by {
            assert(c.skip(1)[i] == c[i + 1] && s.skip(1)[i] == s[i + 1]);
        }
        lemma_val_not_seq(s.skip(1), c.skip(1));
        assert(limbs_val(c) == c[0] as nat + base() * limbs_val(c.skip(1)));
        assert(limbs_val(s) == s[0] as nat + base() * limbs_val(s.skip(1)));
        let a = limbs_val(c.skip(1));
        let b = limbs_val(s.skip(1));
        assert(base() * a + base() * b + base() * 1 == base() * (a + b + 1)) by (nonlinear_arith);
    }
}

/// The two's complement of a nonzero limb sequence: limb-wise complement
/// plus one, denoting `base^n - X`.
pub fn limbs_twos_complement(xs: &[u32]) -> (r: Vec<u32>)
    requires
        limbs_val(xs@) > 0,
    ensures
        limbs_val(r@) == bpow(xs@.len()) - limbs_val(xs@),
{
    let n = xs.len();
    let mut c: Vec<u32> = Vec::new();
    let mut i: usize = 0;
    while i < n
        invariant
            0 <= i <= n,
            n == xs@.len(),
            c@.len() == i,
            forall|j: int| 0 <= j < i ==> c@[j] == !xs@[j],
        decreases n - i,
    {
        c.push(!xs[i]);
        i = i + 1;
    }
    proof {
        lemma_val_not_seq(xs@, c@);
    }
    crate::add::limbs_vec_add_limb_in_place(&mut c, 1);
    c
}

/// The signed value of a two's-complement limb sequence: the plain value
/// when the top bit is clear, the value minus `base^n` when it is set.
pub open spec fn twos_complement_val(s: Seq<u32>) -> int {
    if s.len() == 0 {
        0
    } else if s[s.len() - 1] < 0x8000_0000 {
        limbs_val(s) as int
    } else {
        limbs_val(s) - bpow(s.len())
    }
}

impl Integer {
    /// Converts two's-complement limbs, least significant first, to an
    /// `Integer`; an empty sequence is zero, and the top bit of the last
    /// limb carries the sign.
    pub fn from_twos_complement_limbs_asc(limbs: &[u32]) -> (r: Integer)
        ensures
            r@ == twos_complement_val(limbs@),
            r.is_canonical(),
    {
        let n = limbs.len();
        if n == 0 {
            return Integer::zero();
        }
        if limbs[n - 1] < 0x8000_0000 {
            let mag = Natural::from_limbs_asc(limbs);
            Integer::from_sign_and_abs(true, mag)
        } else {
            proof {
                crate::model::lemma_val_pos(limbs@, n - 1);
                crate::model::lemma_val_bound(limbs@);
            }
            let neg = limbs_twos_complement(limbs);
            let mag = Natural::from_owned_limbs_asc(neg);
            Integer::from_sign_and_abs(false, mag)
        }
    }

    /// Converts two's-complement limbs, most significant first, to an
    /// `Integer`.
    pub fn from_twos_complement_limbs_desc(limbs: &[u32]) -> (r: Integer)
        ensures
            r@ == twos_complement_val(limbs@.reverse()),
            r.is_canonical(),
    {
        let mut v: Vec<u32> = Vec::new();
        let n = limbs.len();
        let mut i: usize = 0;
        while i < n
            invariant
                0 <= i <= n,
                n == limbs@.len(),
                v@ =~= limbs@.take(i as int),
            decreases n - i,
        {
            v.push(limbs[i]);
            i = i + 1;
        }
        proof {
            assert(v@ =~= limbs@);
        }
        crate::slices::reverse_in_place(&mut v);
        Integer::from_twos_complement_limbs_asc(v.as_slice())
    }

    /// Converts owned two's-complement limbs, least significant first, to an
    /// `Integer`.
    pub fn from_owned_twos_complement_limbs_asc(limbs: Vec<u32>) -> (r: Integer)
        ensures
            r@ == twos_complement_val(limbs@),
            r.is_canonical(),
    {
        Integer::from_twos_complement_limbs_asc(limbs.as_slice())
    }

    /// Converts owned two's-complement limbs, most significant first, to an
    /// `Integer`.
    pub fn from_owned_twos_complement_limbs_desc(mut limbs: Vec<u32>) -> (r: Integer)
        ensures
            r@ == twos_complement_val(limbs@.reverse()),
            r.is_canonical(),
    {
        crate::slices::reverse_in_place(&mut limbs);
        Integer::from_twos_complement_limbs_asc(limbs.as_slice())
    }
}

} // verus!
