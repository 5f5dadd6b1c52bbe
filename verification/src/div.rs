//! Division: schoolbook division by a single limb, binary long division for
//! longer divisors, and the dispatching `Natural` entry points.
//!
//! Whatever the variant, the numeric invariant is the same:
//! `dividend == quotient * divisor + remainder` with
//! `0 <= remainder < divisor`.

use vstd::prelude::*;

use crate::model::base;
use crate::model::bpow;
use crate::model::limbs_val;
use crate::natural::Natural;

verus! {

/// Divides a limb sequence by a single limb, producing one quotient limb per
/// dividend limb and the remainder, by schoolbook long division from the most
/// significant limb down.
#[verifier::loop_isolation(false)]
pub fn limbs_div_limb_mod(xs: &[u32], d: u32) -> (r: (Vec<u32>, u32))
    requires
        d >= 1,
    ensures
        r.0@.len() == xs@.len(),
        limbs_val(r.0@) * d + r.1 == limbs_val(xs@),
        r.1 < d,
{
    let n = xs.len();
    let mut q: Vec<u32> = Vec::new();
    let mut k: usize = 0;
    while k < n
        invariant
            0 <= k <= n,
            q@.len() == k,
        decreases n - k,
    {
        q.push(0);
        k = k + 1;
    }
    let mut rem: u32 = 0;
    let mut i: usize = n;
    proof {
        assert(xs@.skip(n as int) =~= Seq::<u32>::empty());
        assert(q@.skip(n as int) =~= Seq::<u32>::empty());
        crate::model::lemma_mul_zero(d as nat);
    }
    while i > 0
        invariant
            0 <= i <= n,
            q@.len() == n,
            rem < d,
            limbs_val(q@.skip(i as int)) * d + rem == limbs_val(xs@.skip(i as int)),
        decreases i,
    {
        let idx = i - 1;
        proof {
            assert((rem as nat) * base() + xs@[idx as int] < (d as nat) * base())
                by (nonlinear_arith)
                requires
                    rem < d && xs@[idx as int] < base(),
            ;
        }
        let t: u64 = rem as u64 * 0x1_0000_0000u64 + xs[idx] as u64;
        let qd64 = t / (d as u64);
        let rem64 = t % (d as u64);
        proof {
            vstd::arithmetic::div_mod::lemma_fundamental_div_mod(t as int, d as int);
            assert((qd64 as int) * (d as int) == (d as int) * (qd64 as int)) by (nonlinear_arith);
            assert((qd64 as int) * (d as int) + rem64 == t);
            assert(qd64 < base() as u64) by (nonlinear_arith)
                requires
                    (qd64 as int) * (d as int) + rem64 == t && rem64 < d && t < (d as nat) * base()
                        && d >= 1,
            ;
        }
        let qd = qd64 as u32;
        let new_rem = rem64 as u32;
        proof {
            lemma_div_limb_step(xs@, q@, i as int, d, rem, qd, new_rem);
        }
        q[idx] = qd;
        rem = new_rem;
        i = idx;
    }
    proof {
        assert(q@.skip(0) =~= q@);
        assert(xs@.skip(0) =~= xs@);
    }
    (q, rem)
}

/// One step of long division from the top: quotient limb `qd` and remainder
/// `new_rem` for the double limb `rem * base + xs[i-1]` extend the suffix
/// accounting one limb down.
proof fn lemma_div_limb_step(
    xs: Seq<u32>,
    q: Seq<u32>,
    i: int,
    d: u32,
    rem: u32,
    qd: u32,
    new_rem: u32,
)
    requires
        0 < i <= xs.len(),
        q.len() == xs.len(),
        qd as nat * (d as nat) + new_rem == (rem as nat) * base() + xs[i - 1],
        limbs_val(q.skip(i)) * d + rem == limbs_val(xs.skip(i)),
    ensures
        limbs_val(q.update(i - 1, qd).skip(i - 1)) * d + new_rem == limbs_val(xs.skip(i - 1)),
{
    let u = q.update(i - 1, qd);
    assert(u.skip(i - 1).skip(1) =~= q.skip(i));
    assert(u.skip(i - 1)[0] == qd);
    assert(limbs_val(u.skip(i - 1)) == qd as nat + base() * limbs_val(q.skip(i)));
    assert(xs.skip(i - 1).skip(1) =~= xs.skip(i));
    assert(xs.skip(i - 1)[0] == xs[i - 1]);
    assert(limbs_val(xs.skip(i - 1)) == xs[i - 1] as nat + base() * limbs_val(xs.skip(i)));
    let qq = limbs_val(q.skip(i));
    assert((qd as nat + base() * qq) * d == qd as nat * (d as nat) + base() * (qq * d))
        by (nonlinear_arith);
    assert(base() * (qq * d + rem as nat) == base() * (qq * d) + base() * (rem as nat))
        by (nonlinear_arith);
    assert((rem as nat) * base() == base() * (rem as nat)) by (nonlinear_arith);
}

impl Natural {
    /// The quotient and remainder of `self` halved: `(self / 2, self % 2)`.
    fn half_with_bit(&self) -> (r: (Natural, u32))
        requires
            self.is_canonical(),
        ensures
            r.0@ == self@ / 2,
            r.1 == self@ % 2,
            r.0.is_canonical(),
            self@ >= 1 ==> r.0@ < self@,
    {
        let limbs = self.to_limbs_asc();
        let (q, rem) = limbs_div_limb_mod(limbs.as_slice(), 2);
        let h = Natural::from_owned_limbs_asc(q);
        proof {
            vstd::arithmetic::div_mod::lemma_fundamental_div_mod_converse(
                self@ as int,
                2,
                h@ as int,
                rem as int,
            );
        }
        (h, rem)
    }

    /// Quotient and remainder of division by a single limb.
    fn div_mod_limb(&self, d: u32) -> (r: (Natural, u32))
        requires
            self.is_canonical(),
            d >= 1,
        ensures
            r.0@ * d + r.1 == self@,
            r.1 < d,
            r.0.is_canonical(),
    {
        let limbs = self.to_limbs_asc();
        let (q, rem) = limbs_div_limb_mod(limbs.as_slice(), d);
        (Natural::from_owned_limbs_asc(q), rem)
    }

    /// Binary long division: halve the dividend, divide recursively, then
    /// fold the low bit back in with one bounded correction step.
    fn div_mod_binary(&self, d: &Natural) -> (r: (Natural, Natural))
        requires
            self.is_canonical(),
            d.is_canonical(),
            d@ >= 1,
        ensures
            r.0@ * d@ + r.1@ == self@,
            r.1@ < d@,
            r.0.is_canonical(),
            r.1.is_canonical(),
        decreases self@,
    {
        if self.lt(d) {
            return (Natural::zero(), self.clone());
        }
        let (half, b) = self.half_with_bit();
        proof {
            vstd::arithmetic::div_mod::lemma_fundamental_div_mod(self@ as int, 2);
        }
        let (q1, r1) = half.div_mod_binary(d);
        let mut r2 = r1.add(&r1);
        r2 = r2.add(&Natural::Small(b));
        let q2 = q1.add(&q1);
        proof {
            assert((q1@ + q1@) * d@ + (r1@ + r1@) == 2 * (q1@ * d@ + r1@)) by (nonlinear_arith);
        }
        if r2.lt(d) {
            (q2, r2)
        } else {
            let q3 = q2.add(&Natural::one());
            let r3 = r2.sub(d);
            proof {
                assert((q2@ + 1) * d@ == q2@ * d@ + d@) by (nonlinear_arith);
            }
            (q3, r3)
        }
    }

    /// The quotient and remainder of `self` divided by `other`, selected by
    /// divisor size: schoolbook division by a limb for a one-limb divisor,
    /// binary long division otherwise. Whatever the variant,
    /// `self == quotient * other + remainder` and `remainder < other`.
    pub fn div_mod(&self, other: &Natural) -> (r: (Natural, Natural))
        requires
            self.is_canonical(),
            other.is_canonical(),
            other@ != 0,
        ensures
            r.0@ * other@ + r.1@ == self@,
            r.1@ < other@,
            r.0.is_canonical(),
            r.1.is_canonical(),
    {
        match other {
            Natural::Small(d) => {
                let (q, rem) = self.div_mod_limb(*d);
                (q, Natural::Small(rem))
            }
            Natural::Large(_) => self.div_mod_binary(other),
        }
    }

    /// The exact quotient `self / other`, under the caller's guarantee that
    /// the division is exact.
    pub fn div_exact(&self, other: &Natural) -> (r: Natural)
        requires
            self.is_canonical(),
            other.is_canonical(),
            other@ != 0,
            self@ % other@ == 0,
        ensures
            r@ * other@ == self@,
            r.is_canonical(),
    {
        let (q, rem) = self.div_mod(other);
        proof {
            vstd::arithmetic::div_mod::lemma_fundamental_div_mod_converse(
                self@ as int,
                other@ as int,
                q@ as int,
                rem@ as int,
            );
        }
        q
    }
}

/// Division round trip: for every dividend and nonzero divisor, the quotient
/// and remainder that `div_mod` returns satisfy
/// `quotient * divisor + remainder == dividend` with
/// `0 <= remainder < divisor` — and they are the only such pair.
pub proof fn lemma_div_mod_round_trip(x: nat, d: nat, q: nat, r: nat)
    requires
        d != 0,
        q * d + r == x,
        r < d,
    ensures
        q == x / d,
        r == x % d,
{
    vstd::arithmetic::div_mod::lemma_fundamental_div_mod_converse(
        x as int,
        d as int,
        q as int,
        r as int,
    );
}

} // verus!
