//! Subtraction: borrow-propagating limb loops and the `Natural` entry points.

use vstd::prelude::*;

use crate::model::base;
use crate::model::bpow;
use crate::model::limbs_val;
use crate::model::val_pref;
use crate::model::lemma_val_pref_step;
use crate::model::lemma_val_pref_all;
use crate::model::lemma_val_bound;
use crate::model::lemma_mul_zero;
use crate::add::lemma_val_update;
use crate::natural::Natural;

verus! {

/// One borrow step: the double-limb computation `base + x - y - b` split as
/// `lo + base * hi` yields the new limb `lo` and the next borrow `1 - hi`.
fn borrow_step(x: u32, y: u32, b: u32) -> (r: (u32, u32))
    requires
        b <= 1,
    ensures
        r.1 <= 1,
        r.0 as int == x - y - b + base() * (r.1 as int),
{
    let t: u64 = 0x1_0000_0000u64 + x as u64 - y as u64 - b as u64;
    let (lo, hi) = crate::double_limb::split_double(t);
    proof {
        assert(t < 2 * base());
        assert(hi <= 1) by (nonlinear_arith)
            requires
                lo as nat + base() * (hi as nat) == t as nat && t < 2 * base(),
        ;
    }
    (lo, 1 - hi)
}

/// The in-place borrow step accounting: replacing limb `i` by `lo` and
/// borrowing `nb` from the next limb subtracts `sub` at weight `i`.
proof fn lemma_sub_step(xs: Seq<u32>, i: int, sub: int, lo: u32, nb: u32, target: int)
    requires
        0 <= i < xs.len(),
        nb <= 1,
        lo as int == xs[i] - sub + base() * (nb as int),
        limbs_val(xs) == target + bpow(i as nat) * sub,
    ensures
        limbs_val(xs.update(i, lo)) == target + bpow((i + 1) as nat) * (nb as int),
{
    let w = bpow(i as nat) as int;
    lemma_val_update(xs, i, lo);
    assert(bpow((i + 1) as nat) == base() * bpow(i as nat));
    assert(lo as int * w == xs[i] as int * w - sub * w + (base() * w) * (nb as int))
        by (nonlinear_arith)
        requires
            lo as int == xs[i] - sub + base() * (nb as int),
    ;
}

/// Subtracts `ys` from `xs` in place, zero-extending `ys`; returns the borrow
/// out of the top, true exactly when `ys` denotes more than `xs`.
#[verifier::loop_isolation(false)]
#[verifier::rlimit(30)]
pub fn limbs_sub_in_place_left(xs: &mut Vec<u32>, ys: &[u32]) -> (borrow: bool)
    requires
        ys@.len() <= old(xs)@.len(),
    ensures
        final(xs)@.len() == old(xs)@.len(),
        borrow <==> limbs_val(old(xs)@) < limbs_val(ys@),
        limbs_val(final(xs)@) == limbs_val(old(xs)@) - limbs_val(ys@) + if borrow {
            bpow(old(xs)@.len()) as int
        } else {
            0
        },
{
    let ghost orig = xs@;
    let n = xs.len();
    let m = ys.len();
    let mut b: u32 = 0;
    let mut i: usize = 0;
    proof {
        assert(bpow(0) == 1);
    }
    while i < n
        invariant
            0 <= i <= n,
            xs@.len() == n,
            b <= 1,
            limbs_val(xs@) == limbs_val(orig) - val_pref(ys@, i as int) + bpow(i as nat) * (
            b as int),
            forall|j: int| i <= j < n ==> xs@[j] == orig[j],
        decreases n - i,
    {
        let y = if i < m {
            ys[i]
        } else {
            0
        };
        let (lo, nb) = borrow_step(xs[i], y, b);
        proof {
            lemma_val_pref_step(ys@, i as int);
            let w = bpow(i as nat) as int;
            assert(w * (y as int + b as int) == w * (y as int) + w * (b as int))
                by (nonlinear_arith);
            assert(w * (y as int) == y as int * w) by (nonlinear_arith);
            lemma_sub_step(
                xs@,
                i as int,
                y as int + b as int,
                lo,
                nb,
                limbs_val(orig) - val_pref(ys@, i as int + 1),
            );
        }
        xs[i] = lo;
        b = nb;
        i = i + 1;
    }
    proof {
        assert(i == n);
        assert(limbs_val(xs@) == limbs_val(orig) - val_pref(ys@, i as int) + bpow(i as nat) * (
        b as int));
        lemma_val_pref_all(ys@, n as int);
        if b == 0 {
            lemma_mul_zero(bpow(n as nat));
        } else {
            lemma_val_bound(xs@);
        }
        lemma_val_bound(ys@);
        crate::model::lemma_bpow_increases(ys@.len(), n as nat);
        assert(val_pref(ys@, i as int) == limbs_val(ys@));
        if b == 1 {
            assert(b as int == 1);
            assert(bpow(i as nat) == bpow(n as nat));
            assert(bpow(n as nat) * 1int == bpow(n as nat)) by (nonlinear_arith);
            assert(bpow(i as nat) * (b as int) == bpow(n as nat));
            assert(limbs_val(xs@) == limbs_val(orig) - limbs_val(ys@) + bpow(n as nat));
            assert(limbs_val(xs@) < bpow(n as nat));
            assert(limbs_val(orig) < limbs_val(ys@));
        } else {
            assert(bpow(i as nat) * (b as int) == 0);
            assert(limbs_val(xs@) == limbs_val(orig) - limbs_val(ys@));
            assert(limbs_val(orig) >= limbs_val(ys@));
        }
    }
    b == 1
}

/// Subtracts a single limb from a limb sequence in place; returns the borrow
/// out of the top, true exactly when the limb exceeds the sequence's value.
#[verifier::loop_isolation(false)]
#[verifier::rlimit(30)]
pub fn limbs_sub_limb_in_place(xs: &mut Vec<u32>, y: u32) -> (borrow: bool)
    ensures
        final(xs)@.len() == old(xs)@.len(),
        borrow <==> limbs_val(old(xs)@) < y,
        old(xs)@.len() > 0 ==> limbs_val(final(xs)@) == limbs_val(old(xs)@) - y + if borrow {
            bpow(old(xs)@.len()) as int
        } else {
            0
        },
        old(xs)@.len() == 0 ==> limbs_val(final(xs)@) == 0,
{
    let ghost orig = xs@;
    let n = xs.len();
    if n == 0 {
        return y != 0;
    }
    let mut b: u32 = 0;
    let mut i: usize = 0;
    proof {
        assert(bpow(0) == 1);
    }
    while i < n
        invariant
            0 <= i <= n,
            xs@.len() == n,
            b <= 1,
            limbs_val(xs@) == limbs_val(orig) - val_pref(seq![y], i as int) + bpow(i as nat) * (
            b as int),
            forall|j: int| i <= j < n ==> xs@[j] == orig[j],
        decreases n - i,
    {
        let yy = if i == 0 {
            y
        } else {
            0
        };
        let (lo, nb) = borrow_step(xs[i], yy, b);
        proof {
            let ghost ys = seq![y];
            lemma_val_pref_step(ys, i as int);
            assert(crate::model::limb_at(ys, i as int) == yy);
            let w = bpow(i as nat) as int;
            assert(w * (yy as int + b as int) == w * (yy as int) + w * (b as int))
                by (nonlinear_arith);
            assert(w * (yy as int) == yy as int * w) by (nonlinear_arith);
            lemma_sub_step(
                xs@,
                i as int,
                yy as int + b as int,
                lo,
                nb,
                limbs_val(orig) - val_pref(ys, i as int + 1),
            );
        }
        xs[i] = lo;
        b = nb;
        i = i + 1;
    }
    proof {
        let ghost ys = seq![y];
        assert(ys.skip(1) =~= Seq::<u32>::empty());
        assert(limbs_val(ys) == y as nat + base() * limbs_val(ys.skip(1)));
        if n > 0 {
            lemma_val_pref_all(ys, n as int);
        } else {
            assert(ys.take(0) =~= Seq::<u32>::empty());
        }
        if b == 0 {
            lemma_mul_zero(bpow(n as nat));
        } else {
            lemma_val_bound(xs@);
        }
        assert(i == n);
        if b == 1 {
            assert(b as int == 1);
            assert(bpow(i as nat) == bpow(n as nat));
            assert(bpow(n as nat) * 1int == bpow(n as nat)) by (nonlinear_arith);
            assert(bpow(i as nat) * (b as int) == bpow(n as nat));
            assert(n > 0 ==> limbs_val(xs@) == limbs_val(orig) - y + bpow(n as nat));
            assert(limbs_val(orig) < y);
        } else {
            assert(bpow(i as nat) * (b as int) == 0);
            assert(n > 0 ==> limbs_val(xs@) == limbs_val(orig) - y);
            assert(limbs_val(orig) >= y);
        }
    }
    b == 1
}

impl Natural {
    /// The difference `self - other`; subtraction of a larger magnitude from
    /// a smaller one is rejected at the `Natural` level.
    pub fn sub(&self, other: &Natural) -> (r: Natural)
        requires
            self.is_canonical(),
            other.is_canonical(),
            other@ <= self@,
        ensures
            r@ == self@ - other@,
            r.is_canonical(),
    {
        let mut a = self.to_limbs_asc();
        let b = other.to_limbs_asc();
        proof {
            if a@.len() < b@.len() {
                lemma_val_bound(a@);
                crate::natural::lemma_min_val_of_nonzero_top(b@);
                crate::model::lemma_bpow_increases(a@.len(), (b@.len() - 1) as nat);
                assert(false);
            }
        }
        let borrow = limbs_sub_in_place_left(&mut a, b.as_slice());
        Natural::from_owned_limbs_asc(a)
    }

    /// The difference `self - other`, or `None` when `other` exceeds `self`.
    pub fn checked_sub(&self, other: &Natural) -> (r: Option<Natural>)
        requires
            self.is_canonical(),
            other.is_canonical(),
        ensures
            match r {
                Some(d) => other@ <= self@ && d@ == self@ - other@ && d.is_canonical(),
                None => self@ < other@,
            },
    {
        let mut a = self.to_limbs_asc();
        let b = other.to_limbs_asc();
        if a.len() < b.len() {
            proof {
                lemma_val_bound(a@);
                crate::natural::lemma_min_val_of_nonzero_top(b@);
                crate::model::lemma_bpow_increases(a@.len(), (b@.len() - 1) as nat);
            }
            return None;
        }
        let borrow = limbs_sub_in_place_left(&mut a, b.as_slice());
        if borrow {
            None
        } else {
            Some(Natural::from_owned_limbs_asc(a))
        }
    }

    /// The difference `self - other`, saturating at zero.
    pub fn saturating_sub(&self, other: &Natural) -> (r: Natural)
        requires
            self.is_canonical(),
            other.is_canonical(),
        ensures
            r@ == if other@ <= self@ {
                (self@ - other@) as nat
            } else {
                0nat
            },
            r.is_canonical(),
    {
        match self.checked_sub(other) {
            Some(d) => d,
            None => Natural::zero(),
        }
    }

    /// Replaces `self` with `self - other`, saturating at zero.
    pub fn saturating_sub_assign(&mut self, other: &Natural)
        requires
            old(self).is_canonical(),
            other.is_canonical(),
        ensures
            final(self)@ == if other@ <= old(self)@ {
                (old(self)@ - other@) as nat
            } else {
                0nat
            },
            final(self).is_canonical(),
    {
        let r = self.saturating_sub(other);
        *self = r;
    }
}

} // verus!
