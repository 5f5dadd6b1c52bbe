//! Addition: carry-propagating limb loops and the `Natural` entry points.

use vstd::prelude::*;

use crate::double_limb::split_double;
use crate::model::base;
use crate::model::bpow;
use crate::model::limb_at;
use crate::model::limbs_val;
use crate::model::val_pref;
use crate::model::lemma_val_pref_step;
use crate::model::lemma_val_pref_all;
use crate::model::lemma_val_push;
use crate::natural::Natural;

verus! {

/// Adds two limb sequences; the shorter is zero-extended. The result carries
/// the exact sum, one limb longer than the longer operand if a carry remains.
#[verifier::loop_isolation(false)]
pub fn limbs_add(xs: &[u32], ys: &[u32]) -> (r: Vec<u32>)
    ensures
        limbs_val(r@) == limbs_val(xs@) + limbs_val(ys@),
        r@.len() >= xs@.len(),
        r@.len() >= ys@.len(),
        r@.len() <= (if xs@.len() >= ys@.len() {
            xs@.len()
        } else {
            ys@.len()
        }) + 1,
{
    let m = xs.len();
    let n = ys.len();
    let len = if m > n {
        m
    } else {
        n
    };
    let mut r: Vec<u32> = Vec::new();
    let mut carry: u32 = 0;
    let mut i: usize = 0;
    while i < len
        invariant
            0 <= i <= len,
            r@.len() == i,
            carry <= 1,
            limbs_val(r@) + bpow(i as nat) * (carry as nat) == val_pref(xs@, i as int) + val_pref(
                ys@,
                i as int,
            ),
        decreases len - i,
    {
        let x = if i < m {
            xs[i]
        } else {
            0
        };
        let y = if i < n {
            ys[i]
        } else {
            0
        };
        let s: u64 = x as u64 + y as u64 + carry as u64;
        let (lo, hi) = split_double(s);
        proof {
            lemma_add_step(r@, xs@, ys@, i as int, x, y, carry, lo, hi);
        }
        r.push(lo);
        carry = hi;
        i = i + 1;
    }
    proof {
        lemma_val_pref_all(xs@, len as int);
        lemma_val_pref_all(ys@, len as int);
    }
    if carry != 0 {
        proof {
            lemma_val_push(r@, carry);
            crate::model::lemma_mul_comm(carry as nat, bpow(len as nat));
        }
        r.push(carry);
    } else {
        proof {
            crate::model::lemma_mul_zero(bpow(len as nat));
        }
    }
    r
}

/// The carry-step accounting shared by the addition loops: if the double-limb
/// step result splits as `lo + base * hi`, extending the accumulated limbs by
/// `lo` with outgoing carry `hi` accounts for both operands' next limbs.
proof fn lemma_add_step(
    r: Seq<u32>,
    xs: Seq<u32>,
    ys: Seq<u32>,
    i: int,
    x: u32,
    y: u32,
    carry: u32,
    lo: u32,
    hi: u32,
)
    requires
        i >= 0,
        r.len() == i,
        x == limb_at(xs, i),
        y == limb_at(ys, i),
        carry <= 1,
        lo as nat + base() * (hi as nat) == x as nat + y as nat + carry as nat,
        limbs_val(r) + bpow(i as nat) * (carry as nat) == val_pref(xs, i) + val_pref(ys, i),
    ensures
        hi <= 1,
        limbs_val(r.push(lo)) + bpow((i + 1) as nat) * (hi as nat) == val_pref(xs, i + 1)
            + val_pref(ys, i + 1),
{
    lemma_val_pref_step(xs, i);
    lemma_val_pref_step(ys, i);
    lemma_val_push(r, lo);
    let w = bpow(i as nat);
    assert(bpow((i + 1) as nat) == base() * w);
    if hi >= 2 {
        assert(base() * (hi as nat) >= base() * 2) by (nonlinear_arith)
            requires
                hi >= 2,
        ;
        assert(false);
    }
    assert(lo as nat * w + (base() * w) * (hi as nat) == x as nat * w + y as nat * w + carry as nat
        * w) by (nonlinear_arith)
        requires
            lo as nat + base() * (hi as nat) == x as nat + y as nat + carry as nat,
    ;
}

/// Adds a single limb to a limb sequence in place; the vector grows by one
/// limb when a carry propagates past the end.
#[verifier::loop_isolation(false)]
pub fn limbs_vec_add_limb_in_place(xs: &mut Vec<u32>, y: u32)
    ensures
        limbs_val(final(xs)@) == limbs_val(old(xs)@) + y,
{
    let ghost orig = xs@;
    let n = xs.len();
    let mut carry: u32 = y;
    let mut i: usize = 0;
    proof {
        assert(bpow(0) == 1);
    }
    while i < n
        invariant
            0 <= i <= n,
            xs@.len() == n,
            limbs_val(xs@) + bpow(i as nat) * (carry as nat) == limbs_val(orig) + y,
            forall|j: int| i <= j < n ==> xs@[j] == orig[j],
        decreases n - i,
    {
        if carry == 0 {
            proof {
                crate::model::lemma_mul_zero(bpow(i as nat));
            }
            return ;
        }
        let s: u64 = xs[i] as u64 + carry as u64;
        let (lo, hi) = split_double(s);
        proof {
            lemma_in_place_step(xs@, i as int, carry as nat, lo, hi, (limbs_val(orig) + y) as nat);
        }
        xs[i] = lo;
        carry = hi;
        i = i + 1;
    }
    if carry != 0 {
        proof {
            lemma_val_push(xs@, carry);
            crate::model::lemma_mul_comm(carry as nat, bpow(n as nat));
        }
        xs.push(carry);
    } else {
        proof {
            crate::model::lemma_mul_zero(bpow(n as nat));
        }
    }
}

/// The in-place carry step: replacing limb `i` by `lo` and carrying `hi`
/// preserves the running total `target`.
proof fn lemma_in_place_step(xs: Seq<u32>, i: int, addend: nat, lo: u32, hi: u32, target: nat)
    requires
        0 <= i < xs.len(),
        addend <= base(),
        lo as nat + base() * (hi as nat) == xs[i] as nat + addend,
        limbs_val(xs) + bpow(i as nat) * addend == target,
    ensures
        hi <= 1,
        limbs_val(xs.update(i, lo)) + bpow((i + 1) as nat) * (hi as nat) == target,
{
    let w = bpow(i as nat);
    lemma_val_update(xs, i, lo);
    assert(bpow((i + 1) as nat) == base() * w);
    if hi >= 2 {
        assert(base() * (hi as nat) >= base() * 2) by (nonlinear_arith)
            requires
                hi >= 2,
        ;
        assert(false);
    }
    assert(lo as nat * w + (base() * w) * (hi as nat) == xs[i] as nat * w + addend * w)
        by (nonlinear_arith)
        requires
            lo as nat + base() * (hi as nat) == xs[i] as nat + addend,
    ;
}

/// Updating one limb changes the value by the weighted difference.
pub proof fn lemma_val_update(s: Seq<u32>, i: int, x: u32)
    requires
        0 <= i < s.len(),
    ensures
        limbs_val(s.update(i, x)) + s[i] as nat * bpow(i as nat) == limbs_val(s) + x as nat * bpow(
            i as nat,
        ),
    decreases i,
{
    if i == 0 {
        assert(s.update(0, x).skip(1) =~= s.skip(1));
        assert(s.update(0, x)[0] == x);
        assert(limbs_val(s.update(0, x)) == x as nat + base() * limbs_val(s.update(0, x).skip(1)));
        assert(bpow(0) == 1);
        assert(s[0] as nat * 1 == s[0] as nat) by (nonlinear_arith);
        assert(x as nat * 1 == x as nat) by (nonlinear_arith);
    } else {
        let u = s.update(i, x);
        assert(u[0] == s[0]);
        assert(u.skip(1) =~= s.skip(1).update(i - 1, x));
        lemma_val_update(s.skip(1), i - 1, x);
        let a = limbs_val(s.skip(1).update(i - 1, x));
        let b = limbs_val(s.skip(1));
        let w = bpow((i - 1) as nat);
        let c = s.skip(1)[i - 1] as nat;
        assert(s.skip(1)[i - 1] == s[i]);
        assert(limbs_val(u) == s[0] as nat + base() * a);
        assert(limbs_val(s) == s[0] as nat + base() * b);
        assert(a + c * w == b + x as nat * w);
        assert(bpow(i as nat) == base() * w);
        assert(base() * a + c * (base() * w) == base() * (a + c * w)) by (nonlinear_arith);
        assert(base() * b + x as nat * (base() * w) == base() * (b + x as nat * w))
            by (nonlinear_arith);
    }
}

/// Adds two equal-length limb slices into the left one, returning the carry
/// out of the top.
#[verifier::loop_isolation(false)]
pub fn limbs_slice_add_same_length_in_place_left(xs: &mut [u32], ys: &[u32]) -> (carry: bool)
    requires
        old(xs)@.len() == ys@.len(),
    ensures
        final(xs)@.len() == ys@.len(),
        limbs_val(final(xs)@) + bpow(ys@.len()) * (if carry {
            1nat
        } else {
            0nat
        }) == limbs_val(old(xs)@) + limbs_val(ys@),
{
    let ghost orig = old(xs)@;
    let n = ys.len();
    let mut carry: u32 = 0;
    let mut i: usize = 0;
    while i < n
        invariant
            0 <= i <= n,
            xs@.len() == n,
            carry <= 1,
            limbs_val(xs@) + bpow(i as nat) * (carry as nat) == limbs_val(orig) + val_pref(
                ys@,
                i as int,
            ),
            forall|j: int| i <= j < n ==> xs@[j] == orig[j],
        decreases n - i,
    {
        let s: u64 = xs[i] as u64 + ys[i] as u64 + carry as u64;
        let (lo, hi) = split_double(s);
        proof {
            lemma_val_pref_step(ys@, i as int);
            let w = bpow(i as nat);
            let addend = ys@[i as int] as nat + carry as nat;
            crate::model::lemma_mul_distrib(w, ys@[i as int] as nat, carry as nat);
            crate::model::lemma_mul_comm(w, ys@[i as int] as nat);
            lemma_in_place_step(
                xs@,
                i as int,
                addend,
                lo,
                hi,
                (limbs_val(orig) + val_pref(ys@, i as int + 1)) as nat,
            );
        }
        xs[i] = lo;
        carry = hi;
        i = i + 1;
    }
    proof {
        lemma_val_pref_all(ys@, n as int);
    }
    carry == 1
}

/// Adds `ys` into `xs` in place, growing `xs` as the sum requires.
pub fn limbs_vec_add_in_place_left(xs: &mut Vec<u32>, ys: &[u32])
    ensures
        limbs_val(final(xs)@) == limbs_val(old(xs)@) + limbs_val(ys@),
{
    let r = limbs_add(xs.as_slice(), ys);
    *xs = r;
}

impl Natural {
    /// The sum of `self` and `other`.
    pub fn add(&self, other: &Natural) -> (r: Natural)
        requires
            self.is_canonical(),
            other.is_canonical(),
        ensures
            r@ == self@ + other@,
            r.is_canonical(),
    {
        match (self, other) {
            (Natural::Small(x), Natural::Small(y)) => {
                let s: u64 = *x as u64 + *y as u64;
                let (lo, hi) = split_double(s);
                if hi == 0 {
                    Natural::Small(lo)
                } else {
                    let mut v: Vec<u32> = Vec::new();
                    v.push(lo);
                    v.push(hi);
                    proof {
                        assert(v@.skip(1) =~= seq![hi]);
                        assert(v@.skip(1).skip(1) =~= Seq::<u32>::empty());
                        assert(limbs_val(v@.skip(1)) == hi as nat + base() * limbs_val(
                            v@.skip(1).skip(1),
                        ));
                        assert(limbs_val(v@) == lo as nat + base() * limbs_val(v@.skip(1)));
                    }
                    Natural::Large(v)
                }
            }
            _ => {
                let a = self.to_limbs_asc();
                let b = other.to_limbs_asc();
                let s = limbs_add(a.as_slice(), b.as_slice());
                Natural::from_owned_limbs_asc(s)
            }
        }
    }

    /// Adds `other` into `self`.
    pub fn add_assign(&mut self, other: &Natural)
        requires
            old(self).is_canonical(),
            other.is_canonical(),
        ensures
            final(self)@ == old(self)@ + other@,
            final(self).is_canonical(),
    {
        let r = self.add(other);
        *self = r;
    }
}

} // verus!
