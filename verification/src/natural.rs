//! The `Natural` type: a non-negative integer magnitude.
//!
//! A value small enough to fit in one limb is stored inline (`Small`); larger
//! values are a heap-allocated limb sequence (`Large`), least-significant
//! limb first. Canonical form: a `Large` sequence has at least two limbs and
//! a nonzero most-significant limb. Every public operation returns canonical
//! values; `trim` restores the form after limb-level work.

use vstd::prelude::*;

use crate::model::limbs_val;
use crate::model::lemma_val_drop_trailing_zeros;
use crate::model::lemma_val_bound;
use crate::model::lemma_val_injective;
use crate::model::lemma_val_zero_all_zero;
use vstd::std_specs::cmp::PartialEqSpec;

verus! {

/// A natural (non-negative) integer.
pub enum Natural {
    Small(u32),
    Large(Vec<u32>),
}

impl View for Natural {
    type V = nat;

    open spec fn view(&self) -> nat {
        match self {
            Natural::Small(x) => *x as nat,
            Natural::Large(xs) => limbs_val(xs@),
        }
    }
}

impl Natural {
    /// Canonical form: `Large` only for values of at least two significant
    /// limbs, with no trailing zero limb.
    pub open spec fn is_canonical(&self) -> bool {
        match self {
            Natural::Small(_) => true,
            Natural::Large(xs) => xs@.len() > 1 && xs@[xs@.len() - 1] != 0,
        }
    }

    /// The number of stored limbs: one for a `Small` value, the sequence
    /// length for a `Large` one.
    pub open spec fn spec_limb_len(&self) -> nat {
        match self {
            Natural::Small(_) => 1,
            Natural::Large(xs) => xs@.len(),
        }
    }

    /// Returns true iff `self` is in canonical form. All `Natural`s
    /// observable outside this crate are canonical; limb-level scratch values
    /// inside operations may not be.
    pub fn is_valid(&self) -> (r: bool)
        ensures
            r == self.is_canonical(),
    {
        match self {
            Natural::Small(_) => true,
            Natural::Large(xs) => xs.len() > 1 && xs[xs.len() - 1] != 0,
        }
    }

    /// Collapses a `Large` value of fewer than two limbs into `Small` form.
    fn demote_if_small(&mut self)
        ensures
            final(self)@ == old(self)@,
            old(self).is_canonical() ==> *final(self) == *old(self),
            (*old(self) is Large && old(self)->Large_0@.len() <= 1) ==> *final(self) is Small,
    {
        let mut demoted_value: Option<u32> = None;
        match &*self {
            Natural::Small(_) => {}
            Natural::Large(xs) => {
                if xs.len() == 0 {
                    demoted_value = Some(0);
                } else if xs.len() == 1 {
                    proof {
                        assert(xs@.skip(1).len() == 0);
                        assert(limbs_val(xs@) == xs@[0] as nat + crate::model::base() * limbs_val(
                            xs@.skip(1),
                        ));
                    }
                    demoted_value = Some(xs[0]);
                }
            }
        }
        match demoted_value {
            Some(small) => {
                proof {
                    assert(self@ == small as nat);
                }
                *self = Natural::Small(small);
            }
            None => {}
        }
    }

    /// Strips trailing zero limbs from a `Large` sequence and demotes to
    /// `Small` if at most one limb remains, restoring canonical form without
    /// changing the value.
    pub(crate) fn trim(&mut self)
        ensures
            final(self)@ == old(self)@,
            final(self).is_canonical(),
    {
        match self {
            Natural::Small(_) => {}
            Natural::Large(xs) => {
                let ghost orig = xs@;
                while xs.len() > 0 && xs[xs.len() - 1] == 0
                    invariant
                        limbs_val(xs@) == limbs_val(orig),
                    decreases xs@.len(),
                {
                    proof {
                        lemma_val_drop_trailing_zeros(xs@, xs@.len() - 1);
                    }
                    xs.pop();
                }
            }
        }
        self.demote_if_small();
    }

    /// The value zero.
    pub fn zero() -> (r: Natural)
        ensures
            r@ == 0,
            r.is_canonical(),
            r == Natural::Small(0u32),
    {
        Natural::Small(0)
    }

    /// The value one.
    pub fn one() -> (r: Natural)
        ensures
            r@ == 1,
            r.is_canonical(),
            r == Natural::Small(1u32),
    {
        Natural::Small(1)
    }

    /// The value two.
    pub fn two() -> (r: Natural)
        ensures
            r@ == 2,
            r.is_canonical(),
            r == Natural::Small(2u32),
    {
        Natural::Small(2)
    }

    /// Builds a `Natural` from limbs in ascending order of significance,
    /// taking ownership. Trailing zeros are accepted and trimmed.
    pub fn from_owned_limbs_asc(xs: Vec<u32>) -> (r: Natural)
        ensures
            r@ == limbs_val(xs@),
            r.is_canonical(),
    {
        let mut n = Natural::Large(xs);
        n.trim();
        n
    }

    /// Builds a `Natural` from a borrowed slice of limbs in ascending order.
    pub fn from_limbs_asc(xs: &[u32]) -> (r: Natural)
        ensures
            r@ == limbs_val(xs@),
            r.is_canonical(),
    {
        let mut v: Vec<u32> = Vec::new();
        let n = xs.len();
        let mut i: usize = 0;
        while i < n
            invariant
                0 <= i <= n,
                n == xs@.len(),
                v@ =~= xs@.take(i as int),
            decreases n - i,
        {
            v.push(xs[i]);
            i = i + 1;
        }
        proof {
            assert(v@ =~= xs@);
        }
        Natural::from_owned_limbs_asc(v)
    }

    /// Builds a `Natural` from limbs in descending order of significance,
    /// taking ownership.
    pub fn from_owned_limbs_desc(mut xs: Vec<u32>) -> (r: Natural)
        ensures
            r@ == limbs_val(xs@.reverse()),
            r.is_canonical(),
    {
        crate::slices::reverse_in_place(&mut xs);
        Natural::from_owned_limbs_asc(xs)
    }

    /// Builds a `Natural` from a borrowed slice of limbs in descending order.
    pub fn from_limbs_desc(xs: &[u32]) -> (r: Natural)
        ensures
            r@ == limbs_val(xs@.reverse()),
            r.is_canonical(),
    {
        let mut v: Vec<u32> = Vec::new();
        let n = xs.len();
        let mut i: usize = 0;
        while i < n
            invariant
                0 <= i <= n,
                n == xs@.len(),
                v@ =~= xs@.take(i as int),
            decreases n - i,
        {
            v.push(xs[i]);
            i = i + 1;
        }
        proof {
            assert(v@ =~= xs@);
        }
        Natural::from_owned_limbs_desc(v)
    }

    /// The limbs of `self` in ascending order of significance, with no
    /// trailing zeros; zero has no limbs.
    pub fn to_limbs_asc(&self) -> (r: Vec<u32>)
        requires
            self.is_canonical(),
        ensures
            limbs_val(r@) == self@,
            r@.len() > 0 ==> r@[r@.len() - 1] != 0,
            self@ == 0 ==> r@.len() == 0,
            r@.len() <= self.spec_limb_len(),
    {
        let mut v: Vec<u32> = Vec::new();
        match self {
            Natural::Small(x) => {
                if *x != 0 {
                    v.push(*x);
                    proof {
                        assert(v@.skip(1).len() == 0);
                        assert(limbs_val(v@) == *x as nat + crate::model::base() * limbs_val(
                            v@.skip(1),
                        ));
                    }
                }
            }
            Natural::Large(xs) => {
                let n = xs.len();
                let mut i: usize = 0;
                while i < n
                    invariant
                        0 <= i <= n,
                        n == xs@.len(),
                        v@ =~= xs@.take(i as int),
                    decreases n - i,
                {
                    v.push(xs[i]);
                    i = i + 1;
                }
                proof {
                    assert(v@ =~= xs@);
                    if limbs_val(xs@) == 0 {
                        lemma_val_zero_all_zero(xs@);
                    }
                }
            }
        }
        v
    }

    /// The limbs of `self` in descending order of significance, with no
    /// leading zeros; zero has no limbs.
    pub fn to_limbs_desc(&self) -> (r: Vec<u32>)
        requires
            self.is_canonical(),
        ensures
            limbs_val(r@.reverse()) == self@,
            r@.len() > 0 ==> r@[0] != 0,
            self@ == 0 ==> r@.len() == 0,
    {
        let mut v = self.to_limbs_asc();
        let ghost pre = v@;
        crate::slices::reverse_in_place(&mut v);
        proof {
            assert(v@.reverse() =~= pre);
        }
        v
    }
}

impl Clone for Natural {
    /// An exact structural copy.
    fn clone(&self) -> (r: Natural)
        ensures
            r@ == self@,
            spec_struct_eq(&r, self),
            r.is_canonical() <==> self.is_canonical(),
    {
        match self {
            Natural::Small(x) => Natural::Small(*x),
            Natural::Large(xs) => {
                let mut v: Vec<u32> = Vec::new();
                let n = xs.len();
                let mut i: usize = 0;
                while i < n
                    invariant
                        0 <= i <= n,
                        n == xs@.len(),
                        v@ =~= xs@.take(i as int),
                    decreases n - i,
                {
                    v.push(xs[i]);
                    i = i + 1;
                }
                proof {
                    assert(v@ =~= xs@);
                }
                Natural::Large(v)
            }
        }
    }
}

/// Structural equality of two representations: same variant, same limbs.
pub open spec fn spec_struct_eq(a: &Natural, b: &Natural) -> bool {
    match (a, b) {
        (Natural::Small(x), Natural::Small(y)) => x == y,
        (Natural::Large(xs), Natural::Large(ys)) => xs@ == ys@,
        _ => false,
    }
}

impl Natural {
    /// Structural equality, limb by limb.
    #[verifier::loop_isolation(false)]
    pub(crate) fn eq_limbwise(&self, other: &Natural) -> (r: bool)
        ensures
            r == spec_struct_eq(self, other),
    {
        match (self, other) {
            (Natural::Small(x), Natural::Small(y)) => *x == *y,
            (Natural::Large(xs), Natural::Large(ys)) => {
                if xs.len() != ys.len() {
                    proof {
                        assert(xs@.len() != ys@.len());
                    }
                    false
                } else {
                    let n = xs.len();
                    let mut i: usize = 0;
                    let mut same = true;
                    while i < n
                        invariant
                            0 <= i <= n,
                            same ==> forall|j: int| 0 <= j < i ==> xs@[j] == ys@[j],
                            !same ==> xs@ != ys@,
                        decreases n - i,
                    {
                        if xs[i] != ys[i] {
                            proof {
                                if xs@ == ys@ {
                                    assert(xs@[i as int] == ys@[i as int]);
                                }
                            }
                            same = false;
                        }
                        i = i + 1;
                    }
                    proof {
                        if same {
                            assert(xs@ =~= ys@);
                        }
                    }
                    same
                }
            }
            _ => false,
        }
    }
}

impl PartialEq for Natural {
    /// Structural equality; on canonical values this coincides with equality
    /// of the denoted numbers.
    fn eq(&self, other: &Natural) -> (r: bool)
        ensures
            r == spec_struct_eq(self, other),
    {
        self.eq_limbwise(other)
    }
}

impl vstd::std_specs::cmp::PartialEqSpecImpl for Natural {
    open spec fn obeys_eq_spec() -> bool {
        true
    }

    open spec fn eq_spec(&self, other: &Natural) -> bool {
        spec_struct_eq(self, other)
    }
}

impl Eq for Natural {

}

/// On canonical values, structural equality agrees with equality of values:
/// the canonical representation of a number is unique.
pub proof fn lemma_canonical_eq(a: Natural, b: Natural)
    requires
        a.is_canonical(),
        b.is_canonical(),
    ensures
        spec_struct_eq(&a, &b) <==> a@ == b@,
{
    match (a, b) {
        (Natural::Small(x), Natural::Small(y)) => {}
        (Natural::Small(x), Natural::Large(ys)) => {
            lemma_large_canonical_big(ys@);
        }
        (Natural::Large(xs), Natural::Small(y)) => {
            lemma_large_canonical_big(xs@);
        }
        (Natural::Large(xs), Natural::Large(ys)) => {
            if limbs_val(xs@) == limbs_val(ys@) {
                lemma_canonical_same_len(xs@, ys@);
                lemma_val_injective(xs@, ys@);
            }
        }
    }
}

/// A canonical `Large` sequence denotes a value of at least the limb base.
pub(crate) proof fn lemma_large_canonical_big(s: Seq<u32>)
    requires
        s.len() > 1,
        s[s.len() - 1] != 0,
    ensures
        limbs_val(s) >= crate::model::base(),
    decreases s.len(),
{
    if s.len() == 2 {
        assert(limbs_val(s.skip(1)) == s[1] as nat + crate::model::base() * limbs_val(
            s.skip(1).skip(1),
        ));
        assert(limbs_val(s.skip(1)) >= 1);
        assert(crate::model::base() * limbs_val(s.skip(1)) >= crate::model::base() * 1)
            by (nonlinear_arith)
            requires
                limbs_val(s.skip(1)) >= 1,
        ;
    } else {
        assert(s.skip(1)[s.skip(1).len() - 1] == s[s.len() - 1]);
        lemma_large_canonical_big(s.skip(1));
        assert(crate::model::base() * limbs_val(s.skip(1)) >= crate::model::base()
            * crate::model::base()) by (nonlinear_arith)
            requires
                limbs_val(s.skip(1)) >= crate::model::base(),
        ;
        assert(crate::model::base() * crate::model::base() >= crate::model::base())
            by (nonlinear_arith);
    }
}

/// Two canonical large sequences with the same value have the same length.
pub(crate) proof fn lemma_canonical_same_len(a: Seq<u32>, b: Seq<u32>)
    requires
        a.len() > 1,
        a[a.len() - 1] != 0,
        b.len() > 1,
        b[b.len() - 1] != 0,
        limbs_val(a) == limbs_val(b),
    ensures
        a.len() == b.len(),
{
    if a.len() < b.len() {
        lemma_val_bound(a);
        lemma_min_val_of_nonzero_top(b);
        crate::model::lemma_bpow_increases(a.len(), (b.len() - 1) as nat);
    } else if b.len() < a.len() {
        lemma_val_bound(b);
        lemma_min_val_of_nonzero_top(a);
        crate::model::lemma_bpow_increases(b.len(), (a.len() - 1) as nat);
    }
}

/// A sequence with nonzero top limb denotes at least the top limb's weight.
pub(crate) proof fn lemma_min_val_of_nonzero_top(s: Seq<u32>)
    requires
        s.len() > 0,
        s[s.len() - 1] != 0,
    ensures
        limbs_val(s) >= crate::model::bpow((s.len() - 1) as nat),
{
    let k = s.len() - 1;
    crate::model::lemma_val_split(s, k);
    assert(s.skip(k)[0] == s[k]);
    assert(limbs_val(s.skip(k)) >= 1);
    assert(crate::model::bpow(k as nat) * limbs_val(s.skip(k)) >= crate::model::bpow(k as nat) * 1)
        by (nonlinear_arith)
        requires
            limbs_val(s.skip(k)) >= 1,
    ;
}

} // verus!
