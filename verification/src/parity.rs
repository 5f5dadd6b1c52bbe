//! Parity queries.

use vstd::prelude::*;

use crate::model::base;
use crate::model::limbs_val;
use crate::natural::Natural;
use crate::integer::Integer;

verus! {

/// The low limb decides parity: the base is even.
proof fn lemma_parity_low_limb(s: Seq<u32>)
    requires
        s.len() > 0,
    ensures
        limbs_val(s) % 2 == s[0] as nat % 2,
{
    assert(limbs_val(s) == s[0] as nat + base() * limbs_val(s.skip(1)));
    let t = limbs_val(s.skip(1)) as int;
    assert(base() * t == 2 * (0x8000_0000 * t)) by (nonlinear_arith);
    vstd::arithmetic::div_mod::lemma_mod_multiples_vanish(0x8000_0000 * t, s[0] as int, 2);
}

/// The parity of a negative value matches the parity of its magnitude.
proof fn lemma_parity_neg(a: nat)
    ensures
        (-(a as int)) % 2 == a % 2,
{
    vstd::arithmetic::div_mod::lemma_fundamental_div_mod(a as int, 2);
    let q = a as int / 2;
    if a % 2 == 0 {
        assert((-q) * 2 + 0 == -(a as int)) by (nonlinear_arith)
            requires
                a as int == 2 * q,
        ;
        vstd::arithmetic::div_mod::lemma_fundamental_div_mod_converse(-(a as int), 2, -q, 0);
    } else {
        assert((-q - 1) * 2 + 1 == -(a as int)) by (nonlinear_arith)
            requires
                a as int == 2 * q + 1,
        ;
        vstd::arithmetic::div_mod::lemma_fundamental_div_mod_converse(-(a as int), 2, -q - 1, 1);
    }
}

impl Natural {
    /// Whether `self` is even.
    pub fn even(&self) -> (r: bool)
        requires
            self.is_canonical(),
        ensures
            r <==> self@ % 2 == 0,
    {
        match self {
            Natural::Small(x) => *x % 2 == 0,
            Natural::Large(xs) => {
                proof {
                    lemma_parity_low_limb(xs@);
                }
                xs[0] % 2 == 0
            }
        }
    }

    /// Whether `self` is odd.
    pub fn odd(&self) -> (r: bool)
        requires
            self.is_canonical(),
        ensures
            r <==> self@ % 2 == 1,
    {
        !self.even()
    }
}

impl Integer {
    /// Whether `self` is even.
    pub fn even(&self) -> (r: bool)
        requires
            self.is_canonical(),
        ensures
            r <==> self@ % 2 == 0,
    {
        proof {
            lemma_parity_neg(self.abs@);
        }
        self.abs.even()
    }

    /// Whether `self` is odd.
    pub fn odd(&self) -> (r: bool)
        requires
            self.is_canonical(),
        ensures
            r <==> self@ % 2 == 1,
    {
        proof {
            lemma_parity_neg(self.abs@);
        }
        self.abs.odd()
    }
}

} // verus!
