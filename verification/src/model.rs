//! The mathematical model of limb sequences.
//!
//! A sequence of limbs, least-significant first, denotes the natural number
//! [`limbs_val`]. All contracts in this crate are stated in terms of this
//! value function and powers of the limb base [`bpow`].

use vstd::prelude::*;

verus! {

/// The limb base, 2 to the number of bits in a limb, as a spec-level value.
pub open spec fn base() -> nat {
    0x1_0000_0000
}

/// `base()` raised to the power `k`: the weight of the limb at index `k`.
pub open spec fn bpow(k: nat) -> nat
    decreases k,
{
    if k == 0 {
        1
    } else {
        base() * bpow((k - 1) as nat)
    }
}

/// The natural number denoted by a limb sequence, least-significant first.
pub open spec fn limbs_val(s: Seq<u32>) -> nat
    decreases s.len(),
{
    if s.len() == 0 {
        0
    } else {
        s[0] as nat + base() * limbs_val(s.skip(1))
    }
}

pub proof fn lemma_mul_comm(a: nat, b: nat)
    ensures
        a * b == b * a,
{
    assert(a * b == b * a) by (nonlinear_arith);
}

pub proof fn lemma_mul_distrib(a: nat, b: nat, c: nat)
    ensures
        a * (b + c) == a * b + a * c,
        (b + c) * a == b * a + c * a,
{
    assert(a * (b + c) == a * b + a * c && (b + c) * a == b * a + c * a) by (nonlinear_arith);
}

pub proof fn lemma_mul_zero(a: nat)
    ensures
        a * 0 == 0,
        0 * a == 0,
{
    assert(a * 0 == 0 && 0 * a == 0) by (nonlinear_arith);
}

pub proof fn lemma_mul_le(a: nat, b: nat, c: nat)
    requires
        b <= c,
    ensures
        a * b <= a * c,
        b * a <= c * a,
{
    assert(a * b <= a * c && b * a <= c * a) by (nonlinear_arith)
        requires
            b <= c,
    ;
}

pub proof fn lemma_bpow_pos(k: nat)
    ensures
        bpow(k) >= 1,
    decreases k,
{
    if k > 0 {
        lemma_bpow_pos((k - 1) as nat);
    }
}

pub proof fn lemma_bpow_adds(j: nat, k: nat)
    ensures
        bpow(j + k) == bpow(j) * bpow(k),
    decreases j,
{
    if j == 0 {
        assert(bpow(k) == 1 * bpow(k)) by (nonlinear_arith);
    } else {
        lemma_bpow_adds((j - 1) as nat, k);
        assert(base() * (bpow((j - 1) as nat) * bpow(k)) == (base() * bpow((j - 1) as nat))
            * bpow(k)) by (nonlinear_arith);
    }
}

pub proof fn lemma_bpow_increases(j: nat, k: nat)
    requires
        j <= k,
    ensures
        bpow(j) <= bpow(k),
    decreases k,
{
    if j < k {
        lemma_bpow_increases(j, (k - 1) as nat);
        lemma_bpow_pos((k - 1) as nat);
        assert(base() * bpow((k - 1) as nat) >= 1 * bpow((k - 1) as nat)) by (nonlinear_arith)
            requires
                bpow((k - 1) as nat) >= 1,
        ;
    }
}

/// The value of a limb sequence is bounded by the weight just past its end.
pub proof fn lemma_val_bound(s: Seq<u32>)
    ensures
        limbs_val(s) < bpow(s.len()),
    decreases s.len(),
{
    if s.len() == 0 {
    } else {
        lemma_val_bound(s.skip(1));
        assert(limbs_val(s.skip(1)) + 1 <= bpow((s.len() - 1) as nat));
        assert(base() * (limbs_val(s.skip(1)) + 1) <= base() * bpow((s.len() - 1) as nat))
            by (nonlinear_arith)
            requires
                limbs_val(s.skip(1)) + 1 <= bpow((s.len() - 1) as nat),
        ;
    }
}

/// Appending a limb at the top adds its weighted value.
pub proof fn lemma_val_push(s: Seq<u32>, x: u32)
    ensures
        limbs_val(s.push(x)) == limbs_val(s) + x * bpow(s.len()),
    decreases s.len(),
{
    if s.len() == 0 {
        assert(s.push(x).skip(1) =~= Seq::<u32>::empty());
        assert(x * 1 == x) by (nonlinear_arith);
        assert(s.push(x)[0] == x);
        assert(limbs_val(s.push(x).skip(1)) == 0);
        assert(limbs_val(s.push(x)) == s.push(x)[0] as nat + base() * limbs_val(s.push(x).skip(1)));
        assert(limbs_val(s.push(x)) == x as nat);
        assert(limbs_val(s) == 0);
        assert(limbs_val(s) + x * bpow(s.len()) == x as nat);
    } else {
        assert(s.push(x).skip(1) =~= s.skip(1).push(x));
        lemma_val_push(s.skip(1), x);
        let v1 = limbs_val(s.skip(1));
        let w = bpow((s.len() - 1) as nat);
        assert(s.push(x)[0] == s[0]);
        assert(limbs_val(s.push(x)) == s[0] as nat + base() * (v1 + x * w));
        assert(base() * (v1 + x * w) == base() * v1 + x * (base() * w)) by (nonlinear_arith);
        assert(bpow(s.len()) == base() * w);
    }
}

/// A limb sequence splits at any index into low and high parts.
pub proof fn lemma_val_split(s: Seq<u32>, k: int)
    requires
        0 <= k <= s.len(),
    ensures
        limbs_val(s) == limbs_val(s.take(k)) + bpow(k as nat) * limbs_val(s.skip(k)),
    decreases k,
{
    if k == 0 {
        assert(s.take(0) =~= Seq::<u32>::empty());
        assert(s.skip(0) =~= s);
        assert(1 * limbs_val(s) == limbs_val(s)) by (nonlinear_arith);
    } else {
        lemma_val_split(s.skip(1), k - 1);
        assert(s.take(k).skip(1) =~= s.skip(1).take(k - 1));
        assert(s.skip(k) =~= s.skip(1).skip(k - 1));
        let a = limbs_val(s.skip(1).take(k - 1));
        let b = limbs_val(s.skip(1).skip(k - 1));
        let w = bpow((k - 1) as nat);
        assert(base() * (a + w * b) == base() * a + (base() * w) * b) by (nonlinear_arith);
    }
}

/// The limb of `s` at index `i`, reading zero past the end: the shorter
/// operand of a limb-sequence operation is conceptually zero-extended.
pub open spec fn limb_at(s: Seq<u32>, i: int) -> u32 {
    if 0 <= i < s.len() {
        s[i]
    } else {
        0
    }
}

/// The value of the first `i` limbs of `s`, reading zero past the end.
pub open spec fn val_pref(s: Seq<u32>, i: int) -> nat {
    if 0 <= i <= s.len() {
        limbs_val(s.take(i))
    } else if i > s.len() {
        limbs_val(s)
    } else {
        0
    }
}

/// Extending a prefix by one limb adds that limb's weighted value.
pub proof fn lemma_val_pref_step(s: Seq<u32>, i: int)
    requires
        i >= 0,
    ensures
        val_pref(s, i + 1) == val_pref(s, i) + limb_at(s, i) * bpow(i as nat),
{
    if i < s.len() {
        assert(s.take(i + 1) =~= s.take(i).push(s[i]));
        lemma_val_push(s.take(i), s[i]);
    } else {
        if i == s.len() {
            assert(s.take(i) =~= s);
        }
        assert(limb_at(s, i) == 0);
        assert(0 * bpow(i as nat) == 0) by (nonlinear_arith);
    }
}

/// Once the prefix covers the whole sequence its value is the full value.
pub proof fn lemma_val_pref_all(s: Seq<u32>, i: int)
    requires
        i >= s.len(),
    ensures
        val_pref(s, i) == limbs_val(s),
{
    if i == s.len() {
        assert(s.take(i) =~= s);
    }
}

/// The low limbs are the value modulo their weight.
pub proof fn lemma_val_take_mod(s: Seq<u32>, k: int)
    requires
        0 <= k <= s.len(),
    ensures
        limbs_val(s.take(k)) as int == limbs_val(s) as int % (bpow(k as nat) as int),
{
    lemma_val_split(s, k);
    lemma_val_bound(s.take(k));
    lemma_bpow_pos(k as nat);
    lemma_mul_comm(bpow(k as nat), limbs_val(s.skip(k)));
    vstd::arithmetic::div_mod::lemma_fundamental_div_mod_converse(
        limbs_val(s) as int,
        bpow(k as nat) as int,
        limbs_val(s.skip(k)) as int,
        limbs_val(s.take(k)) as int,
    );
}

/// A sequence with a nonzero limb denotes a positive value.
pub proof fn lemma_val_pos(s: Seq<u32>, p: int)
    requires
        0 <= p < s.len(),
        s[p] != 0,
    ensures
        limbs_val(s) > 0,
{
    lemma_val_split(s, p);
    assert(s.skip(p)[0] == s[p]);
    assert(limbs_val(s.skip(p)) == s[p] as nat + base() * limbs_val(s.skip(p).skip(1)));
    lemma_bpow_pos(p as nat);
    lemma_mul_le(bpow(p as nat), 1, limbs_val(s.skip(p)));
    assert(bpow(p as nat) * 1 == bpow(p as nat)) by (nonlinear_arith);
}

/// A sequence of zero limbs denotes zero.
pub proof fn lemma_val_of_zeros(s: Seq<u32>)
    requires
        forall|i: int| 0 <= i < s.len() ==> s[i] == 0,
    ensures
        limbs_val(s) == 0,
    decreases s.len(),
{
    if s.len() > 0 {
        lemma_val_of_zeros(s.skip(1));
    }
}

/// Conversely, a sequence denoting zero is all zeros.
pub proof fn lemma_val_zero_all_zero(s: Seq<u32>)
    requires
        limbs_val(s) == 0,
    ensures
        forall|i: int| 0 <= i < s.len() ==> s[i] == 0,
    decreases s.len(),
{
    if s.len() > 0 {
        assert(s[0] == 0);
        assert(limbs_val(s.skip(1)) == 0) by (nonlinear_arith)
            requires
                s[0] as nat + base() * limbs_val(s.skip(1)) == 0,
        ;
        lemma_val_zero_all_zero(s.skip(1));
        assert forall|i: int| 0 <= i < s.len() implies s[i] == 0 by {
            if i > 0 {
                assert(s[i] == s.skip(1)[i - 1]);
            }
        }
    }
}

/// Dropping trailing zero limbs does not change the value.
pub proof fn lemma_val_drop_trailing_zeros(s: Seq<u32>, k: int)
    requires
        0 <= k <= s.len(),
        forall|i: int| k <= i < s.len() ==> s[i] == 0,
    ensures
        limbs_val(s) == limbs_val(s.take(k)),
{
    lemma_val_split(s, k);
    assert(forall|i: int| 0 <= i < s.skip(k).len() ==> s.skip(k)[i] == 0);
    lemma_val_of_zeros(s.skip(k));
    assert(bpow(k as nat) * 0 == 0) by (nonlinear_arith);
}

/// Two sequences of the same length and the same value are equal.
pub proof fn lemma_val_injective(a: Seq<u32>, b: Seq<u32>)
    requires
        a.len() == b.len(),
        limbs_val(a) == limbs_val(b),
    ensures
        a =~= b,
    decreases a.len(),
{
    if a.len() > 0 {
        let va = limbs_val(a.skip(1));
        let vb = limbs_val(b.skip(1));
        assert(a[0] as nat + base() * va == b[0] as nat + base() * vb);
        assert(a[0] == b[0] && va == vb) by (nonlinear_arith)
            requires
                a[0] < base() && b[0] < base(),
                a[0] as nat + base() * va == b[0] as nat + base() * vb,
        ;
        lemma_val_injective(a.skip(1), b.skip(1));
        assert(a =~= seq![a[0]] + a.skip(1));
        assert(b =~= seq![b[0]] + b.skip(1));
    }
}

} // verus!
