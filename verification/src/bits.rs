//! The bitwise model: AND, OR and AND-NOT on natural numbers, bit by bit,
//! and signed bitwise operations in terms of them.
//!
//! A signed value is modelled as infinite-precision two's complement: the
//! complement of `x` is `-x - 1`, and the operations on negative values
//! reduce to magnitude-level operations through these identities.

use vstd::prelude::*;

use vstd::arithmetic::power2::pow2;
use vstd::arithmetic::power2::lemma_pow2_pos;

verus! {

/// Bitwise AND of two natural numbers.
pub open spec fn and_nat(a: nat, b: nat) -> nat
    decreases a,
{
    if a == 0 || b == 0 {
        0
    } else {
        (a % 2) * (b % 2) + 2 * and_nat(a / 2, b / 2)
    }
}

/// Bitwise OR of two natural numbers.
pub open spec fn or_nat(a: nat, b: nat) -> nat
    decreases a + b,
{
    if a == 0 {
        b
    } else if b == 0 {
        a
    } else {
        (if a % 2 == 1 || b % 2 == 1 {
            1nat
        } else {
            0nat
        }) + 2 * or_nat(a / 2, b / 2)
    }
}

/// Bitwise AND-NOT: the bits of `a` that are not set in `b`.
pub open spec fn diff_nat(a: nat, b: nat) -> nat
    decreases a,
{
    if a == 0 {
        0
    } else {
        (if a % 2 == 1 && b % 2 == 0 {
            1nat
        } else {
            0nat
        }) + 2 * diff_nat(a / 2, b / 2)
    }
}

/// Bitwise NOT of a signed value in infinite two's complement.
pub open spec fn not_int(x: int) -> int {
    -x - 1
}

/// Bitwise AND of two signed values in infinite two's complement, by sign
/// case over the magnitude-level operations.
pub open spec fn and_int(x: int, y: int) -> int {
    if x >= 0 && y >= 0 {
        and_nat(x as nat, y as nat) as int
    } else if x >= 0 {
        diff_nat(x as nat, (-y - 1) as nat) as int
    } else if y >= 0 {
        diff_nat(y as nat, (-x - 1) as nat) as int
    } else {
        -(or_nat((-x - 1) as nat, (-y - 1) as nat) as int) - 1
    }
}

/// Bitwise OR of two signed values in infinite two's complement, by sign
/// case over the magnitude-level operations.
pub open spec fn or_int(x: int, y: int) -> int {
    if x >= 0 && y >= 0 {
        or_nat(x as nat, y as nat) as int
    } else if x >= 0 {
        -(diff_nat((-y - 1) as nat, x as nat) as int) - 1
    } else if y >= 0 {
        -(diff_nat((-x - 1) as nat, y as nat) as int) - 1
    } else {
        -(and_nat((-x - 1) as nat, (-y - 1) as nat) as int) - 1
    }
}

/// Involution: complementing twice gives the value back.
pub proof fn lemma_not_not(x: int)
    ensures
        not_int(not_int(x)) == x,
{
}

/// De Morgan: the complement of a conjunction is the disjunction of the
/// complements, for every sign combination.
pub proof fn lemma_de_morgan_and(x: int, y: int)
    ensures
        not_int(and_int(x, y)) == or_int(not_int(x), not_int(y)),
{
}

/// De Morgan: the complement of a disjunction is the conjunction of the
/// complements, for every sign combination.
pub proof fn lemma_de_morgan_or(x: int, y: int)
    ensures
        not_int(or_int(x, y)) == and_int(not_int(x), not_int(y)),
{
}

/// AND on naturals is commutative.
pub proof fn lemma_and_nat_comm(a: nat, b: nat)
    ensures
        and_nat(a, b) == and_nat(b, a),
    decreases a + b,
{
    if a != 0 && b != 0 {
        lemma_and_nat_comm(a / 2, b / 2);
    }
}

/// OR on naturals is commutative.
pub proof fn lemma_or_nat_comm(a: nat, b: nat)
    ensures
        or_nat(a, b) == or_nat(b, a),
    decreases a + b,
{
    if a != 0 && b != 0 {
        lemma_or_nat_comm(a / 2, b / 2);
    }
}

/// OR on signed values is commutative, for every sign combination.
pub proof fn lemma_or_int_comm(x: int, y: int)
    ensures
        or_int(x, y) == or_int(y, x),
{
    if x >= 0 && y >= 0 {
        lemma_or_nat_comm(x as nat, y as nat);
    } else if x < 0 && y < 0 {
        lemma_and_nat_comm((-x - 1) as nat, (-y - 1) as nat);
    }
}

/// AND on signed values is commutative, for every sign combination.
pub proof fn lemma_and_int_comm(x: int, y: int)
    ensures
        and_int(x, y) == and_int(y, x),
{
    if x >= 0 && y >= 0 {
        lemma_and_nat_comm(x as nat, y as nat);
    } else if x < 0 && y < 0 {
        lemma_or_nat_comm((-x - 1) as nat, (-y - 1) as nat);
    }
}

/// AND-NOT with an empty mask is the identity.
pub proof fn lemma_diff_nat_zero(a: nat)
    ensures
        diff_nat(a, 0) == a,
    decreases a,
{
    if a != 0 {
        lemma_diff_nat_zero(a / 2);
        vstd::arithmetic::div_mod::lemma_fundamental_div_mod(a as int, 2);
    }
}

/// AND-NOT never exceeds its first operand.
pub proof fn lemma_diff_nat_le(a: nat, b: nat)
    ensures
        diff_nat(a, b) <= a,
    decreases a,
{
    if a != 0 {
        lemma_diff_nat_le(a / 2, b / 2);
        vstd::arithmetic::div_mod::lemma_fundamental_div_mod(a as int, 2);
    }
}

/// AND never exceeds either operand.
pub proof fn lemma_and_nat_le(a: nat, b: nat)
    ensures
        and_nat(a, b) <= a,
        and_nat(a, b) <= b,
    decreases a,
{
    if a != 0 && b != 0 {
        lemma_and_nat_le(a / 2, b / 2);
        vstd::arithmetic::div_mod::lemma_fundamental_div_mod(a as int, 2);
        vstd::arithmetic::div_mod::lemma_fundamental_div_mod(b as int, 2);
        assert((a % 2) * (b % 2) <= a % 2 && (a % 2) * (b % 2) <= b % 2) by (nonlinear_arith)
            requires
                a % 2 <= 1 && b % 2 <= 1,
        ;
    }
}

/// Bitwise AND on limbs agrees with the model.
pub proof fn lemma_limb_and(x: u32, y: u32)
    ensures
        (x & y) as nat == and_nat(x as nat, y as nat),
    decreases x,
{
    if x == 0 || y == 0 {
        assert(x & y == 0) by (bit_vector)
            requires
                x == 0 || y == 0,
        ;
    } else {
        lemma_limb_and(x / 2, y / 2);
        assert(x & y == (x % 2) * (y % 2) + 2 * ((x / 2) & (y / 2))) by (bit_vector);
    }
}

/// Bitwise OR on limbs agrees with the model.
pub proof fn lemma_limb_or(x: u32, y: u32)
    ensures
        (x | y) as nat == or_nat(x as nat, y as nat),
    decreases x + y,
{
    if x == 0 {
        assert(x | y == y) by (bit_vector)
            requires
                x == 0,
        ;
    } else if y == 0 {
        assert(x | y == x) by (bit_vector)
            requires
                y == 0,
        ;
    } else {
        lemma_limb_or(x / 2, y / 2);
        assert(x | y == (if x % 2 == 1 || y % 2 == 1 {
            1u32
        } else {
            0u32
        }) + 2 * ((x / 2) | (y / 2))) by (bit_vector);
    }
}

/// Bitwise AND-NOT on limbs agrees with the model.
pub proof fn lemma_limb_diff(x: u32, y: u32)
    ensures
        (x & !y) as nat == diff_nat(x as nat, y as nat),
    decreases x,
{
    if x == 0 {
        assert(x & !y == 0) by (bit_vector)
            requires
                x == 0,
        ;
    } else {
        lemma_limb_diff(x / 2, y / 2);
        assert(x & !y == (if x % 2 == 1 && y % 2 == 0 {
            1u32
        } else {
            0u32
        }) + 2 * ((x / 2) & !(y / 2))) by (bit_vector);
    }
}

/// A value splits at a power of two into its low bits and high bits, and the
/// bitwise operations split with it.
pub proof fn lemma_and_nat_split(k: nat, a0: nat, a1: nat, b0: nat, b1: nat)
    requires
        a0 < pow2(k),
        b0 < pow2(k),
    ensures
        and_nat(a0 + pow2(k) * a1, b0 + pow2(k) * b1) == and_nat(a0, b0) + pow2(k) * and_nat(
            a1,
            b1,
        ),
    decreases k,
{
    let p = pow2(k);
    lemma_pow2_pos(k);
    if k == 0 {
        vstd::arithmetic::power2::lemma2_to64();
        assert(1 * a1 == a1 && 1 * b1 == b1 && 1 * and_nat(a1, b1) == and_nat(a1, b1))
            by (nonlinear_arith);
    } else {
        vstd::arithmetic::power2::lemma_pow2_unfold(k);
        let q = pow2((k - 1) as nat);
        lemma_pow2_pos((k - 1) as nat);
        let a = a0 + p * a1;
        let b = b0 + p * b1;
        lemma_split_half(k, a0, a1);
        lemma_split_half(k, b0, b1);
        if a == 0 || b == 0 {
            if a == 0 {
                assert(p * a1 == 0 ==> a1 == 0) by (nonlinear_arith)
                    requires
                        p >= 1,
                ;
            }
            if b == 0 {
                assert(p * b1 == 0 ==> b1 == 0) by (nonlinear_arith)
                    requires
                        p >= 1,
                ;
            }
            assert(p * and_nat(a1, b1) == 0) by (nonlinear_arith)
                requires
                    and_nat(a1, b1) == 0,
            ;
        } else {
            lemma_and_nat_split((k - 1) as nat, (a0 / 2) as nat, a1, (b0 / 2) as nat, b1);
            if a0 == 0 || b0 == 0 {
                if a0 == 0 {
                    assert(and_nat(a0, b0) == 0 && a0 % 2 == 0 && a0 / 2 == 0);
                }
                if b0 == 0 {
                    assert(and_nat(a0, b0) == 0 && b0 % 2 == 0 && b0 / 2 == 0);
                }
            }
            assert(and_nat(a0, b0) == (a0 % 2) * (b0 % 2) + 2 * and_nat(a0 / 2, b0 / 2));
            assert(2 * (and_nat((a0 / 2) as nat + q * a1, (b0 / 2) as nat + q * b1)) == 2
                * and_nat(a0 / 2, b0 / 2) + p * and_nat(a1, b1)) by (nonlinear_arith)
                requires
                    and_nat((a0 / 2) as nat + q * a1, (b0 / 2) as nat + q * b1) == and_nat(
                        a0 / 2,
                        b0 / 2,
                    ) + q * and_nat(a1, b1) && p == 2 * q,
            ;
        }
    }
}

/// The split of the half: `(a0 + 2q a1)` has low bit `a0 % 2` and half
/// `a0/2 + q a1`, for `a0 < 2q`.
proof fn lemma_split_half(k: nat, a0: nat, a1: nat)
    requires
        k >= 1,
        a0 < pow2(k),
    ensures
        (a0 + pow2(k) * a1) % 2 == a0 % 2,
        (a0 + pow2(k) * a1) / 2 == a0 / 2 + pow2((k - 1) as nat) * a1,
        a0 + pow2(k) * a1 == 0 ==> a0 == 0,
{
    vstd::arithmetic::power2::lemma_pow2_unfold(k);
    let q = pow2((k - 1) as nat);
    lemma_pow2_pos((k - 1) as nat);
    assert(pow2(k) * a1 == 2 * (q * a1)) by (nonlinear_arith)
        requires
            pow2(k) == 2 * q,
    ;
    let t = q * a1;
    assert((a0 + 2 * t) % 2 == a0 % 2);
    assert((a0 + 2 * t) / 2 == a0 / 2 + t);
}


/// OR splits at a power of two, like AND.
pub proof fn lemma_or_nat_split(k: nat, a0: nat, a1: nat, b0: nat, b1: nat)
    requires
        a0 < pow2(k),
        b0 < pow2(k),
    ensures
        or_nat(a0 + pow2(k) * a1, b0 + pow2(k) * b1) == or_nat(a0, b0) + pow2(k) * or_nat(a1, b1),
    decreases k,
{
    let p = pow2(k);
    lemma_pow2_pos(k);
    if k == 0 {
        vstd::arithmetic::power2::lemma2_to64();
        assert(1 * a1 == a1 && 1 * b1 == b1 && 1 * or_nat(a1, b1) == or_nat(a1, b1))
            by (nonlinear_arith);
    } else {
        vstd::arithmetic::power2::lemma_pow2_unfold(k);
        let q = pow2((k - 1) as nat);
        lemma_pow2_pos((k - 1) as nat);
        let a = a0 + p * a1;
        let b = b0 + p * b1;
        lemma_split_half(k, a0, a1);
        lemma_split_half(k, b0, b1);
        if a == 0 {
            assert(p * a1 == 0 ==> a1 == 0) by (nonlinear_arith)
                requires
                    p >= 1,
            ;
            assert(or_nat(a, b) == b && or_nat(a0, b0) == b0 && or_nat(a1, b1) == b1);
        } else if b == 0 {
            assert(p * b1 == 0 ==> b1 == 0) by (nonlinear_arith)
                requires
                    p >= 1,
            ;
            assert(or_nat(a0, 0) == a0 && or_nat(a1, 0) == a1);
        } else {
            lemma_or_nat_split((k - 1) as nat, (a0 / 2) as nat, a1, (b0 / 2) as nat, b1);
            if a0 == 0 {
                assert(or_nat(a0, b0) == b0 && a0 % 2 == 0 && a0 / 2 == 0);
                assert(or_nat(0, b0) == b0);
                lemma_or_low_unfold(a0, b0);
            } else if b0 == 0 {
                lemma_or_low_unfold(a0, b0);
            } else {
                lemma_or_low_unfold(a0, b0);
            }
            assert(2 * (or_nat((a0 / 2) as nat + q * a1, (b0 / 2) as nat + q * b1)) == 2 * or_nat(
                a0 / 2,
                b0 / 2,
            ) + p * or_nat(a1, b1)) by (nonlinear_arith)
                requires
                    or_nat((a0 / 2) as nat + q * a1, (b0 / 2) as nat + q * b1) == or_nat(
                        a0 / 2,
                        b0 / 2,
                    ) + q * or_nat(a1, b1) && p == 2 * q,
            ;
        }
    }
}

/// OR unfolds one bit even when an operand is zero.
proof fn lemma_or_low_unfold(a0: nat, b0: nat)
    ensures
        or_nat(a0, b0) == (if a0 % 2 == 1 || b0 % 2 == 1 {
            1nat
        } else {
            0nat
        }) + 2 * or_nat(a0 / 2, b0 / 2),
    decreases a0 + b0,
{
    if a0 == 0 && b0 == 0 {
    } else if a0 == 0 {
        lemma_or_zero_left(b0);
        vstd::arithmetic::div_mod::lemma_fundamental_div_mod(b0 as int, 2);
    } else if b0 == 0 {
        lemma_or_zero_left(a0);
        vstd::arithmetic::div_mod::lemma_fundamental_div_mod(a0 as int, 2);
    }
}

/// OR with zero is the identity, on either side.
proof fn lemma_or_zero_left(a: nat)
    ensures
        or_nat(0, a) == a,
        or_nat(a, 0) == a,
{
}

/// AND-NOT splits at a power of two, like AND.
pub proof fn lemma_diff_nat_split(k: nat, a0: nat, a1: nat, b0: nat, b1: nat)
    requires
        a0 < pow2(k),
        b0 < pow2(k),
    ensures
        diff_nat(a0 + pow2(k) * a1, b0 + pow2(k) * b1) == diff_nat(a0, b0) + pow2(k) * diff_nat(
            a1,
            b1,
        ),
    decreases k,
{
    let p = pow2(k);
    lemma_pow2_pos(k);
    if k == 0 {
        vstd::arithmetic::power2::lemma2_to64();
        assert(1 * a1 == a1 && 1 * b1 == b1 && 1 * diff_nat(a1, b1) == diff_nat(a1, b1))
            by (nonlinear_arith);
    } else {
        vstd::arithmetic::power2::lemma_pow2_unfold(k);
        let q = pow2((k - 1) as nat);
        lemma_pow2_pos((k - 1) as nat);
        let a = a0 + p * a1;
        let b = b0 + p * b1;
        lemma_split_half(k, a0, a1);
        lemma_split_half(k, b0, b1);
        if a == 0 {
            assert(p * a1 == 0 ==> a1 == 0) by (nonlinear_arith)
                requires
                    p >= 1,
            ;
            assert(p * diff_nat(a1, b1) == p * 0) by (nonlinear_arith)
                requires
                    diff_nat(a1, b1) == 0,
            ;
            assert(p * 0 == 0) by (nonlinear_arith);
        } else {
            lemma_diff_nat_split((k - 1) as nat, (a0 / 2) as nat, a1, (b0 / 2) as nat, b1);
            lemma_diff_low_unfold(a0, b0);
            assert(2 * (diff_nat((a0 / 2) as nat + q * a1, (b0 / 2) as nat + q * b1)) == 2
                * diff_nat(a0 / 2, b0 / 2) + p * diff_nat(a1, b1)) by (nonlinear_arith)
                requires
                    diff_nat((a0 / 2) as nat + q * a1, (b0 / 2) as nat + q * b1) == diff_nat(
                        a0 / 2,
                        b0 / 2,
                    ) + q * diff_nat(a1, b1) && p == 2 * q,
            ;
        }
    }
}

/// AND-NOT unfolds one bit even when the first operand is zero.
proof fn lemma_diff_low_unfold(a0: nat, b0: nat)
    ensures
        diff_nat(a0, b0) == (if a0 % 2 == 1 && b0 % 2 == 0 {
            1nat
        } else {
            0nat
        }) + 2 * diff_nat(a0 / 2, b0 / 2),
{
    if a0 == 0 {
    }
}

} // verus!
