//! Selection and shaping of candidate test inputs.
//!
//! Each function here decides whether a candidate value drawn from some
//! source belongs to a named input class, or reshapes it into the class —
//! multiplying in a divisor to force divisibility, reducing modulo a power
//! of two, and so on. The classes mirror the preconditions of the limb-level
//! operations. Where a value is drawn from makes no difference here: these
//! functions are verified for every candidate.

use vstd::prelude::*;

use vstd::arithmetic::power2::pow2;

use crate::model::bpow;
use crate::model::limbs_val;
use crate::mul::spec_mul_limb_len;
use crate::mul::limbs_mul_limb;
use crate::mul::limbs_mul;
use crate::bit_access::clear_bit_neg_val;

verus! {

/// The smaller of the largest values of two unsigned types, given as the
/// bound on an exhaustive pair source.
pub fn unsigned_pair_gen_var_5_limit(t_max: u64, u_max: u64) -> (r: u64)
    ensures
        r == if t_max <= u_max {
            t_max
        } else {
            u_max
        },
{
    if t_max <= u_max {
        t_max
    } else {
        u_max
    }
}

/// An odd limb from an arbitrary half-width seed.
pub fn odd_limbs(u: u32) -> (r: u32)
    requires
        u < 0x8000_0000,
    ensures
        r == 2 * u + 1,
        r % 2 == 1,
{
    2 * u + 1
}

/// Every character but the smallest.
pub fn chars_not_min(c: char) -> (r: bool)
    ensures
        r <==> c != '\u{0}',
{
    c != '\u{0}'
}

/// Every character but the largest.
pub fn chars_not_max(c: char) -> (r: bool)
    ensures
        r <==> c != '\u{10ffff}',
{
    c != '\u{10ffff}'
}

/// Shapes a nonempty limb sequence into one that denotes a multiple of 3.
pub fn vecs_of_limb_var_4(limbs: &Vec<u32>) -> (r: Option<Vec<u32>>)
    ensures
        match r {
            Some(v) => limbs@.len() > 0 && limbs_val(v@) == 3 * limbs_val(limbs@),
            None => limbs@.len() == 0,
        },
{
    if limbs.len() == 0 {
        return None;
    }
    let v = limbs_mul_limb(limbs.as_slice(), 3);
    proof {
        crate::model::lemma_mul_comm(limbs_val(limbs@), 3);
    }
    Some(v)
}

/// Shapes an output buffer and an input into a pair where the input denotes
/// a nonzero multiple of 3 that fits in the buffer.
pub fn pairs_of_limb_vec_var_8(out: Vec<u32>, in_limbs: &Vec<u32>) -> (r: Option<(Vec<u32>, Vec<
    u32,
>)>)
    ensures
        match r {
            Some(p) => {
                &&& p.0@ == out@
                &&& limbs_val(p.1@) == limbs_val(in_limbs@) * 3
                &&& p.0@.len() >= p.1@.len()
                &&& p.1@.len() > 0
            },
            None => in_limbs@.len() == 0 || out@.len() < spec_mul_limb_len(in_limbs@, 3),
        },
{
    if in_limbs.len() == 0 {
        return None;
    }
    let prod = limbs_mul_limb(in_limbs.as_slice(), 3);
    if out.len() >= prod.len() {
        Some((out, prod))
    } else {
        None
    }
}

/// Shapes a dividend and divisor into inputs of an exact division: the
/// divisor keeps its nonzero top limb and the dividend becomes their
/// product, kept only when its top limb is nonzero.
pub fn pairs_of_limb_vec_var_15(ns: &Vec<u32>, ds: &Vec<u32>) -> (r: Option<(Vec<u32>, Vec<u32>)>)
    requires
        ns@.len() >= 1,
        ds@.len() >= 1,
        ns@.len() + ds@.len() <= usize::MAX,
    ensures
        match r {
            Some(p) => {
                &&& limbs_val(p.0@) == limbs_val(ns@) * limbs_val(ds@)
                &&& p.0@.len() > 0 && p.0@[p.0@.len() - 1] != 0
                &&& p.1@ == ds@
                &&& ds@[ds@.len() - 1] != 0
            },
            None => true,
        },
{
    if ds[ds.len() - 1] == 0 {
        return None;
    }
    let mut new_ns = limbs_mul(ns.as_slice(), ds.as_slice());
    if new_ns[new_ns.len() - 1] == 0 {
        proof {
            crate::model::lemma_val_drop_trailing_zeros(new_ns@, new_ns@.len() - 1);
        }
        new_ns.pop();
    }
    if new_ns.len() == 0 {
        return None;
    }
    if new_ns[new_ns.len() - 1] == 0 {
        return None;
    }
    Some((new_ns, ds.clone()))
}

/// The same shaping as an exact-division pair, without the final top-limb
/// check.
pub fn pairs_of_limb_vec_var_16(ns: &Vec<u32>, ds: &Vec<u32>) -> (r: Option<(Vec<u32>, Vec<u32>)>)
    requires
        ns@.len() >= 1,
        ds@.len() >= 1,
        ns@.len() + ds@.len() <= usize::MAX,
    ensures
        match r {
            Some(p) => {
                &&& limbs_val(p.0@) == limbs_val(ns@) * limbs_val(ds@)
                &&& p.1@ == ds@
                &&& ds@[ds@.len() - 1] != 0
            },
            None => ds@[ds@.len() - 1] == 0,
        },
{
    if ds[ds.len() - 1] == 0 {
        return None;
    }
    let mut new_ns = limbs_mul(ns.as_slice(), ds.as_slice());
    if new_ns[new_ns.len() - 1] == 0 {
        proof {
            crate::model::lemma_val_drop_trailing_zeros(new_ns@, new_ns@.len() - 1);
        }
        new_ns.pop();
    }
    Some((new_ns, ds.clone()))
}

/// Whether the second and third sequences are nonzero and the first is at
/// least as long as the second.
pub fn triples_of_limb_vec_var_5(xs: &Vec<u32>, ys: &Vec<u32>, zs: &Vec<u32>) -> (r: bool)
    ensures
        r <==> xs@.len() >= ys@.len() && limbs_val(ys@) > 0 && limbs_val(zs@) > 0,
{
    xs.len() >= ys.len() && !crate::slices::slice_test_zero(ys.as_slice())
        && !crate::slices::slice_test_zero(zs.as_slice())
}

/// Whether the second and third sequences are nonzero and the first is at
/// least as long as the third.
pub fn triples_of_limb_vec_var_6(xs: &Vec<u32>, ys: &Vec<u32>, zs: &Vec<u32>) -> (r: bool)
    ensures
        r <==> xs@.len() >= zs@.len() && limbs_val(ys@) > 0 && limbs_val(zs@) > 0,
{
    xs.len() >= zs.len() && !crate::slices::slice_test_zero(ys.as_slice())
        && !crate::slices::slice_test_zero(zs.as_slice())
}

/// Whether the second and third sequences are nonzero and the first is at
/// least as long as both.
pub fn triples_of_limb_vec_var_7(xs: &Vec<u32>, ys: &Vec<u32>, zs: &Vec<u32>) -> (r: bool)
    ensures
        r <==> xs@.len() >= ys@.len() && xs@.len() >= zs@.len() && limbs_val(ys@) > 0 && limbs_val(
            zs@,
        ) > 0,
{
    xs.len() >= ys.len() && xs.len() >= zs.len() && !crate::slices::slice_test_zero(ys.as_slice())
        && !crate::slices::slice_test_zero(zs.as_slice())
}

/// Whether the second and third sequences are nonzero and the first is at
/// least as long as one of them.
pub fn triples_of_limb_vec_var_8(xs: &Vec<u32>, ys: &Vec<u32>, zs: &Vec<u32>) -> (r: bool)
    ensures
        r <==> (xs@.len() >= ys@.len() || xs@.len() >= zs@.len()) && limbs_val(ys@) > 0
            && limbs_val(zs@) > 0,
{
    (xs.len() >= ys.len() || xs.len() >= zs.len()) && !crate::slices::slice_test_zero(
        ys.as_slice(),
    ) && !crate::slices::slice_test_zero(zs.as_slice())
}

/// Shapes a quotient buffer, dividend and divisor into division inputs: the
/// divisor keeps its nonzero top limb, the dividend becomes the exact
/// product, and the buffer must hold the quotient.
pub fn triples_of_limb_vec_var_53(out: &Vec<u32>, ns: &Vec<u32>, ds: &Vec<u32>) -> (r: Option<
    (Vec<u32>, Vec<u32>, Vec<u32>),
>)
    requires
        ns@.len() >= 1,
        ds@.len() >= 1,
        ns@.len() + ds@.len() <= usize::MAX,
    ensures
        match r {
            Some(t) => {
                &&& t.0@ == out@
                &&& limbs_val(t.1@) == limbs_val(ns@) * limbs_val(ds@)
                &&& t.1@.len() > 0 && t.1@[t.1@.len() - 1] != 0
                &&& t.2@ == ds@
                &&& ds@[ds@.len() - 1] != 0
                &&& t.0@.len() + t.2@.len() >= t.1@.len() + 1
            },
            None => true,
        },
{
    if out.len() < ns.len() {
        return None;
    }
    if ds[ds.len() - 1] == 0 {
        return None;
    }
    match pairs_of_limb_vec_var_15(ns, ds) {
        Some((new_ns, ds2)) => {
            if out.len() as u128 + ds.len() as u128 >= new_ns.len() as u128 + 1 {
                Some((out.clone(), new_ns, ds2))
            } else {
                None
            }
        }
        None => None,
    }
}

/// Shapes a congruence triple: the first sequence becomes `X * M + Y`, which
/// is congruent to `Y` modulo `M`.
pub fn triples_of_limb_vec_var_56(xs: &Vec<u32>, ys: &Vec<u32>, ms: &Vec<u32>) -> (r: (
    Vec<u32>,
    Vec<u32>,
    Vec<u32>,
))
    requires
        xs@.len() + ms@.len() <= usize::MAX,
        ms@.len() >= 1,
    ensures
        limbs_val(r.0@) == limbs_val(xs@) * limbs_val(ms@) + limbs_val(ys@),
        r.1@ == ys@,
        r.2@ == ms@,
{
    let mut product: Vec<u32> = Vec::new();
    if xs.len() > 0 {
        product = limbs_mul(xs.as_slice(), ms.as_slice());
        if product[product.len() - 1] == 0 {
            proof {
                crate::model::lemma_val_drop_trailing_zeros(product@, product@.len() - 1);
            }
            product.pop();
        }
    } else {
        proof {
            crate::model::lemma_mul_zero(limbs_val(ms@));
        }
    }
    crate::add::limbs_vec_add_in_place_left(&mut product, ys.as_slice());
    (product, ys.clone(), ms.clone())
}

/// Whether the first two sequences are incongruent modulo the third.
pub fn triples_of_limb_vec_var_57(xs: &Vec<u32>, ys: &Vec<u32>, ms: &Vec<u32>) -> (r: bool)
    requires
        limbs_val(ms@) > 0,
    ensures
        r <==> (limbs_val(xs@) as int % (limbs_val(ms@) as int)) != (limbs_val(ys@) as int % (
        limbs_val(ms@) as int)),
{
    !crate::eq_mod::limbs_eq_mod_ref_ref_ref(xs.as_slice(), ys.as_slice(), ms.as_slice())
}

/// Shapes a congruence triple with the first sequence congruent to the
/// negative of the second: `X * M - Y`, when it is positive with a nonzero
/// top limb.
pub fn triples_of_limb_vec_var_58(xs: &Vec<u32>, ys: &Vec<u32>, ms: &Vec<u32>) -> (r: Option<
    (Vec<u32>, Vec<u32>, Vec<u32>),
>)
    requires
        xs@.len() + ms@.len() <= usize::MAX,
        ms@.len() >= 1,
    ensures
        match r {
            Some(t) => {
                &&& limbs_val(t.0@) == limbs_val(xs@) * limbs_val(ms@) - limbs_val(ys@)
                &&& t.0@.len() > 0 && t.0@[t.0@.len() - 1] != 0
                &&& t.1@ == ys@
                &&& t.2@ == ms@
            },
            None => true,
        },
{
    let mut product: Vec<u32> = Vec::new();
    if xs.len() > 0 {
        product = limbs_mul(xs.as_slice(), ms.as_slice());
        if product[product.len() - 1] == 0 {
            proof {
                crate::model::lemma_val_drop_trailing_zeros(product@, product@.len() - 1);
            }
            product.pop();
        }
    } else {
        proof {
            crate::model::lemma_mul_zero(limbs_val(ms@));
        }
    }
    if product.len() < ys.len() {
        return None;
    }
    let borrow = crate::sub::limbs_sub_in_place_left(&mut product, ys.as_slice());
    if borrow {
        return None;
    }
    if product.len() == 0 {
        return None;
    }
    if product[product.len() - 1] == 0 {
        return None;
    }
    Some((product, ys.clone(), ms.clone()))
}

/// Whether the first sequence is incongruent to the negative of the second
/// modulo the third: whether `M` does not divide `X + Y`.
pub fn triples_of_limb_vec_var_59(xs: &Vec<u32>, ys: &Vec<u32>, ms: &Vec<u32>) -> (r: bool)
    requires
        limbs_val(ms@) > 0,
    ensures
        r <==> (limbs_val(xs@) + limbs_val(ys@)) as int % (limbs_val(ms@) as int) != 0,
{
    let sum = crate::add::limbs_add(xs.as_slice(), ys.as_slice());
    let m = crate::natural::Natural::from_limbs_asc(ms.as_slice());
    let s = crate::natural::Natural::from_owned_limbs_asc(sum);
    let (q, rem) = s.div_mod(&m);
    proof {
        crate::div::lemma_div_mod_round_trip(s@, m@, q@, rem@);
    }
    !rem.is_zero()
}

/// Whether the output buffer covers the input and the limb divides the
/// largest limb value.
pub fn quadruples_of_limb_vec_limb_vec_limb_and_limb_var_3(
    out: &Vec<u32>,
    xs: &Vec<u32>,
    d: u32,
    carry: u32,
) -> (r: bool)
    ensures
        r <==> out@.len() >= xs@.len() && d != 0 && 0xffff_ffffu32 % d == 0,
{
    out.len() >= xs.len() && d != 0 && 0xffff_ffffu32 % d == 0
}

/// Shapes a sequence and a positive limb into a pair whose sequence denotes
/// a nonzero multiple of the limb.
pub fn pairs_of_limb_vec_and_positive_limb_var_2(limbs: &Vec<u32>, limb: u32) -> (r: Option<
    (Vec<u32>, u32),
>)
    requires
        limb > 0,
    ensures
        match r {
            Some(p) => {
                &&& limbs@.len() > 0
                &&& limbs_val(p.0@) == limbs_val(limbs@) * limb
                &&& p.1 == limb
            },
            None => limbs@.len() == 0,
        },
{
    if limbs.len() == 0 {
        return None;
    }
    Some((limbs_mul_limb(limbs.as_slice(), limb), limb))
}

/// Whether the index falls among the bits of the sequence.
pub fn pairs_of_limb_vec_and_small_u64_var_2(limbs: &Vec<u32>, index: u64) -> (r: bool)
    ensures
        r <==> index < 32 * limbs@.len(),
{
    let len64 = limbs.len() as u64;
    index / 32 < len64
}

/// Whether clearing bit `index` of the negation leaves the limb count
/// unchanged.
pub fn pairs_of_limb_vec_and_small_u64_var_3(limbs: &Vec<u32>, index: u64) -> (r: bool)
    requires
        limbs_val(limbs@) > 0,
        index / 32 + limbs@.len() + 2 <= usize::MAX,
    ensures
        r <==> clear_bit_neg_val(limbs_val(limbs@), index as nat) < bpow(limbs@.len()),
{
    let mut mut_limbs = limbs.clone();
    crate::bit_access::limbs_vec_clear_bit_neg(&mut mut_limbs, index);
    mut_limbs.len() == limbs.len()
}

/// Whether some bit is set.
#[verifier::loop_isolation(false)]
pub fn vecs_of_bool_var_1(bits: &Vec<bool>) -> (r: bool)
    ensures
        r <==> exists|i: int| 0 <= i < bits@.len() && bits@[i],
{
    let n = bits.len();
    let mut i: usize = 0;
    while i < n
        invariant
            0 <= i <= n,
            n == bits@.len(),
            forall|j: int| 0 <= j < i ==> !bits@[j],
        decreases n - i,
    {
        if bits[i] {
            return true;
        }
        i = i + 1;
    }
    false
}

/// Whether the bits, least significant first, fit a `width`-bit unsigned
/// value.
#[verifier::loop_isolation(false)]
pub fn vecs_of_bool_var_2(bits: &Vec<bool>, width: usize) -> (r: bool)
    ensures
        r <==> (bits@.len() <= width || forall|i: int| width <= i < bits@.len() ==> !bits@[i]),
{
    let n = bits.len();
    if n <= width {
        return true;
    }
    let mut i: usize = width;
    while i < n
        invariant
            width <= i <= n,
            n == bits@.len(),
            forall|j: int| width <= j < i ==> !bits@[j],
        decreases n - i,
    {
        if bits[i] {
            return false;
        }
        i = i + 1;
    }
    true
}

/// Whether the bits, least significant first, fit a `width`-bit signed
/// value: a trailing false pads a non-negative value, trailing trues a
/// negative one.
#[verifier::loop_isolation(false)]
pub fn vecs_of_bool_var_3(bits: &Vec<bool>, width: usize) -> (r: bool)
    requires
        width >= 1,
    ensures
        r <==> (bits@.len() == 0 || (!bits@[bits@.len() - 1] && (bits@.len() < width || forall|
            i: int,
        |
            width - 1 <= i < bits@.len() ==> !bits@[i])) || (bits@[bits@.len() - 1] && bits@.len()
            - count_trailing_trues(bits@) < width)),
{
    let n = bits.len();
    if n == 0 {
        return true;
    }
    if !bits[n - 1] {
        if n < width {
            return true;
        }
        let mut i: usize = width - 1;
        while i < n
            invariant
                width - 1 <= i <= n,
                n == bits@.len(),
                forall|j: int| width - 1 <= j < i ==> !bits@[j],
            decreases n - i,
        {
            if bits[i] {
                return false;
            }
            i = i + 1;
        }
        true
    } else {
        let t = trailing_trues(bits);
        n - t < width
    }
}

/// The number of consecutive set bits at the top of the sequence.
pub open spec fn count_trailing_trues(s: Seq<bool>) -> nat
    decreases s.len(),
{
    if s.len() == 0 || !s.last() {
        0
    } else {
        1 + count_trailing_trues(s.drop_last())
    }
}

/// Counts the consecutive set bits at the top of the sequence.
#[verifier::loop_isolation(false)]
fn trailing_trues(bits: &Vec<bool>) -> (r: usize)
    ensures
        r == count_trailing_trues(bits@),
        r <= bits@.len(),
{
    let n = bits.len();
    let mut i: usize = n;
    proof {
        assert(bits@.take(n as int) =~= bits@);
    }
    while i > 0 && bits[i - 1]
        invariant
            0 <= i <= n,
            n == bits@.len(),
            count_trailing_trues(bits@) == count_trailing_trues(bits@.take(i as int)) + (n - i),
        decreases i,
    {
        proof {
            assert(bits@.take(i as int).last());
            assert(bits@.take(i as int).drop_last() =~= bits@.take(i - 1));
        }
        i = i - 1;
    }
    proof {
        if i == 0 {
            assert(bits@.take(0).len() == 0);
        } else {
            assert(!bits@.take(i as int).last());
        }
    }
    n - i
}

/// Whether the bits, most significant first, fit a `width`-bit unsigned
/// value.
#[verifier::loop_isolation(false)]
pub fn vecs_of_bool_var_4(bits: &Vec<bool>, width: usize) -> (r: bool)
    ensures
        r <==> (bits@.len() <= width || forall|i: int|
            0 <= i < bits@.len() - width ==> !bits@[i]),
{
    let n = bits.len();
    if n <= width {
        return true;
    }
    let mut i: usize = 0;
    while i < n - width
        invariant
            0 <= i <= n - width,
            n == bits@.len(),
            n > width,
            forall|j: int| 0 <= j < i ==> !bits@[j],
        decreases n - width - i,
    {
        if bits[i] {
            return false;
        }
        i = i + 1;
    }
    true
}

/// Whether the bits, most significant first, fit a `width`-bit signed value.
#[verifier::loop_isolation(false)]
pub fn vecs_of_bool_var_5(bits: &Vec<bool>, width: usize) -> (r: bool)
    requires
        width >= 1,
    ensures
        r <==> (bits@.len() == 0 || (!bits@[bits@.len() - 1] && (bits@.len() < width || forall|
            i: int,
        |
            0 <= i < bits@.len() - width + 1 ==> !bits@[i])) || (bits@[bits@.len() - 1]
            && bits@.len() - count_leading_trues(bits@) < width)),
{
    let n = bits.len();
    if n == 0 {
        return true;
    }
    if !bits[n - 1] {
        if n < width {
            return true;
        }
        let mut i: usize = 0;
        while i < n - width + 1
            invariant
                0 <= i <= n - width + 1,
                n == bits@.len(),
                n >= width,
                forall|j: int| 0 <= j < i ==> !bits@[j],
            decreases n - width + 1 - i,
        {
            if bits[i] {
                return false;
            }
            i = i + 1;
        }
        true
    } else {
        let t = leading_trues(bits);
        n - t < width
    }
}

/// The number of consecutive set bits at the front of the sequence.
pub open spec fn count_leading_trues(s: Seq<bool>) -> nat
    decreases s.len(),
{
    if s.len() == 0 || !s[0] {
        0
    } else {
        1 + count_leading_trues(s.drop_first())
    }
}

/// Counts the consecutive set bits at the front of the sequence.
#[verifier::loop_isolation(false)]
fn leading_trues(bits: &Vec<bool>) -> (r: usize)
    ensures
        r == count_leading_trues(bits@),
        r <= bits@.len(),
{
    let n = bits.len();
    let mut i: usize = 0;
    proof {
        assert(bits@.skip(0) =~= bits@);
    }
    while i < n && bits[i]
        invariant
            0 <= i <= n,
            n == bits@.len(),
            count_leading_trues(bits@) == i + count_leading_trues(bits@.skip(i as int)),
        decreases n - i,
    {
        proof {
            assert(bits@.skip(i as int)[0] == bits@[i as int]);
            assert(bits@.skip(i as int).drop_first() =~= bits@.skip(i + 1));
        }
        i = i + 1;
    }
    proof {
        if i < n {
            assert(bits@.skip(i as int)[0] == bits@[i as int]);
        } else {
            assert(bits@.skip(i as int).len() == 0);
        }
    }
    i
}


/// A limb reduced modulo `2^pow`.
fn limb_mod_power_of_2(y: u32, pow: u64) -> (r: u32)
    ensures
        r as int == y as int % (pow2(pow as nat) as int),
{
    if pow >= 32 {
        proof {
            crate::logic::lemma_base_pow2();
            if 32 < pow as nat {
                vstd::arithmetic::power2::lemma_pow2_strictly_increases(32, pow as nat);
            }
            vstd::arithmetic::power2::lemma_pow2_pos(pow as nat);
            vstd::arithmetic::div_mod::lemma_small_mod(y as nat, pow2(pow as nat));
        }
        y
    } else {
        let mask = crate::shift::limb_pow2(pow as u32) - 1;
        proof {
            vstd::bits::lemma_u32_low_bits_mask_is_mod(y, pow as nat);
        }
        y & mask
    }
}

/// Shapes a congruence triple modulo a limb: the first sequence becomes
/// `X * m + Y`, congruent to `Y` modulo `m`.
pub fn triples_of_limb_vec_limb_vec_and_limb_var_9(xs: &Vec<u32>, ys: &Vec<u32>, m: u32) -> (r: (
    Vec<u32>,
    Vec<u32>,
    u32,
))
    ensures
        limbs_val(r.0@) == limbs_val(xs@) * m + limbs_val(ys@),
        r.1@ == ys@,
        r.2 == m,
{
    let mut product = limbs_mul_limb(xs.as_slice(), m);
    if product.len() > 0 && product[product.len() - 1] == 0 {
        proof {
            crate::model::lemma_val_drop_trailing_zeros(product@, product@.len() - 1);
        }
        product.pop();
    }
    crate::add::limbs_vec_add_in_place_left(&mut product, ys.as_slice());
    (product, ys.clone(), m)
}

/// Whether the first two sequences are incongruent modulo the limb.
pub fn triples_of_limb_vec_limb_vec_and_limb_var_10(xs: &Vec<u32>, ys: &Vec<u32>, m: u32) -> (r:
    bool)
    requires
        m >= 1,
    ensures
        r <==> (limbs_val(xs@) as int % (m as int)) != (limbs_val(ys@) as int % (m as int)),
{
    !crate::eq_mod::limbs_eq_mod_limb_ref_ref(xs.as_slice(), ys.as_slice(), m)
}

/// Shapes a triple with the first sequence congruent to the negative of the
/// second modulo the limb: `X * m - Y`, when positive with a nonzero top
/// limb.
pub fn triples_of_limb_vec_limb_vec_and_limb_var_11(xs: &Vec<u32>, ys: &Vec<u32>, m: u32) -> (r:
    Option<(Vec<u32>, Vec<u32>, u32)>)
    ensures
        match r {
            Some(t) => {
                &&& limbs_val(t.0@) == limbs_val(xs@) * m - limbs_val(ys@)
                &&& t.0@.len() > 0 && t.0@[t.0@.len() - 1] != 0
                &&& t.1@ == ys@
                &&& t.2 == m
            },
            None => true,
        },
{
    let mut product = limbs_mul_limb(xs.as_slice(), m);
    if product.len() > 0 && product[product.len() - 1] == 0 {
        proof {
            crate::model::lemma_val_drop_trailing_zeros(product@, product@.len() - 1);
        }
        product.pop();
    }
    if product.len() < ys.len() {
        return None;
    }
    let borrow = crate::sub::limbs_sub_in_place_left(&mut product, ys.as_slice());
    if borrow {
        return None;
    }
    if product.len() == 0 || product[product.len() - 1] == 0 {
        return None;
    }
    Some((product, ys.clone(), m))
}

/// Whether the first sequence is incongruent to the negative of the second
/// modulo the limb: whether `m` does not divide `X + Y`.
pub fn triples_of_limb_vec_limb_vec_and_limb_var_12(xs: &Vec<u32>, ys: &Vec<u32>, m: u32) -> (r:
    bool)
    requires
        m >= 1,
    ensures
        r <==> (limbs_val(xs@) + limbs_val(ys@)) as int % (m as int) != 0,
{
    let sum = crate::add::limbs_add(xs.as_slice(), ys.as_slice());
    let rem = crate::eq_mod::limbs_mod_limb(sum.as_slice(), m);
    rem != 0
}

/// Reduces both sequences modulo `2^pow`.
pub fn triples_of_limb_vec_limb_vec_and_u64_var_13(xs: Vec<u32>, ys: Vec<u32>, pow: u64) -> (r: (
    Vec<u32>,
    Vec<u32>,
    u64,
))
    ensures
        limbs_val(r.0@) as int == limbs_val(xs@) as int % (pow2(pow as nat) as int),
        limbs_val(r.1@) as int == limbs_val(ys@) as int % (pow2(pow as nat) as int),
        r.0@.len() == xs@.len(),
        r.1@.len() == ys@.len(),
        r.2 == pow,
{
    let mut xs = xs;
    let mut ys = ys;
    crate::mod_power_of_two::limbs_slice_mod_power_of_two_in_place(&mut xs, pow);
    crate::mod_power_of_two::limbs_slice_mod_power_of_two_in_place(&mut ys, pow);
    (xs, ys, pow)
}

/// Orders a reduced pair so the longer sequence comes first.
pub fn triples_of_limb_vec_limb_vec_and_u64_var_14(xs: Vec<u32>, ys: Vec<u32>, pow: u64) -> (r: (
    Vec<u32>,
    Vec<u32>,
    u64,
))
    ensures
        r.0@.len() >= r.1@.len(),
        (r.0@ == xs@ && r.1@ == ys@) || (r.0@ == ys@ && r.1@ == xs@),
        r.2 == pow,
{
    if xs.len() >= ys.len() {
        (xs, ys, pow)
    } else {
        (ys, xs, pow)
    }
}

/// Whether neither sequence has a trailing zero limb.
pub fn triples_of_limb_vec_limb_vec_and_u64_var_15(xs: &Vec<u32>, ys: &Vec<u32>, pow: u64) -> (r:
    bool)
    ensures
        r <==> (xs@.len() == 0 || xs@[xs@.len() - 1] != 0) && (ys@.len() == 0 || ys@[ys@.len()
            - 1] != 0),
{
    (xs.len() == 0 || xs[xs.len() - 1] != 0) && (ys.len() == 0 || ys[ys.len() - 1] != 0)
}

/// Whether both sequences are nonempty with nonzero top limbs.
pub fn triples_of_limb_vec_limb_vec_and_u64_var_16(xs: &Vec<u32>, ys: &Vec<u32>, pow: u64) -> (r:
    bool)
    ensures
        r <==> xs@.len() > 0 && ys@.len() > 0 && xs@[xs@.len() - 1] != 0 && ys@[ys@.len() - 1]
            != 0,
{
    xs.len() > 0 && ys.len() > 0 && xs[xs.len() - 1] != 0 && ys[ys.len() - 1] != 0
}

/// Shapes an output buffer and an input into a triple whose input denotes a
/// nonzero multiple of the positive limb and fits in the buffer.
pub fn triples_of_limb_vec_limb_vec_and_positive_limb_var_2(
    out: Vec<u32>,
    in_limbs: &Vec<u32>,
    limb: u32,
) -> (r: Option<(Vec<u32>, Vec<u32>, u32)>)
    requires
        limb > 0,
    ensures
        match r {
            Some(t) => {
                &&& t.0@ == out@
                &&& limbs_val(t.1@) == limbs_val(in_limbs@) * limb
                &&& t.0@.len() >= t.1@.len()
                &&& t.1@.len() > 0
                &&& t.2 == limb
            },
            None => in_limbs@.len() == 0 || out@.len() < spec_mul_limb_len(in_limbs@, limb),
        },
{
    if in_limbs.len() == 0 {
        return None;
    }
    let prod = limbs_mul_limb(in_limbs.as_slice(), limb);
    if out.len() >= prod.len() {
        Some((out, prod, limb))
    } else {
        None
    }
}

/// Reduces the sequence and the limb modulo `2^pow`.
pub fn triples_of_limb_vec_limb_and_u64_var_1(xs: Vec<u32>, y: u32, pow: u64) -> (r: (
    Vec<u32>,
    u32,
    u64,
))
    ensures
        limbs_val(r.0@) as int == limbs_val(xs@) as int % (pow2(pow as nat) as int),
        r.1 as int == y as int % (pow2(pow as nat) as int),
        r.0@.len() == xs@.len(),
        r.2 == pow,
{
    let mut xs = xs;
    crate::mod_power_of_two::limbs_slice_mod_power_of_two_in_place(&mut xs, pow);
    let y2 = limb_mod_power_of_2(y, pow);
    (xs, y2, pow)
}

/// Reduces the sequence and the limb modulo `2^pow`, for nonempty sequences.
pub fn triples_of_limb_vec_limb_and_u64_var_2(xs: Vec<u32>, y: u32, pow: u64) -> (r: Option<
    (Vec<u32>, u32, u64),
>)
    ensures
        match r {
            Some(t) => {
                &&& limbs_val(t.0@) as int == limbs_val(xs@) as int % (pow2(pow as nat) as int)
                &&& t.1 as int == y as int % (pow2(pow as nat) as int)
                &&& t.0@.len() == xs@.len()
                &&& t.0@.len() > 0
                &&& t.2 == pow
            },
            None => xs@.len() == 0,
        },
{
    if xs.len() == 0 {
        return None;
    }
    Some(triples_of_limb_vec_limb_and_u64_var_1(xs, y, pow))
}

/// Whether the first limb is incongruent to the negative of the second
/// modulo the sequence's value.
pub fn triples_of_limb_limb_and_limb_vec_var_2(x: u32, y: u32, ms: &Vec<u32>) -> (r: bool)
    requires
        limbs_val(ms@) > 0,
    ensures
        r <==> (x + y) as int % (limbs_val(ms@) as int) != 0,
{
    let s: u64 = x as u64 + y as u64;
    let sn = crate::natural::Natural::from_u64(s);
    let m = crate::natural::Natural::from_limbs_asc(ms.as_slice());
    let (q, rem) = sn.div_mod(&m);
    proof {
        crate::div::lemma_div_mod_round_trip(sn@, m@, q@, rem@);
    }
    !rem.is_zero()
}

/// Shapes a sequence, a limb and a positive limb into a triple whose
/// sequence is congruent to the limb modulo the positive limb, and at least
/// two limbs long.
pub fn triples_of_limb_vec_limb_and_positive_limb_var_3(limbs: &Vec<u32>, limb: u32, m: u32) -> (r:
    Option<(Vec<u32>, u32, u32)>)
    requires
        m > 0,
    ensures
        match r {
            Some(t) => {
                &&& limbs_val(t.0@) == limbs_val(limbs@) * m + limb
                &&& t.0@.len() > 1
                &&& t.1 == limb
                &&& t.2 == m
            },
            None => true,
        },
{
    let mut p = limbs_mul_limb(limbs.as_slice(), m);
    if p.len() > 0 && p[p.len() - 1] == 0 {
        proof {
            crate::model::lemma_val_drop_trailing_zeros(p@, p@.len() - 1);
        }
        p.pop();
    }
    crate::add::limbs_vec_add_limb_in_place(&mut p, limb);
    if p.len() > 1 {
        Some((p, limb, m))
    } else {
        None
    }
}

/// Whether the sequence's value is incongruent to the limb modulo the
/// positive limb.
pub fn triples_of_limb_vec_limb_and_positive_limb_var_4(limbs: &Vec<u32>, limb: u32, m: u32) -> (r:
    bool)
    requires
        m > 0,
    ensures
        r <==> (limbs_val(limbs@) as int % (m as int)) != (limb as int % (m as int)),
{
    !crate::eq_mod::limbs_eq_limb_mod_limb(limbs.as_slice(), limb, m)
}

/// Shapes a congruence triple modulo a sequence: the first sequence becomes
/// `X * M + y`, congruent to `y` modulo `M`.
pub fn triples_of_limb_vec_limb_and_limb_vec_var_2(xs: &Vec<u32>, y: u32, ms: &Vec<u32>) -> (r: (
    Vec<u32>,
    u32,
    Vec<u32>,
))
    requires
        xs@.len() + ms@.len() <= usize::MAX,
        ms@.len() >= 1,
    ensures
        limbs_val(r.0@) == limbs_val(xs@) * limbs_val(ms@) + y,
        r.1 == y,
        r.2@ == ms@,
{
    let mut product: Vec<u32> = Vec::new();
    if xs.len() > 0 {
        product = limbs_mul(xs.as_slice(), ms.as_slice());
        if product[product.len() - 1] == 0 {
            proof {
                crate::model::lemma_val_drop_trailing_zeros(product@, product@.len() - 1);
            }
            product.pop();
        }
    } else {
        proof {
            crate::model::lemma_mul_zero(limbs_val(ms@));
        }
    }
    crate::add::limbs_vec_add_limb_in_place(&mut product, y);
    (product, y, ms.clone())
}

/// Whether the sequence's value is incongruent to the limb modulo the
/// second sequence's value.
pub fn triples_of_limb_vec_limb_and_limb_vec_var_3(xs: &Vec<u32>, y: u32, ms: &Vec<u32>) -> (r:
    bool)
    requires
        limbs_val(ms@) > 0,
    ensures
        r <==> (limbs_val(xs@) as int % (limbs_val(ms@) as int)) != (y as int % (limbs_val(
            ms@,
        ) as int)),
{
    !crate::eq_mod::limbs_eq_limb_mod_ref_ref(xs.as_slice(), y, ms.as_slice())
}

/// Shapes a triple whose sequence is congruent to the negative of the limb
/// modulo the second sequence: `X * M - y`, when positive with a nonzero top
/// limb.
pub fn triples_of_limb_vec_limb_and_limb_vec_var_4(xs: &Vec<u32>, y: u32, ms: &Vec<u32>) -> (r:
    Option<(Vec<u32>, u32, Vec<u32>)>)
    requires
        xs@.len() + ms@.len() <= usize::MAX,
        ms@.len() >= 1,
    ensures
        match r {
            Some(t) => {
                &&& limbs_val(t.0@) == limbs_val(xs@) * limbs_val(ms@) - y
                &&& t.0@.len() > 0 && t.0@[t.0@.len() - 1] != 0
                &&& t.1 == y
                &&& t.2@ == ms@
            },
            None => true,
        },
{
    let mut product: Vec<u32> = Vec::new();
    if xs.len() > 0 {
        product = limbs_mul(xs.as_slice(), ms.as_slice());
        if product[product.len() - 1] == 0 {
            proof {
                crate::model::lemma_val_drop_trailing_zeros(product@, product@.len() - 1);
            }
            product.pop();
        }
    } else {
        proof {
            crate::model::lemma_mul_zero(limbs_val(ms@));
        }
    }
    let borrow = crate::sub::limbs_sub_limb_in_place(&mut product, y);
    if borrow {
        return None;
    }
    if product.len() == 0 || product[product.len() - 1] == 0 {
        return None;
    }
    Some((product, y, ms.clone()))
}

/// Whether the sequence is incongruent to the negative of the limb modulo
/// the second sequence: whether `M` does not divide `X + y`.
pub fn triples_of_limb_vec_limb_and_limb_vec_var_5(xs: &Vec<u32>, y: u32, ms: &Vec<u32>) -> (r:
    bool)
    requires
        limbs_val(ms@) > 0,
    ensures
        r <==> (limbs_val(xs@) + y) as int % (limbs_val(ms@) as int) != 0,
{
    let mut sum: Vec<u32> = Vec::new();
    let mut i: usize = 0;
    let n = xs.len();
    while i < n
        invariant
            0 <= i <= n,
            n == xs@.len(),
            sum@ =~= xs@.take(i as int),
        decreases n - i,
    {
        sum.push(xs[i]);
        i = i + 1;
    }
    proof {
        assert(sum@ =~= xs@);
    }
    crate::add::limbs_vec_add_limb_in_place(&mut sum, y);
    let sn = crate::natural::Natural::from_owned_limbs_asc(sum);
    let m = crate::natural::Natural::from_limbs_asc(ms.as_slice());
    let (q, rem) = sn.div_mod(&m);
    proof {
        crate::div::lemma_div_mod_round_trip(sn@, m@, q@, rem@);
    }
    !rem.is_zero()
}

} // verus!
