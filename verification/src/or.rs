//! Bitwise OR of signed values over sign-magnitude storage.
//!
//! The limb-level functions interpret their operands as magnitudes of
//! positive or negative `Integer`s and compute the magnitude of the OR
//! directly, without materializing a two's-complement buffer:
//!
//! * `|x| of (X | -Y)  == ((Y - 1) & !X) + 1`
//! * `|x| of (-X | -Y) == ((X - 1) & (Y - 1)) + 1`
//!
//! Each function wrap-negates at the first nonzero limb, complements or
//! masks the middle, and leaves the high part to a plain pointwise step; the
//! carry of the trailing `+ 1` is absorbed exactly by the low all-ones limbs
//! of `Y - 1`.

use vstd::prelude::*;

use crate::bits::and_nat;
use crate::bits::diff_nat;
use crate::model::base;
use crate::model::limb_at;
use crate::model::limbs_val;
use crate::logic::lemma_pred_limbs;
use crate::logic::lemma_limbs_diff_seq;
use crate::logic::lemma_limbs_and_seq;
use crate::logic::lemma_plus_one_ripple;

verus! {

/// The magnitude of `X | -Y`, for positive `X` and `Y`.
pub open spec fn or_pos_neg_val(x: nat, y: nat) -> nat
    recommends
        x > 0,
        y > 0,
{
    diff_nat((y - 1) as nat, x) + 1
}

/// The magnitude of `-X | -Y`, for positive `X` and `Y`.
pub open spec fn or_neg_neg_val(x: nat, y: nat) -> nat
    recommends
        x > 0,
        y > 0,
{
    and_nat((x - 1) as nat, (y - 1) as nat) + 1
}

/// The limbs of the predecessor of the value of `ys`, whose first nonzero
/// limb is at index `k`.
pub open spec fn pred_seq(ys: Seq<u32>, k: int) -> Seq<u32> {
    Seq::new(
        ys.len(),
        |j: int|
            if j < k {
                0xffff_ffffu32
            } else if j == k {
                (ys[k] - 1) as u32
            } else {
                ys[j]
            },
    )
}

/// Limb facts used by the sign-combination proofs.
proof fn lemma_or_limb_facts()
    by (bit_vector)
    ensures
        forall|a: u32, b: u32| #[trigger] (a & b) == b & a,
        forall|a: u32, b: u32| #[trigger] (a & b) <= a,
        forall|a: u32| #[trigger] (a & !0u32) == a,
        forall|x: u32| #[trigger] (!x) == 0xffff_ffffu32 - x,
{
}

/// The shape of the limbs of `X | -Y`: zeros up to the lower first-nonzero
/// index, one incremented boundary limb, and the pointwise AND-NOT of
/// `Y - 1` with `X` above. Any limb sequence of that shape denotes
/// `((Y - 1) & !X) + 1`.
pub(crate) proof fn lemma_or_pos_neg_value(xs: Seq<u32>, ys: Seq<u32>, p: int, k: int, r: Seq<u32>)
    requires
        0 <= p < xs.len(),
        forall|j: int| 0 <= j < p ==> xs[j] == 0,
        xs[p] != 0,
        0 <= k < ys.len(),
        forall|j: int| 0 <= j < k ==> ys[j] == 0,
        ys[k] != 0,
        r.len() == ys.len(),
        forall|j: int|
            0 <= j < r.len() && j < (if p <= k {
                p
            } else {
                k
            }) ==> r[j] == 0,
        (if p <= k {
            p
        } else {
            k
        }) < r.len() ==> r[(if p <= k {
            p
        } else {
            k
        })] == (pred_seq(ys, k)[(if p <= k {
            p
        } else {
            k
        })] & !limb_at(xs, (if p <= k {
            p
        } else {
            k
        }))) + 1,
        forall|j: int|
            (if p <= k {
                p
            } else {
                k
            }) < j < r.len() ==> r[j] == (pred_seq(ys, k)[j] & !limb_at(xs, j)),
    ensures
        limbs_val(r) == or_pos_neg_val(limbs_val(xs), limbs_val(ys)),
        limbs_val(xs) > 0,
        limbs_val(ys) > 0,
{
    lemma_or_limb_facts();
    let mm = if p <= k {
        p
    } else {
        k
    };
    let ym = pred_seq(ys, k);
    lemma_pred_limbs(ys, k, ym);
    let c = Seq::new(ys.len(), |i: int| ym[i] & !limb_at(xs, i));
    lemma_limbs_diff_seq(ym, xs, c);
    assert forall|j: int| 0 <= j < mm implies c[j] == 0xffff_ffffu32 by {
        assert(limb_at(xs, j) == 0);
        assert(ym[j] == 0xffff_ffffu32);
        assert(!0u32 == 0xffff_ffffu32) by (bit_vector);
    }
    assert(c[mm] < 0xffff_ffffu32) by {
        if p < k {
            assert(ym[mm] == 0xffff_ffffu32);
            assert(limb_at(xs, mm) == xs[p]);
            assert(c[mm] == ym[mm] & !xs[p]);
            assert(forall|x: u32| x != 0 ==> (0xffff_ffffu32 & !x) < 0xffff_ffffu32)
                by (bit_vector);
        } else if p == k {
            assert(c[mm] == ym[mm] & !xs[p]);
            assert(forall|a: u32, x: u32| x != 0 ==> (a & !x) < 0xffff_ffffu32) by (bit_vector);
        } else {
            assert(limb_at(xs, mm) == 0);
            assert(c[mm] == ym[k] & !0u32);
            assert(ym[k] == (ys[k] - 1) as u32);
        }
    }
    lemma_plus_one_ripple(c, r, mm);
    crate::model::lemma_val_pos(xs, p);
    crate::model::lemma_val_pos(ys, k);
}

/// The shape of the limbs of `-X | -Y`: zeros up to the lower first-nonzero
/// index, one incremented boundary limb, and the pointwise AND of `X - 1`
/// and `Y - 1` above, over the shorter length. Any limb sequence of that
/// shape denotes `((X - 1) & (Y - 1)) + 1`.
pub(crate) proof fn lemma_or_neg_neg_value(xs: Seq<u32>, ys: Seq<u32>, p: int, k: int, r: Seq<u32>)
    requires
        0 <= p < xs.len(),
        forall|j: int| 0 <= j < p ==> xs[j] == 0,
        xs[p] != 0,
        0 <= k < ys.len(),
        forall|j: int| 0 <= j < k ==> ys[j] == 0,
        ys[k] != 0,
        r.len() == if xs.len() <= ys.len() {
            xs.len()
        } else {
            ys.len()
        },
        forall|j: int|
            0 <= j < r.len() && j < (if p <= k {
                p
            } else {
                k
            }) ==> r[j] == 0,
        (if p <= k {
            p
        } else {
            k
        }) < r.len() ==> r[(if p <= k {
            p
        } else {
            k
        })] == (pred_seq(xs, p)[(if p <= k {
            p
        } else {
            k
        })] & pred_seq(ys, k)[(if p <= k {
            p
        } else {
            k
        })]) + 1,
        forall|j: int|
            (if p <= k {
                p
            } else {
                k
            }) < j < r.len() ==> r[j] == (pred_seq(xs, p)[j] & pred_seq(ys, k)[j]),
    ensures
        limbs_val(r) == or_neg_neg_val(limbs_val(xs), limbs_val(ys)),
        limbs_val(xs) > 0,
        limbs_val(ys) > 0,
{
    lemma_or_limb_facts();
    let mm = if p <= k {
        p
    } else {
        k
    };
    let xm = pred_seq(xs, p);
    let ym = pred_seq(ys, k);
    lemma_pred_limbs(xs, p, xm);
    lemma_pred_limbs(ys, k, ym);
    let len = r.len() as int;
    let c = Seq::new(len as nat, |i: int| limb_at(xm, i) & limb_at(ym, i));
    assert forall|i: int| 0 <= i < c.len() implies c[i] == xm[i] & ym[i] by {
        assert(limb_at(xm, i) == xm[i]);
        assert(limb_at(ym, i) == ym[i]);
    }
    lemma_limbs_and_seq(xm, ym, c);
    // The AND of the two predecessors is bounded by the shorter one, so
    // dropping the high limbs of the longer operand loses nothing.
    assert(mm < len) by {
        if p <= k {
            if p >= len {
                assert(ys.len() < xs.len());
                assert(ys[k] != 0 && k < ys.len());
                assert(k >= len && p <= k);
                assert(false);
            }
        }
    }
    assert forall|j: int| 0 <= j < mm implies c[j] == 0xffff_ffffu32 by {
        assert(xm[j] == 0xffff_ffffu32 && ym[j] == 0xffff_ffffu32);
        assert((0xffff_ffffu32 & 0xffff_ffffu32) == 0xffff_ffffu32) by (bit_vector);
    }
    assert(c[mm] < 0xffff_ffffu32) by {
        if p == k {
            assert(c[mm] == xm[p] & ym[p]);
            assert(xm[p] == (xs[p] - 1) as u32);
            assert(forall|a: u32, b: u32| a < 0xffff_ffffu32 ==> (a & b) < 0xffff_ffffu32)
                by (bit_vector);
        } else if p < k {
            assert(c[mm] == xm[p] & ym[p]);
            assert(xm[p] == (xs[p] - 1) as u32);
            assert(forall|a: u32, b: u32| a < 0xffff_ffffu32 ==> (a & b) < 0xffff_ffffu32)
                by (bit_vector);
        } else {
            assert(c[mm] == xm[k] & ym[k]);
            assert(ym[k] == (ys[k] - 1) as u32);
            assert(forall|a: u32, b: u32| b < 0xffff_ffffu32 ==> (a & b) < 0xffff_ffffu32)
                by (bit_vector);
        }
    }
    lemma_plus_one_ripple(c, r, mm);
    crate::model::lemma_val_pos(xs, p);
    crate::model::lemma_val_pos(ys, k);
}


/// Wrap-negates a limb: `2^32 - x` for nonzero `x`, zero for zero.
fn wrapping_neg_limb(x: u32) -> (r: u32)
    ensures
        x == 0 ==> r == 0,
        x != 0 ==> r == 0x1_0000_0000u64 - x,
{
    if x == 0 {
        0
    } else {
        (0xffff_ffffu32 - x) + 1
    }
}

/// Interpreting two limb sequences as the magnitudes of one positive and one
/// negative `Integer`, returns the magnitude limbs of their bitwise OR.
/// Neither input may be empty or all zeros.
#[verifier::loop_isolation(false)]
#[verifier::rlimit(60)]
pub fn limbs_or_pos_neg(xs: &[u32], ys: &[u32]) -> (r: Vec<u32>)
    requires
        limbs_val(xs@) > 0,
        limbs_val(ys@) > 0,
    ensures
        r@.len() == ys@.len(),
        limbs_val(r@) == or_pos_neg_val(limbs_val(xs@), limbs_val(ys@)),
{
    let xs_len = xs.len();
    let ys_len = ys.len();
    let x_i = crate::slices::limbs_leading_zero_limbs(xs);
    let y_i = crate::slices::limbs_leading_zero_limbs(ys);
    proof {
        if x_i == xs_len {
            assert(false);
        }
        if y_i == ys_len {
            assert(false);
        }
        lemma_or_limb_facts();
    }
    let ghost ym = pred_seq(ys@, y_i as int);
    let mut r: Vec<u32> = Vec::new();
    if y_i >= xs_len {
        let mut j: usize = 0;
        while j < x_i
            invariant
                0 <= j <= x_i,
                r@.len() == j,
                forall|t: int| 0 <= t < j ==> r@[t] == 0,
            decreases x_i - j,
        {
            r.push(0);
            j = j + 1;
        }
        r.push(wrapping_neg_limb(xs[x_i]));
        let mut j: usize = x_i + 1;
        while j < xs_len
            invariant
                x_i + 1 <= j <= xs_len,
                r@.len() == j,
                forall|t: int| 0 <= t < x_i ==> r@[t] == 0,
                r@[x_i as int] == 0x1_0000_0000u64 - xs@[x_i as int],
                forall|t: int| x_i < t < j ==> r@[t] == !xs@[t],
            decreases xs_len - j,
        {
            r.push(!xs[j]);
            j = j + 1;
        }
        let mut j: usize = xs_len;
        while j < y_i
            invariant
                xs_len <= j <= y_i,
                r@.len() == j,
                forall|t: int| 0 <= t < x_i ==> r@[t] == 0,
                r@[x_i as int] == 0x1_0000_0000u64 - xs@[x_i as int],
                forall|t: int| x_i < t < xs_len ==> r@[t] == !xs@[t],
                forall|t: int| xs_len <= t < j ==> r@[t] == 0xffff_ffffu32,
            decreases y_i - j,
        {
            r.push(0xffff_ffffu32);
            j = j + 1;
        }
        r.push(ys[y_i] - 1);
        let mut j: usize = y_i + 1;
        while j < ys_len
            invariant
                y_i + 1 <= j <= ys_len,
                r@.len() == j,
                forall|t: int| 0 <= t < x_i ==> r@[t] == 0,
                r@[x_i as int] == 0x1_0000_0000u64 - xs@[x_i as int],
                forall|t: int| x_i < t < xs_len ==> r@[t] == !xs@[t],
                forall|t: int| xs_len <= t < y_i ==> r@[t] == 0xffff_ffffu32,
                r@[y_i as int] == ys@[y_i as int] - 1,
                forall|t: int| y_i < t < j ==> r@[t] == ys@[t],
            decreases ys_len - j,
        {
            r.push(ys[j]);
            j = j + 1;
        }
        proof {
            assert forall|j2: int| x_i < j2 < r@.len() implies r@[j2] == (ym[j2] & !limb_at(
                xs@,
                j2,
            )) by {
                if j2 < xs_len {
                    assert(r@[j2] == !xs@[j2] && ym[j2] == 0xffff_ffffu32);
                    assert(forall|x: u32| (0xffff_ffffu32 & !x) == !x) by (bit_vector);
                } else if j2 < y_i {
                    assert(r@[j2] == 0xffff_ffffu32 && ym[j2] == 0xffff_ffffu32 && limb_at(
                        xs@,
                        j2,
                    ) == 0);
                    assert((0xffff_ffffu32 & !0u32) == 0xffff_ffffu32) by (bit_vector);
                } else if j2 == y_i {
                    assert(limb_at(xs@, j2) == 0);
                } else {
                    assert(limb_at(xs@, j2) == 0 && ym[j2] == ys@[j2]);
                }
            }
            assert(r@[x_i as int] == (ym[x_i as int] & !limb_at(xs@, x_i as int)) + 1) by {
                assert(ym[x_i as int] == 0xffff_ffffu32);
                assert(limb_at(xs@, x_i as int) == xs@[x_i as int]);
                assert(forall|x: u32| (0xffff_ffffu32 & !x) == !x) by (bit_vector);
            }
            lemma_or_pos_neg_value(xs@, ys@, x_i as int, y_i as int, r@);
        }
        return r;
    }
    if x_i >= ys_len {
        let mut j: usize = 0;
        while j < ys_len
            invariant
                0 <= j <= ys_len,
                r@.len() == j,
                forall|t: int| 0 <= t < j ==> r@[t] == ys@[t],
            decreases ys_len - j,
        {
            r.push(ys[j]);
            j = j + 1;
        }
        proof {
            assert forall|j2: int| y_i < j2 < r@.len() implies r@[j2] == (ym[j2] & !limb_at(
                xs@,
                j2,
            )) by {
                assert(limb_at(xs@, j2) == 0 && ym[j2] == ys@[j2]);
            }
            assert(r@[y_i as int] == (ym[y_i as int] & !limb_at(xs@, y_i as int)) + 1) by {
                assert(limb_at(xs@, y_i as int) == 0);
                assert(ym[y_i as int] == (ys@[y_i as int] - 1) as u32);
            }
            lemma_or_pos_neg_value(xs@, ys@, x_i as int, y_i as int, r@);
        }
        return r;
    }
    let min_i = if x_i <= y_i {
        x_i
    } else {
        y_i
    };
    let max_i = if x_i <= y_i {
        y_i
    } else {
        x_i
    };
    let mut j: usize = 0;
    while j < min_i
        invariant
            0 <= j <= min_i,
            r@.len() == j,
            forall|t: int| 0 <= t < j ==> r@[t] == 0,
        decreases min_i - j,
    {
        r.push(0);
        j = j + 1;
    }
    if x_i == y_i {
        r.push((!xs[x_i] & (ys[y_i] - 1)) + 1);
        proof {
            assert(r@[x_i as int] == (ym[x_i as int] & !limb_at(xs@, x_i as int)) + 1) by {
                assert(ym[x_i as int] == (ys@[x_i as int] - 1) as u32);
            }
        }
    } else if x_i > y_i {
        let mut j2: usize = y_i;
        while j2 < x_i
            invariant
                y_i <= j2 <= x_i,
                r@.len() == j2,
                forall|t: int| 0 <= t < y_i ==> r@[t] == 0,
                forall|t: int| y_i <= t < j2 ==> r@[t] == ys@[t],
            decreases x_i - j2,
        {
            r.push(ys[j2]);
            j2 = j2 + 1;
        }
        r.push(!xs[x_i] & ys[x_i]);
    } else {
        r.push(wrapping_neg_limb(xs[x_i]));
        let mut j2: usize = x_i + 1;
        while j2 < y_i
            invariant
                x_i + 1 <= j2 <= y_i,
                r@.len() == j2,
                forall|t: int| 0 <= t < x_i ==> r@[t] == 0,
                r@[x_i as int] == 0x1_0000_0000u64 - xs@[x_i as int],
                forall|t: int| x_i < t < j2 ==> r@[t] == !xs@[t],
            decreases y_i - j2,
        {
            r.push(!xs[j2]);
            j2 = j2 + 1;
        }
        r.push(!xs[y_i] & (ys[y_i] - 1));
    }
    let mut j3: usize = max_i + 1;
    let ghost mid = r@;
    while j3 < ys_len
        invariant
            max_i + 1 <= j3 <= ys_len,
            r@.len() == j3,
            r@.take(max_i + 1) =~= mid,
            mid.len() == max_i + 1,
            forall|t: int| max_i < t < j3 ==> r@[t] == (!limb_at(xs@, t) & ys@[t]),
        decreases ys_len - j3,
    {
        let xv = if j3 < xs_len {
            xs[j3]
        } else {
            0
        };
        r.push(!xv & ys[j3]);
        j3 = j3 + 1;
    }
    proof {
        assert forall|t: int| 0 <= t < r@.len() && t < min_i implies r@[t] == 0 by {
            assert(r@[t] == mid[t]);
        }
        assert forall|t: int| min_i < t < r@.len() implies r@[t] == (ym[t] & !limb_at(
            xs@,
            t,
        )) by {
            if t <= max_i {
                assert(r@[t] == mid[t]);
                if x_i == y_i {
                    assert(false);
                } else if x_i > y_i {
                    if t < x_i {
                        assert(mid[t] == ys@[t] && ym[t] == ys@[t] && limb_at(xs@, t) == 0);
                        assert(forall|a: u32| (a & !0u32) == a) by (bit_vector);
                    } else {
                        assert(t == x_i);
                        assert(mid[t] == (!xs@[t] & ys@[t]) && ym[t] == ys@[t]);
                        assert(forall|a: u32, b: u32| (!a & b) == (b & !a)) by (bit_vector);
                    }
                } else {
                    if t < y_i {
                        assert(mid[t] == !xs@[t] && ym[t] == 0xffff_ffffu32);
                        assert(forall|x: u32| (0xffff_ffffu32 & !x) == !x) by (bit_vector);
                    } else {
                        assert(t == y_i);
                        assert(mid[t] == (!xs@[t] & (ys@[t] - 1) as u32) && ym[t] == (ys@[t]
                            - 1) as u32);
                        assert(forall|a: u32, b: u32| (!a & b) == (b & !a)) by (bit_vector);
                    }
                }
            } else {
                assert(r@[t] == (!limb_at(xs@, t) & ys@[t]) && ym[t] == ys@[t]);
                assert(forall|a: u32, b: u32| (!a & b) == (b & !a)) by (bit_vector);
            }
        }
        assert(r@[min_i as int] == (ym[min_i as int] & !limb_at(xs@, min_i as int)) + 1) by {
            assert(r@[min_i as int] == mid[min_i as int]);
            if x_i == y_i {
            } else if x_i > y_i {
                assert(mid[y_i as int] == ys@[y_i as int]);
                assert(ym[y_i as int] == (ys@[y_i as int] - 1) as u32);
                assert(limb_at(xs@, y_i as int) == 0);
                assert(forall|a: u32| (a & !0u32) == a) by (bit_vector);
            } else {
                assert(mid[x_i as int] == 0x1_0000_0000u64 - xs@[x_i as int]);
                assert(ym[x_i as int] == 0xffff_ffffu32);
                assert(forall|x: u32| (0xffff_ffffu32 & !x) == !x) by (bit_vector);
            }
        }
        lemma_or_pos_neg_value(xs@, ys@, x_i as int, y_i as int, r@);
    }
    r
}


/// Interpreting two limb sequences as the magnitudes of two negative
/// `Integer`s, returns the magnitude limbs of their bitwise OR, one limb per
/// limb of the shorter input. Neither input may be empty or all zeros.
#[verifier::loop_isolation(false)]
#[verifier::rlimit(60)]
pub fn limbs_or_neg_neg(xs: &[u32], ys: &[u32]) -> (r: Vec<u32>)
    requires
        limbs_val(xs@) > 0,
        limbs_val(ys@) > 0,
    ensures
        r@.len() == if xs@.len() <= ys@.len() {
            xs@.len()
        } else {
            ys@.len()
        },
        limbs_val(r@) == or_neg_neg_val(limbs_val(xs@), limbs_val(ys@)),
{
    let xs_len = xs.len();
    let ys_len = ys.len();
    let x_i = crate::slices::limbs_leading_zero_limbs(xs);
    let y_i = crate::slices::limbs_leading_zero_limbs(ys);
    proof {
        if x_i == xs_len {
            assert(false);
        }
        if y_i == ys_len {
            assert(false);
        }
        lemma_or_limb_facts();
    }
    let ghost xm = pred_seq(xs@, x_i as int);
    let ghost ym = pred_seq(ys@, y_i as int);
    let mut r: Vec<u32> = Vec::new();
    if y_i >= xs_len {
        let mut j: usize = 0;
        while j < xs_len
            invariant
                0 <= j <= xs_len,
                r@.len() == j,
                forall|t: int| 0 <= t < j ==> r@[t] == xs@[t],
            decreases xs_len - j,
        {
            r.push(xs[j]);
            j = j + 1;
        }
        proof {
            assert forall|t: int| x_i < t < r@.len() implies r@[t] == (xm[t] & ym[t]) by {
                assert(xm[t] == xs@[t] && ym[t] == 0xffff_ffffu32);
                assert(forall|a: u32| (a & 0xffff_ffffu32) == a) by (bit_vector);
            }
            assert(r@[x_i as int] == (xm[x_i as int] & ym[x_i as int]) + 1) by {
                assert(xm[x_i as int] == (xs@[x_i as int] - 1) as u32);
                assert(ym[x_i as int] == 0xffff_ffffu32);
                assert(forall|a: u32| (a & 0xffff_ffffu32) == a) by (bit_vector);
            }
            lemma_or_neg_neg_value(xs@, ys@, x_i as int, y_i as int, r@);
        }
        return r;
    }
    if x_i >= ys_len {
        let mut j: usize = 0;
        while j < ys_len
            invariant
                0 <= j <= ys_len,
                r@.len() == j,
                forall|t: int| 0 <= t < j ==> r@[t] == ys@[t],
            decreases ys_len - j,
        {
            r.push(ys[j]);
            j = j + 1;
        }
        proof {
            assert forall|t: int| y_i < t < r@.len() implies r@[t] == (xm[t] & ym[t]) by {
                assert(ym[t] == ys@[t] && xm[t] == 0xffff_ffffu32);
                assert(forall|a: u32| (0xffff_ffffu32 & a) == a) by (bit_vector);
            }
            assert(r@[y_i as int] == (xm[y_i as int] & ym[y_i as int]) + 1) by {
                assert(ym[y_i as int] == (ys@[y_i as int] - 1) as u32);
                assert(xm[y_i as int] == 0xffff_ffffu32);
                assert(forall|a: u32| (0xffff_ffffu32 & a) == a) by (bit_vector);
            }
            lemma_or_neg_neg_value(xs@, ys@, x_i as int, y_i as int, r@);
        }
        return r;
    }
    let min_len = if xs_len <= ys_len {
        xs_len
    } else {
        ys_len
    };
    let min_i = if x_i <= y_i {
        x_i
    } else {
        y_i
    };
    let max_i = if x_i <= y_i {
        y_i
    } else {
        x_i
    };
    let mut j: usize = 0;
    while j < min_i
        invariant
            0 <= j <= min_i,
            r@.len() == j,
            forall|t: int| 0 <= t < j ==> r@[t] == 0,
        decreases min_i - j,
    {
        r.push(0);
        j = j + 1;
    }
    if x_i > y_i {
        let mut j2: usize = y_i;
        while j2 < x_i
            invariant
                y_i <= j2 <= x_i,
                r@.len() == j2,
                forall|t: int| 0 <= t < y_i ==> r@[t] == 0,
                forall|t: int| y_i <= t < j2 ==> r@[t] == ys@[t],
            decreases x_i - j2,
        {
            r.push(ys[j2]);
            j2 = j2 + 1;
        }
    } else if y_i > x_i {
        let mut j2: usize = x_i;
        while j2 < y_i
            invariant
                x_i <= j2 <= y_i,
                r@.len() == j2,
                forall|t: int| 0 <= t < x_i ==> r@[t] == 0,
                forall|t: int| x_i <= t < j2 ==> r@[t] == xs@[t],
            decreases y_i - j2,
        {
            r.push(xs[j2]);
            j2 = j2 + 1;
        }
    }
    let boundary = if x_i == y_i {
        ((xs[x_i] - 1) & (ys[y_i] - 1)) + 1
    } else if x_i > y_i {
        (xs[x_i] - 1) & ys[x_i]
    } else {
        xs[y_i] & (ys[y_i] - 1)
    };
    proof {
        if x_i != y_i {
            assert(forall|a: u32, b: u32| b < 0xffff_ffffu32 ==> (a & b) <= b) by (bit_vector);
            assert(forall|a: u32, b: u32| a < 0xffff_ffffu32 ==> (a & b) <= a) by (bit_vector);
        }
    }
    r.push(boundary);
    let ghost mid = r@;
    let mut j3: usize = max_i + 1;
    while j3 < min_len
        invariant
            max_i + 1 <= j3 <= min_len,
            r@.len() == j3,
            r@.take(max_i + 1) =~= mid,
            mid.len() == max_i + 1,
            forall|t: int| max_i < t < j3 ==> r@[t] == (xs@[t] & ys@[t]),
        decreases min_len - j3,
    {
        r.push(xs[j3] & ys[j3]);
        j3 = j3 + 1;
    }
    proof {
        assert forall|t: int| 0 <= t < r@.len() && t < min_i implies r@[t] == 0 by {
            assert(r@[t] == mid[t]);
        }
        assert forall|t: int| min_i < t < r@.len() implies r@[t] == (xm[t] & ym[t]) by {
            if t <= max_i {
                assert(r@[t] == mid[t]);
                if x_i == y_i {
                    assert(false);
                } else if x_i > y_i {
                    if t < x_i {
                        assert(mid[t] == ys@[t] && ym[t] == ys@[t] && xm[t] == 0xffff_ffffu32);
                        assert(forall|a: u32| (0xffff_ffffu32 & a) == a) by (bit_vector);
                    } else {
                        assert(t == x_i);
                        assert(mid[t] == ((xs@[t] - 1) as u32 & ys@[t]));
                        assert(xm[t] == (xs@[t] - 1) as u32 && ym[t] == ys@[t]);
                    }
                } else {
                    if t < y_i {
                        assert(mid[t] == xs@[t] && xm[t] == xs@[t] && ym[t] == 0xffff_ffffu32);
                        assert(forall|a: u32| (a & 0xffff_ffffu32) == a) by (bit_vector);
                    } else {
                        assert(t == y_i);
                        assert(mid[t] == (xs@[t] & (ys@[t] - 1) as u32));
                        assert(xm[t] == xs@[t] && ym[t] == (ys@[t] - 1) as u32);
                    }
                }
            } else {
                assert(r@[t] == (xs@[t] & ys@[t]) && xm[t] == xs@[t] && ym[t] == ys@[t]);
            }
        }
        assert(r@[min_i as int] == (xm[min_i as int] & ym[min_i as int]) + 1) by {
            assert(r@[min_i as int] == mid[min_i as int]);
            if x_i == y_i {
            } else if x_i > y_i {
                assert(mid[y_i as int] == ys@[y_i as int]);
                assert(xm[y_i as int] == 0xffff_ffffu32 && ym[y_i as int] == (ys@[y_i as int]
                    - 1) as u32);
                assert(forall|a: u32| (0xffff_ffffu32 & a) == a) by (bit_vector);
            } else {
                assert(mid[x_i as int] == xs@[x_i as int]);
                assert(ym[x_i as int] == 0xffff_ffffu32 && xm[x_i as int] == (xs@[x_i as int]
                    - 1) as u32);
                assert(forall|a: u32| (a & 0xffff_ffffu32) == a) by (bit_vector);
            }
        }
        lemma_or_neg_neg_value(xs@, ys@, x_i as int, y_i as int, r@);
    }
    r
}

/// Copies `src` over the front of `out`, leaving the rest unchanged.
#[verifier::loop_isolation(false)]
fn copy_prefix(out: &mut Vec<u32>, src: &[u32])
    requires
        old(out)@.len() >= src@.len(),
    ensures
        final(out)@.len() == old(out)@.len(),
        final(out)@.take(src@.len() as int) =~= src@,
        forall|t: int| src@.len() <= t < old(out)@.len() ==> final(out)@[t] == old(out)@[t],
{
    let n = src.len();
    let mut i: usize = 0;
    while i < n
        invariant
            0 <= i <= n,
            out@.len() == old(out)@.len(),
            forall|t: int| 0 <= t < i ==> out@[t] == src@[t],
            forall|t: int| i <= t < old(out)@.len() ==> out@[t] == old(out)@[t],
        decreases n - i,
    {
        out[i] = src[i];
        i = i + 1;
    }
}

/// Writes the magnitude limbs of `X | -Y` to the front of `out`: exactly
/// `ys.len()` limbs, zero-padded above the significant part.
pub fn limbs_or_pos_neg_to_out(out: &mut Vec<u32>, xs: &[u32], ys: &[u32])
    requires
        limbs_val(xs@) > 0,
        limbs_val(ys@) > 0,
        old(out)@.len() >= ys@.len(),
    ensures
        final(out)@.len() == old(out)@.len(),
        limbs_val(final(out)@.take(ys@.len() as int)) == or_pos_neg_val(
            limbs_val(xs@),
            limbs_val(ys@),
        ),
        forall|t: int| ys@.len() <= t < old(out)@.len() ==> final(out)@[t] == old(out)@[t],
{
    let r = limbs_or_pos_neg(xs, ys);
    copy_prefix(out, r.as_slice());
}

/// Writes the magnitude limbs of `X | -Y` over `xs`, which keeps its length.
/// Returns whether the result was too long to fit: then only its lowest
/// `xs.len()` limbs were written.
pub fn limbs_slice_or_pos_neg_in_place_left(xs: &mut Vec<u32>, ys: &[u32]) -> (r: bool)
    requires
        limbs_val(old(xs)@) > 0,
        limbs_val(ys@) > 0,
    ensures
        final(xs)@.len() == old(xs)@.len(),
        r <==> old(xs)@.len() < ys@.len(),
        limbs_val(final(xs)@) as int == or_pos_neg_val(limbs_val(old(xs)@), limbs_val(ys@)) as int
            % (crate::model::bpow(old(xs)@.len()) as int),
        !r ==> limbs_val(final(xs)@) == or_pos_neg_val(limbs_val(old(xs)@), limbs_val(ys@)),
{
    let n = xs.len();
    let res = limbs_or_pos_neg(xs.as_slice(), ys);
    if n < ys.len() {
        let mut i: usize = 0;
        while i < n
            invariant
                0 <= i <= n,
                xs@.len() == n,
                n <= res@.len(),
                forall|t: int| 0 <= t < i ==> xs@[t] == res@[t],
            decreases n - i,
        {
            let v = res[i];
            xs[i] = v;
            i = i + 1;
        }
        proof {
            assert(xs@ =~= res@.take(n as int));
            crate::model::lemma_val_take_mod(res@, n as int);
        }
        true
    } else {
        copy_prefix(xs, res.as_slice());
        let m = res.len();
        let mut i: usize = m;
        while i < n
            invariant
                m <= i <= n,
                xs@.len() == n,
                xs@.take(m as int) =~= res@,
                forall|t: int| m <= t < i ==> xs@[t] == 0,
            decreases n - i,
        {
            xs[i] = 0;
            i = i + 1;
        }
        proof {
            crate::model::lemma_val_drop_trailing_zeros(xs@, m as int);
            crate::model::lemma_val_bound(res@);
            crate::model::lemma_bpow_increases(res@.len(), n as nat);
            vstd::arithmetic::div_mod::lemma_small_mod(
                limbs_val(res@),
                crate::model::bpow(n as nat),
            );
        }
        false
    }
}

/// Replaces `xs` by the magnitude limbs of `X | -Y`, growing or shrinking it
/// to the result's length.
pub fn limbs_vec_or_pos_neg_in_place_left(xs: &mut Vec<u32>, ys: &[u32])
    requires
        limbs_val(old(xs)@) > 0,
        limbs_val(ys@) > 0,
    ensures
        final(xs)@.len() == ys@.len(),
        limbs_val(final(xs)@) == or_pos_neg_val(limbs_val(old(xs)@), limbs_val(ys@)),
{
    let r = limbs_or_pos_neg(xs.as_slice(), ys);
    *xs = r;
}

/// Writes the magnitude limbs of `X | -Y` over `ys`, whose length is exactly
/// the result's length.
pub fn limbs_or_pos_neg_in_place_right(xs: &[u32], ys: &mut Vec<u32>)
    requires
        limbs_val(xs@) > 0,
        limbs_val(old(ys)@) > 0,
    ensures
        final(ys)@.len() == old(ys)@.len(),
        limbs_val(final(ys)@) == or_pos_neg_val(limbs_val(xs@), limbs_val(old(ys)@)),
{
    let r = limbs_or_pos_neg(xs, ys.as_slice());
    *ys = r;
}

/// Writes the magnitude limbs of `-X | -Y` to the front of `out`: exactly
/// `min(xs.len(), ys.len())` limbs.
pub fn limbs_or_neg_neg_to_out(out: &mut Vec<u32>, xs: &[u32], ys: &[u32])
    requires
        limbs_val(xs@) > 0,
        limbs_val(ys@) > 0,
        old(out)@.len() >= xs@.len() || old(out)@.len() >= ys@.len(),
    ensures
        final(out)@.len() == old(out)@.len(),
        limbs_val(
            final(out)@.take(
                if xs@.len() <= ys@.len() {
                    xs@.len() as int
                } else {
                    ys@.len() as int
                },
            ),
        ) == or_neg_neg_val(limbs_val(xs@), limbs_val(ys@)),
        forall|t: int|
            (if xs@.len() <= ys@.len() {
                xs@.len() as int
            } else {
                ys@.len() as int
            }) <= t < old(out)@.len() ==> final(out)@[t] == old(out)@[t],
{
    let r = limbs_or_neg_neg(xs, ys);
    copy_prefix(out, r.as_slice());
}

/// Writes the magnitude limbs of `-X | -Y` over `xs`, which keeps its length
/// and is zero-padded above the result.
pub fn limbs_slice_or_neg_neg_in_place_left(xs: &mut Vec<u32>, ys: &[u32])
    requires
        limbs_val(old(xs)@) > 0,
        limbs_val(ys@) > 0,
    ensures
        final(xs)@.len() == old(xs)@.len(),
        limbs_val(final(xs)@) == or_neg_neg_val(limbs_val(old(xs)@), limbs_val(ys@)),
{
    let res = limbs_or_neg_neg(xs.as_slice(), ys);
    let m = res.len();
    let n = xs.len();
    copy_prefix(xs, res.as_slice());
    let mut i: usize = m;
    while i < n
        invariant
            m <= i <= n,
            xs@.len() == n,
            xs@.take(m as int) =~= res@,
            forall|t: int| m <= t < i ==> xs@[t] == 0,
        decreases n - i,
    {
        xs[i] = 0;
        i = i + 1;
    }
    proof {
        crate::model::lemma_val_drop_trailing_zeros(xs@, m as int);
    }
}

/// Replaces `xs` by the magnitude limbs of `-X | -Y`, shrinking it to the
/// result's length.
pub fn limbs_vec_or_neg_neg_in_place_left(xs: &mut Vec<u32>, ys: &[u32])
    requires
        limbs_val(old(xs)@) > 0,
        limbs_val(ys@) > 0,
    ensures
        final(xs)@.len() == if old(xs)@.len() <= ys@.len() {
            old(xs)@.len()
        } else {
            ys@.len()
        },
        limbs_val(final(xs)@) == or_neg_neg_val(limbs_val(old(xs)@), limbs_val(ys@)),
{
    let r = limbs_or_neg_neg(xs.as_slice(), ys);
    *xs = r;
}

/// Writes the magnitude limbs of `-X | -Y` over the shorter of the two
/// buffers (the left one when they tie). Returns false when the result went
/// to `xs` and true when it went to `ys`.
pub fn limbs_or_neg_neg_in_place_either(xs: &mut Vec<u32>, ys: &mut Vec<u32>) -> (r: bool)
    requires
        limbs_val(old(xs)@) > 0,
        limbs_val(old(ys)@) > 0,
    ensures
        r <==> old(xs)@.len() > old(ys)@.len(),
        r ==> final(xs)@ == old(xs)@ && final(ys)@.len() == old(ys)@.len() && limbs_val(
            final(ys)@,
        ) == or_neg_neg_val(limbs_val(old(xs)@), limbs_val(old(ys)@)),
        !r ==> final(ys)@ == old(ys)@ && final(xs)@.len() == old(xs)@.len() && limbs_val(
            final(xs)@,
        ) == or_neg_neg_val(limbs_val(old(xs)@), limbs_val(old(ys)@)),
{
    let res = limbs_or_neg_neg(xs.as_slice(), ys.as_slice());
    if xs.len() > ys.len() {
        *ys = res;
        true
    } else {
        *xs = res;
        false
    }
}


impl crate::natural::Natural {
    /// Bitwise OR of two non-negative values.
    pub fn or(&self, other: &crate::natural::Natural) -> (r: crate::natural::Natural)
        requires
            self.is_canonical(),
            other.is_canonical(),
        ensures
            r@ == crate::bits::or_nat(self@, other@),
            r.is_canonical(),
    {
        let a = self.to_limbs_asc();
        let b = other.to_limbs_asc();
        let an = a.len();
        let bn = b.len();
        let n = if an >= bn {
            an
        } else {
            bn
        };
        let mut c: Vec<u32> = Vec::new();
        let mut i: usize = 0;
        while i < n
            invariant
                0 <= i <= n,
                an == a@.len(),
                bn == b@.len(),
                n == if an >= bn {
                    an
                } else {
                    bn
                },
                c@.len() == i,
                forall|t: int|
                    0 <= t < i ==> c@[t] == (crate::model::limb_at(a@, t) | crate::model::limb_at(
                        b@,
                        t,
                    )),
            decreases n - i,
        {
            let av = if i < an {
                a[i]
            } else {
                0
            };
            let bv = if i < bn {
                b[i]
            } else {
                0
            };
            c.push(av | bv);
            i = i + 1;
        }
        proof {
            crate::logic::lemma_limbs_or_seq(a@, b@, c@);
        }
        crate::natural::Natural::from_owned_limbs_asc(c)
    }

    /// The magnitude of `self | -other`, for positive `other`.
    pub fn or_pos_neg(&self, other: &crate::natural::Natural) -> (r: crate::natural::Natural)
        requires
            self.is_canonical(),
            other.is_canonical(),
            other@ > 0,
        ensures
            r@ == or_pos_neg_val(self@, other@),
            r.is_canonical(),
    {
        let a = self.to_limbs_asc();
        let b = other.to_limbs_asc();
        if a.len() == 0 {
            proof {
                crate::bits::lemma_diff_nat_zero((other@ - 1) as nat);
            }
            return other.clone();
        }
        proof {
            if limbs_val(a@) == 0 {
                crate::model::lemma_val_zero_all_zero(a@);
                assert(a@[a@.len() - 1] == 0);
                assert(false);
            }
        }
        let r = limbs_or_pos_neg(a.as_slice(), b.as_slice());
        crate::natural::Natural::from_owned_limbs_asc(r)
    }

    /// The magnitude of `-self | -other`, for positive `self` and `other`.
    pub fn or_neg_neg(&self, other: &crate::natural::Natural) -> (r: crate::natural::Natural)
        requires
            self.is_canonical(),
            other.is_canonical(),
            self@ > 0,
            other@ > 0,
        ensures
            r@ == or_neg_neg_val(self@, other@),
            r.is_canonical(),
    {
        let a = self.to_limbs_asc();
        let b = other.to_limbs_asc();
        let r = limbs_or_neg_neg(a.as_slice(), b.as_slice());
        crate::natural::Natural::from_owned_limbs_asc(r)
    }
}

impl crate::integer::Integer {
    /// Bitwise OR, with the semantics of infinite-precision two's
    /// complement, computed directly on the sign-magnitude representation.
    pub fn or(&self, other: &crate::integer::Integer) -> (r: crate::integer::Integer)
        requires
            self.is_canonical(),
            other.is_canonical(),
        ensures
            r@ == crate::bits::or_int(self@, other@),
            r.is_canonical(),
    {
        match (self.sign, other.sign) {
            (true, true) => {
                let mag = self.abs.or(&other.abs);
                crate::integer::Integer::from_sign_and_abs(true, mag)
            }
            (true, false) => {
                let mag = self.abs.or_pos_neg(&other.abs);
                crate::integer::Integer::from_sign_and_abs(false, mag)
            }
            (false, true) => {
                let mag = other.abs.or_pos_neg(&self.abs);
                crate::integer::Integer::from_sign_and_abs(false, mag)
            }
            (false, false) => {
                let mag = self.abs.or_neg_neg(&other.abs);
                crate::integer::Integer::from_sign_and_abs(false, mag)
            }
        }
    }

    /// Replaces `self` with `self | other`.
    pub fn or_assign(&mut self, other: &crate::integer::Integer)
        requires
            old(self).is_canonical(),
            other.is_canonical(),
        ensures
            final(self)@ == crate::bits::or_int(old(self)@, other@),
            final(self).is_canonical(),
    {
        let r = self.or(other);
        *self = r;
    }

    /// Bitwise NOT, with the semantics of infinite-precision two's
    /// complement: the complement of `x` is `-x - 1`.
    pub fn not(&self) -> (r: crate::integer::Integer)
        requires
            self.is_canonical(),
        ensures
            r@ == crate::bits::not_int(self@),
            r.is_canonical(),
    {
        if self.sign {
            let one = crate::natural::Natural::one();
            let mag = self.abs.add(&one);
            crate::integer::Integer::from_sign_and_abs(false, mag)
        } else {
            let one = crate::natural::Natural::one();
            let mag = self.abs.sub(&one);
            crate::integer::Integer::from_sign_and_abs(true, mag)
        }
    }

    /// Bitwise AND, with the semantics of infinite-precision two's
    /// complement, computed through the complement of the OR of the
    /// complements.
    pub fn and(&self, other: &crate::integer::Integer) -> (r: crate::integer::Integer)
        requires
            self.is_canonical(),
            other.is_canonical(),
        ensures
            r@ == crate::bits::and_int(self@, other@),
            r.is_canonical(),
    {
        let nx = self.not();
        let ny = other.not();
        let nor = nx.or(&ny);
        let r = nor.not();
        proof {
            crate::bits::lemma_de_morgan_and(self@, other@);
        }
        r
    }
}

} // verus!
