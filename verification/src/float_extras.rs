//! Rounding a top-aligned mantissa to a smaller precision, and deciding
//! whether a known error bound allows rounding at all.
//!
//! A mantissa of `p` bits lives top-aligned in `ceil(p / 32)` limbs, with the
//! unused low bits zero. Rounding to a coarser precision drops low bits and
//! applies a `RoundingMode`; the returned inexactness report says whether and
//! which way the value moved, with the magnitude 2 marking an exact tie
//! broken to even.

use vstd::prelude::*;

use vstd::arithmetic::power2::pow2;

use crate::model::bpow;
use crate::model::limbs_val;
use crate::natural::Natural;
use crate::round::RoundingMode;

verus! {

/// Writes the mantissa `xs`, rounded from `x_prec` to `out_prec` bits, into
/// `out`, top-aligned. Returns the inexactness report and whether the
/// mantissa overflowed to the next power of two, in which case `out` holds
/// exactly the top bit.
///
/// With `drop = 32 * xs.len() - out_prec` discarded bits, `q` the kept high
/// part and `rem` the discarded part, the directed modes keep `q` or move to
/// `q + 1`; `Nearest` decides by the first discarded bit, breaking ties
/// toward even `q`. `Exact` is reported through the inexactness flag rather
/// than by failing: this is the raw layer under the checked entry points.
#[verifier::rlimit(100)]
#[verifier::loop_isolation(false)]
pub fn round_helper(
    out: &mut Vec<u32>,
    out_prec: u64,
    xs: &[u32],
    x_prec: u64,
    rm: RoundingMode,
) -> (r: (i8, bool))
    requires
        xs@.len() >= 1,
        out_prec >= 1,
        32 * old(out)@.len() >= out_prec,
        out_prec > 32 * (old(out)@.len() - 1),
        x_prec <= 32 * xs@.len(),
        x_prec > 32 * (xs@.len() - 1),
        old(out)@.len() <= usize::MAX - 2,
        xs@.len() <= usize::MAX - 2,
        32 * xs@.len() <= u64::MAX,
        32 * old(out)@.len() <= u64::MAX,
    ensures
        final(out)@.len() == old(out)@.len(),
        out_prec >= x_prec ==> {
            &&& xs@.len() <= old(out)@.len()
            &&& limbs_val(final(out)@) == limbs_val(xs@) * bpow(
                (old(out)@.len() - xs@.len()) as nat,
            )
            &&& r == (0i8, false)
        },
        out_prec < x_prec ==> round_helper_post(
            final(out)@,
            limbs_val(xs@),
            (32 * xs@.len() - out_prec) as nat,
            (32 * old(out)@.len() - out_prec) as nat,
            rm,
            r.0,
            r.1,
        ),
{
    let xs_len = xs.len();
    let out_len = out.len();
    if out_prec >= x_prec {
        proof {
            assert(xs_len <= out_len);
        }
        let k = out_len - xs_len;
        let mut i: usize = 0;
        let ghost orig = out@;
        while i < k
            invariant
                0 <= i <= k,
                k == out_len - xs_len,
                out@.len() == out_len,
                forall|t: int| 0 <= t < i ==> out@[t] == 0,
                forall|t: int| i <= t < out_len ==> out@[t] == orig[t],
            decreases k - i,
        {
            out[i] = 0;
            i = i + 1;
        }
        let mut j: usize = 0;
        while j < xs_len
            invariant
                0 <= j <= xs_len,
                out@.len() == out_len,
                k == out_len - xs_len,
                forall|t: int| 0 <= t < k ==> out@[t] == 0,
                forall|t: int| 0 <= t < j ==> out@[k + t] == xs@[t],
            decreases xs_len - j,
        {
            let v = xs[j];
            out[k + j] = v;
            j = j + 1;
        }
        proof {
            crate::model::lemma_val_split(out@, k as int);
            crate::model::lemma_val_of_zeros(out@.take(k as int));
            assert(out@.skip(k as int) =~= xs@);
            crate::model::lemma_mul_comm(bpow(k as nat), limbs_val(xs@));
        }
        return (0i8, false);
    }
    // Nontrivial case: low bits are discarded.
    let n64 = 32 * (xs_len as u64);
    let drop = n64 - out_prec;
    let sh = 32 * (out_len as u64) - out_prec;
    let x = Natural::from_limbs_asc(xs);
    let q = x.shr(drop);
    let rem = x.mod_power_of_2(drop);
    let rb_nat = x.shr(drop - 1);
    let round_bit = rb_nat.odd();
    let sticky_nat = x.mod_power_of_2(drop - 1);
    let sticky = !sticky_nat.is_zero();
    let rem_zero = rem.is_zero();
    proof {
        vstd::arithmetic::power2::lemma_pow2_pos(drop as nat);
        vstd::arithmetic::power2::lemma_pow2_pos((drop - 1) as nat);
        lemma_round_pieces(x@, drop as nat);
    }
    let go_up: bool = match rm {
        RoundingMode::Floor => false,
        RoundingMode::Down => false,
        RoundingMode::Exact => false,
        RoundingMode::Up => !rem_zero,
        RoundingMode::Ceiling => !rem_zero,
        RoundingMode::Nearest => {
            if !round_bit {
                false
            } else if !sticky {
                q.odd()
            } else {
                true
            }
        }
    };
    let inexact: i8 = match rm {
        RoundingMode::Floor => if rem_zero {
            0
        } else {
            -1
        },
        RoundingMode::Down => if rem_zero {
            0
        } else {
            -1
        },
        RoundingMode::Exact => if rem_zero {
            0
        } else {
            -1
        },
        RoundingMode::Up => if rem_zero {
            0
        } else {
            1
        },
        RoundingMode::Ceiling => if rem_zero {
            0
        } else {
            1
        },
        RoundingMode::Nearest => {
            if !round_bit {
                if rem_zero {
                    0
                } else {
                    -1
                }
            } else if !sticky {
                if q.even() {
                    -2
                } else {
                    2
                }
            } else {
                1
            }
        }
    };
    let kept = if go_up {
        q.add(&Natural::one())
    } else {
        q
    };
    let kept_limbs = kept.to_limbs_asc();
    proof {
        crate::model::lemma_val_bound(xs@);
        lemma_kept_bounds(limbs_val(xs@), drop as nat, out_prec as nat, xs_len as nat, kept@);
        if kept_limbs@.len() > xs_len {
            crate::natural::lemma_min_val_of_nonzero_top(kept_limbs@);
            crate::model::lemma_bpow_increases(xs_len as nat, (kept_limbs@.len() - 1) as nat);
            assert(false);
        }
        assert(sh / 32 == 0);
    }
    let mantissa_limbs = crate::shift::limbs_shl(kept_limbs.as_slice(), sh);
    let mantissa = Natural::from_owned_limbs_asc(mantissa_limbs);
    let limbs = mantissa.to_limbs_asc();
    proof {
        crate::model::lemma_val_bound(limbs@);
    }
    let increment = limbs.len() > out_len;
    if increment {
        // The rounded mantissa reached the next power of two: keep only its
        // top bit.
        let mut i: usize = 0;
        while i < out_len
            invariant
                0 <= i <= out_len,
                out@.len() == out_len,
                forall|t: int| 0 <= t < i ==> out@[t] == 0,
            decreases out_len - i,
        {
            out[i] = 0;
            i = i + 1;
        }
        out[out_len - 1] = 0x8000_0000u32;
        proof {
            lemma_top_bit_value(out@);
            // The shifted mantissa is at most the weight past the output and,
            // needing one limb more, at least that weight: it is exactly the
            // next power of two, so the increment happened and hit it.
            crate::natural::lemma_min_val_of_nonzero_top(limbs@);
            crate::model::lemma_bpow_increases(out_len as nat, (limbs@.len() - 1) as nat);
            crate::shift::lemma_bpow_pow2(out_len as nat);
            vstd::arithmetic::power2::lemma_pow2_adds(out_prec as nat, sh as nat);
            crate::model::lemma_mul_le(pow2(sh as nat), kept@, pow2(out_prec as nat));
            crate::model::lemma_mul_comm(kept@, pow2(sh as nat));
            crate::model::lemma_mul_comm(pow2(out_prec as nat), pow2(sh as nat));
            assert(mantissa@ == bpow(out_len as nat));
            let qv = limbs_val(xs@) / pow2(drop as nat);
            if !go_up {
                vstd::arithmetic::power2::lemma_pow2_pos(sh as nat);
                assert(kept@ == qv && qv < pow2(out_prec as nat));
                assert(qv * pow2(sh as nat) < pow2(out_prec as nat) * pow2(sh as nat))
                    by (nonlinear_arith)
                    requires
                        qv < pow2(out_prec as nat) && pow2(sh as nat) >= 1,
                ;
                assert(false);
            }
        }
        (inexact, true)
    } else {
        let mut i: usize = 0;
        let m = limbs.len();
        while i < m
            invariant
                0 <= i <= m,
                m == limbs@.len(),
                m <= out_len,
                out@.len() == out_len,
                forall|t: int| 0 <= t < i ==> out@[t] == limbs@[t],
            decreases m - i,
        {
            let v = limbs[i];
            out[i] = v;
            i = i + 1;
        }
        let mut j: usize = m;
        while j < out_len
            invariant
                m <= j <= out_len,
                out@.len() == out_len,
                forall|t: int| 0 <= t < m ==> out@[t] == limbs@[t],
                forall|t: int| m <= t < j ==> out@[t] == 0,
            decreases out_len - j,
        {
            out[j] = 0;
            j = j + 1;
        }
        proof {
            assert(out@.take(m as int) =~= limbs@);
            crate::model::lemma_val_drop_trailing_zeros(out@, m as int);
        }
        (inexact, false)
    }
}

/// What the nontrivial rounding case leaves in `out`: the kept high part,
/// possibly incremented, shifted to its place — or the lone top bit when the
/// increment overflowed, with the flag saying which.
pub open spec fn round_helper_post(
    outp: Seq<u32>,
    x: nat,
    drop: nat,
    sh: nat,
    rm: RoundingMode,
    inexact: i8,
    increment: bool,
) -> bool {
    let q = x / pow2(drop);
    let rem = x % pow2(drop);
    let rb = (x / pow2((drop - 1) as nat)) % 2;
    let sticky = x % pow2((drop - 1) as nat);
    let up = match rm {
        RoundingMode::Floor => false,
        RoundingMode::Down => false,
        RoundingMode::Exact => false,
        RoundingMode::Up => rem != 0,
        RoundingMode::Ceiling => rem != 0,
        RoundingMode::Nearest => rb == 1 && (sticky != 0 || q % 2 == 1),
    };
    &&& (increment ==> up && (q + 1) * pow2(sh) == bpow(outp.len()) && limbs_val(outp) * 2 == bpow(
        outp.len(),
    ))
    &&& (!increment ==> limbs_val(outp) == (if up {
        q + 1
    } else {
        q
    }) * pow2(sh))
    &&& inexact == (if rem == 0 {
        0i8
    } else if rm == RoundingMode::Nearest {
        if rb == 0 {
            -1i8
        } else if sticky == 0 {
            if q % 2 == 0 {
                -2i8
            } else {
                2i8
            }
        } else {
            1i8
        }
    } else if up {
        1i8
    } else {
        -1i8
    })
}

/// An exactly divisible value has a clear rounding bit and no sticky bits.
proof fn lemma_round_pieces(x: nat, drop: nat)
    requires
        drop >= 1,
    ensures
        (x % pow2(drop) == 0) ==> ((x / pow2((drop - 1) as nat)) % 2 == 0 && x % pow2(
            (drop - 1) as nat,
        ) == 0),
{
    vstd::arithmetic::power2::lemma_pow2_pos(drop);
    vstd::arithmetic::power2::lemma_pow2_pos((drop - 1) as nat);
    vstd::arithmetic::power2::lemma_pow2_unfold(drop);
    let h = pow2((drop - 1) as nat) as int;
    if x % pow2(drop) == 0 {
        let k = x as int / pow2(drop) as int;
        vstd::arithmetic::div_mod::lemma_fundamental_div_mod(x as int, pow2(drop) as int);
        assert(x as int == h * (2 * k)) by (nonlinear_arith)
            requires
                x as int == (2 * h) * k + 0,
        ;
        assert((2 * k) * h + 0 == x as int) by (nonlinear_arith)
            requires
                x as int == h * (2 * k),
        ;
        vstd::arithmetic::div_mod::lemma_fundamental_div_mod_converse(x as int, h, 2 * k, 0);
        vstd::arithmetic::div_mod::lemma_mod_multiples_vanish(k, 0, 2);
        assert((2 * k) % 2 == 0) by {
            vstd::arithmetic::div_mod::lemma_mod_multiples_vanish(k, 0, 2);
            assert(2 * k + 0 == 2 * k);
        }
    }
}

/// The kept part of the mantissa stays below the output precision's power of
/// two, and so below the weight of the input's limbs.
proof fn lemma_kept_bounds(x: nat, drop: nat, out_prec: nat, n: nat, kept: nat)
    requires
        drop >= 1,
        drop + out_prec == 32 * n,
        out_prec >= 1,
        x < bpow(n),
        kept == x / pow2(drop) || kept == x / pow2(drop) + 1,
    ensures
        x / pow2(drop) < pow2(out_prec),
        kept <= pow2(out_prec),
        kept < bpow(n),
{
    crate::shift::lemma_bpow_pow2(n);
    vstd::arithmetic::power2::lemma_pow2_adds(drop, out_prec);
    vstd::arithmetic::power2::lemma_pow2_pos(drop);
    vstd::arithmetic::power2::lemma_pow2_pos(out_prec);
    let q = x / pow2(drop);
    vstd::arithmetic::div_mod::lemma_fundamental_div_mod(x as int, pow2(drop) as int);
    assert(q < pow2(out_prec)) by (nonlinear_arith)
        requires
            x == pow2(drop) * q + x % pow2(drop),
            0 <= x % pow2(drop),
            x < pow2(drop) * pow2(out_prec),
            pow2(drop) >= 1,
    ;
    vstd::arithmetic::power2::lemma_pow2_strictly_increases(out_prec, 32 * n);
}

/// A buffer holding only the top bit of its top limb denotes half the weight
/// past its end.
proof fn lemma_top_bit_value(s: Seq<u32>)
    requires
        s.len() >= 1,
        forall|t: int| 0 <= t < s.len() - 1 ==> s[t] == 0,
        s[s.len() - 1] == 0x8000_0000u32,
    ensures
        limbs_val(s) * 2 == bpow(s.len()),
    decreases s.len(),
{
    if s.len() == 1 {
        crate::logic::lemma_val_singleton(0x8000_0000u32);
        assert(s =~= seq![0x8000_0000u32]);
    } else {
        lemma_top_bit_value(s.skip(1));
        assert(s[0] == 0);
        assert(limbs_val(s) == s[0] as nat + crate::model::base() * limbs_val(s.skip(1)));
        let v = limbs_val(s.skip(1));
        assert((crate::model::base() * v) * 2 == crate::model::base() * (v * 2))
            by (nonlinear_arith);
    }
}


/// Whether an error of at most `2^(n - err)` cannot move the value across a
/// rounding boundary at precision `prec`: the window of bits between the
/// rounding position and the error position is neither all zeros nor all
/// ones.
pub open spec fn can_round_window(x: nat, n: nat, err: nat, prec: nat) -> bool {
    &&& err > prec
    &&& {
        let w = (x / pow2((n - err) as nat)) % pow2((err - prec) as nat);
        w != 0 && w != pow2((err - prec) as nat) - 1
    }
}

/// Whether a mantissa known to within `err0` ulps of error (counted in bits
/// from the top, capped at the mantissa's width) rounds unambiguously at
/// `prec` bits: the undetermined low bits cannot change the rounded result.
/// `Nearest` needs one extra certain bit for its tie decision.
#[verifier::rlimit(60)]
pub fn limbs_float_can_round(xs: &[u32], err0: u64, prec: u64, rm: RoundingMode) -> (r: bool)
    requires
        xs@.len() >= 1,
        xs@[xs@.len() - 1] >= 0x8000_0000u32,
        32 * xs@.len() <= u64::MAX,
        xs@.len() <= usize::MAX - 2,
        prec < u64::MAX,
    ensures
        r <==> can_round_window(
            limbs_val(xs@),
            32 * xs@.len(),
            if err0 <= 32 * xs@.len() {
                err0 as nat
            } else {
                32 * xs@.len()
            },
            prec as nat + (if rm == RoundingMode::Nearest {
                1nat
            } else {
                0nat
            }),
        ),
{
    let len = xs.len();
    let n64 = 32 * (len as u64);
    let mut prec2 = prec;
    if let RoundingMode::Nearest = rm {
        prec2 = prec + 1;
    }
    let err = if err0 <= n64 {
        err0
    } else {
        n64
    };
    if err <= prec2 {
        return false;
    }
    let wbits = err - prec2;
    let x = Natural::from_limbs_asc(xs);
    let shifted = x.shr(n64 - err);
    let w = shifted.mod_power_of_2(wbits);
    if w.is_zero() {
        return false;
    }
    proof {
        assert(wbits / 32 + 2 <= usize::MAX);
        assert(1 * pow2(wbits as nat) == pow2(wbits as nat)) by (nonlinear_arith);
        vstd::arithmetic::power2::lemma_pow2_pos(wbits as nat);
    }
    let ones = Natural::one().shl(wbits).sub(&Natural::one());
    let equal_ones = matches!(w.cmp(&ones), core::cmp::Ordering::Equal);
    proof {
        vstd::arithmetic::power2::lemma_pow2_pos((n64 - err) as nat);
        vstd::arithmetic::div_mod::lemma_mod_bound(
            (limbs_val(xs@) / pow2((n64 - err) as nat)) as int,
            pow2(wbits as nat) as int,
        );
    }
    !equal_ones
}

impl Natural {
    /// Whether this mantissa is normalized: its top stored bit is set.
    pub open spec fn is_normalized_mantissa(&self) -> bool {
        match self {
            Natural::Small(v) => *v >= 0x8000_0000u32,
            Natural::Large(xs) => xs@.len() >= 1 && xs@[xs@.len() - 1] >= 0x8000_0000u32,
        }
    }

    /// The number of limbs the mantissa occupies.
    pub open spec fn spec_mantissa_len(&self) -> nat {
        self.spec_limb_len()
    }

    /// Whether this value, as a normalized mantissa known to within `err0`
    /// bits of error, rounds unambiguously at `prec` bits.
    pub fn float_can_round(&self, err0: u64, prec: u64, rm: RoundingMode) -> (r: bool)
        requires
            self.is_canonical(),
            self.is_normalized_mantissa(),
            32 * self.spec_mantissa_len() <= u64::MAX,
            self.spec_mantissa_len() <= usize::MAX - 2,
            prec < u64::MAX,
        ensures
            r <==> can_round_window(
                self@,
                32 * self.spec_mantissa_len(),
                if err0 <= 32 * self.spec_mantissa_len() {
                    err0 as nat
                } else {
                    32 * self.spec_mantissa_len()
                },
                prec as nat + (if rm == RoundingMode::Nearest {
                    1nat
                } else {
                    0nat
                }),
            ),
    {
        match self {
            Natural::Small(v) => {
                let mut limbs: Vec<u32> = Vec::new();
                limbs.push(*v);
                proof {
                    crate::logic::lemma_val_singleton(*v);
                    assert(limbs@ =~= seq![*v]);
                }
                limbs_float_can_round(limbs.as_slice(), err0, prec, rm)
            }
            Natural::Large(xs) => limbs_float_can_round(xs.as_slice(), err0, prec, rm),
        }
    }
}

} // verus!
