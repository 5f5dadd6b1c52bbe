//! Conversion to and from digit strings in bases 2 through 36.
//!
//! Formatting divides repeatedly by the base and emits the digits most
//! significant first; parsing folds the digits in with one multiply-and-add
//! per character. Both directions are specified against [`digits_val`], the
//! value of a digit string.

use vstd::prelude::*;

use vstd::string::StringExecFns;
use vstd::string::StrSliceExecFns;
use vstd::arithmetic::power::pow;

use crate::natural::Natural;
use crate::integer::Integer;
use crate::model::limbs_val;

verus! {

/// The numeric value of a digit character, or 36 for any other character;
/// letters of either case carry their usual values.
pub open spec fn char_digit(c: char) -> nat {
    if 48 <= c as u32 <= 57 {
        (c as u32 - 48) as nat
    } else if 97 <= c as u32 <= 122 {
        (c as u32 - 87) as nat
    } else if 65 <= c as u32 <= 90 {
        (c as u32 - 55) as nat
    } else {
        36
    }
}

/// Whether every character of `s` is a digit below `b`.
pub open spec fn all_digits(s: Seq<char>, b: nat) -> bool {
    forall|i: int| 0 <= i < s.len() ==> char_digit(s[i]) < b
}

/// The value of a digit string in base `b`, most significant digit first.
pub open spec fn digits_val(s: Seq<char>, b: nat) -> nat
    decreases s.len(),
{
    if s.len() == 0 {
        0
    } else {
        digits_val(s.drop_last(), b) * b + char_digit(s.last())
    }
}

/// One digit as a string slice.
fn digit_to_str(d: u32) -> (r: &'static str)
    requires
        d < 36,
    ensures
        r@.len() == 1,
        char_digit(r@[0]) == d,
{
    let r: &'static str = if d == 0 {
        "0"
    } else if d == 1 {
        "1"
    } else if d == 2 {
        "2"
    } else if d == 3 {
        "3"
    } else if d == 4 {
        "4"
    } else if d == 5 {
        "5"
    } else if d == 6 {
        "6"
    } else if d == 7 {
        "7"
    } else if d == 8 {
        "8"
    } else if d == 9 {
        "9"
    } else if d == 10 {
        "a"
    } else if d == 11 {
        "b"
    } else if d == 12 {
        "c"
    } else if d == 13 {
        "d"
    } else if d == 14 {
        "e"
    } else if d == 15 {
        "f"
    } else if d == 16 {
        "g"
    } else if d == 17 {
        "h"
    } else if d == 18 {
        "i"
    } else if d == 19 {
        "j"
    } else if d == 20 {
        "k"
    } else if d == 21 {
        "l"
    } else if d == 22 {
        "m"
    } else if d == 23 {
        "n"
    } else if d == 24 {
        "o"
    } else if d == 25 {
        "p"
    } else if d == 26 {
        "q"
    } else if d == 27 {
        "r"
    } else if d == 28 {
        "s"
    } else if d == 29 {
        "t"
    } else if d == 30 {
        "u"
    } else if d == 31 {
        "v"
    } else if d == 32 {
        "w"
    } else if d == 33 {
        "x"
    } else if d == 34 {
        "y"
    } else {
        "z"
    };
    proof {
        reveal_strlit("0");
        reveal_strlit("1");
        reveal_strlit("2");
        reveal_strlit("3");
        reveal_strlit("4");
        reveal_strlit("5");
        reveal_strlit("6");
        reveal_strlit("7");
        reveal_strlit("8");
        reveal_strlit("9");
        reveal_strlit("a");
        reveal_strlit("b");
        reveal_strlit("c");
        reveal_strlit("d");
        reveal_strlit("e");
        reveal_strlit("f");
        reveal_strlit("g");
        reveal_strlit("h");
        reveal_strlit("i");
        reveal_strlit("j");
        reveal_strlit("k");
        reveal_strlit("l");
        reveal_strlit("m");
        reveal_strlit("n");
        reveal_strlit("o");
        reveal_strlit("p");
        reveal_strlit("q");
        reveal_strlit("r");
        reveal_strlit("s");
        reveal_strlit("t");
        reveal_strlit("u");
        reveal_strlit("v");
        reveal_strlit("w");
        reveal_strlit("x");
        reveal_strlit("y");
        reveal_strlit("z");
    }
    r
}

impl Natural {
    /// Renders `self` in base `base`, lowercase, with no leading zeros.
    #[verifier::loop_isolation(false)]
    #[verifier::rlimit(60)]
    pub fn to_string_base(&self, base: u64) -> (r: String)
        requires
            self.is_canonical(),
            2 <= base <= 36,
        ensures
            r@.len() >= 1,
            all_digits(r@, base as nat),
            digits_val(r@, base as nat) == self@,
            r@.len() > 1 ==> char_digit(r@[0]) != 0,
    {
        let mut s = String::new();
        if self.is_zero() {
            let zs = digit_to_str(0);
            s.append(zs);
            proof {
                assert(s@ =~= zs@);
                assert(s@.drop_last() =~= Seq::<char>::empty());
                assert(s@.last() == zs@[0]);
                crate::model::lemma_mul_zero(base as nat);
                assert(s@.len() == 1);
                assert(digits_val(s@, base as nat) == digits_val(s@.drop_last(), base as nat) * (
                base as nat) + char_digit(s@.last()));
                assert(digits_val(s@.drop_last(), base as nat) == 0);
                assert(char_digit(s@.last()) == 0);
                assert(digits_val(s@, base as nat) == 0);
                assert(self@ == 0);
            }
            return s;
        }
        let b32 = (base as u32);
        let bn = Natural::Small(b32);
        let mut digits: Vec<u32> = Vec::new();
        let mut n = self.clone();
        proof {
            vstd::arithmetic::power::lemma_pow0(base as int);
        }
        while !n.is_zero()
            invariant
                n.is_canonical(),
                2 <= base <= 36,
                b32 == base,
                bn == Natural::Small(b32),
                forall|i: int| 0 <= i < digits@.len() ==> digits@[i] < base,
                self@ == digits_val_le(digits@, base as nat) + n@ * pow(
                    base as int,
                    digits@.len(),
                ),
                n@ == 0 ==> digits@.len() > 0 && digits@[digits@.len() - 1] != 0,
                digits@.len() > 0 && digits@[digits@.len() - 1] == 0 ==> n@ > 0,
            decreases n@,
        {
            let (q, rem) = n.div_mod(&bn);
            proof {
                lemma_digits_val_le_push(digits@, rem@ as u32, base as nat);
                vstd::arithmetic::power::lemma_pow1(base as int);
                vstd::arithmetic::power::lemma_pow_adds(base as int, digits@.len(), 1);
                let p = pow(base as int, digits@.len());
                assert((q@ * base + rem@) * p == q@ * (p * base) + rem@ * p) by (nonlinear_arith);
                if q@ == 0 {
                    assert(q@ * (p * base) == 0) by (nonlinear_arith)
                        requires
                            q@ == 0,
                    ;
                    if rem@ == 0 {
                        assert(n@ == 0) by (nonlinear_arith)
                            requires
                                q@ * base + rem@ == n@ && q@ == 0 && rem@ == 0,
                        ;
                    }
                }
                if q@ > 0 {
                    assert(q@ * base >= 1 * base) by (nonlinear_arith)
                        requires
                            q@ >= 1 && base >= 2,
                    ;
                    assert(q@ < n@) by (nonlinear_arith)
                        requires
                            q@ * base + rem@ == n@ && base >= 2 && q@ >= 1,
                    ;
                }
            }
            let rem32 = match rem {
                Natural::Small(v) => v,
                Natural::Large(xs) => {
                    proof {
                        crate::natural::lemma_large_canonical_big(xs@);
                        assert(false);
                    }
                    0
                }
            };
            digits.push(rem32);
            n = q;
        }
        let len = digits.len();
        let mut i: usize = len;
        proof {
            assert(digits@.skip(len as int) =~= Seq::<u32>::empty());
            assert(n@ * pow(base as int, digits@.len()) == 0) by (nonlinear_arith)
                requires
                    n@ == 0,
            ;
        }
        while i > 0
            invariant
                0 <= i <= len,
                len == digits@.len(),
                2 <= base <= 36,
                forall|t: int| 0 <= t < digits@.len() ==> digits@[t] < base,
                digits@[digits@.len() - 1] != 0,
                all_digits(s@, base as nat),
                digits_val(s@, base as nat) == digits_val_le(digits@.skip(i as int), base as nat),
                s@.len() == len - i,
                s@.len() > 0 ==> char_digit(s@[0]) == digits@[digits@.len() - 1],
            decreases i,
        {
            let d = digits[i - 1];
            let ds = digit_to_str(d);
            let ghost old_s = s@;
            s.append(ds);
            proof {
                assert(s@.drop_last() =~= old_s);
                assert(s@.last() == ds@[0]);
                assert(digits@.skip(i - 1).drop_first() =~= digits@.skip(i as int));
                lemma_digits_val_le_first(digits@.skip(i - 1), base as nat);
            }
            i = i - 1;
        }
        proof {
            assert(i == 0);
            assert(digits@.skip(0) =~= digits@);
            assert(digits_val(s@, base as nat) == digits_val_le(digits@, base as nat));
            assert(self@ == digits_val_le(digits@, base as nat) + n@ * pow(
                base as int,
                digits@.len(),
            ));
            assert(n@ == 0);
            assert(n@ * pow(base as int, digits@.len()) == 0) by (nonlinear_arith)
                requires
                    n@ == 0,
            ;
            if s@.len() > 1 {
                assert(char_digit(s@[0]) != 0);
            }
        }
        s
    }

    /// Renders `self` in decimal.
    pub fn to_string(&self) -> (r: String)
        requires
            self.is_canonical(),
        ensures
            r@.len() >= 1,
            all_digits(r@, 10),
            digits_val(r@, 10) == self@,
            r@.len() > 1 ==> char_digit(r@[0]) != 0,
    {
        self.to_string_base(10)
    }

    /// Parses a digit string in base `base`, rejecting empty strings and
    /// strings with any character that is not a digit below the base.
    #[verifier::loop_isolation(false)]
    pub fn from_string_base(base: u64, s: &str) -> (r: Option<Natural>)
        requires
            2 <= base <= 36,
        ensures
            match r {
                Some(n) => s@.len() > 0 && all_digits(s@, base as nat) && n@ == digits_val(
                    s@,
                    base as nat,
                ) && n.is_canonical(),
                None => s@.len() == 0 || !all_digits(s@, base as nat),
            },
    {
        let len = s.unicode_len();
        if len == 0 {
            return None;
        }
        let mut acc = Natural::zero();
        let b32 = base as u32;
        let mut i: usize = 0;
        proof {
            assert(s@.take(0) =~= Seq::<char>::empty());
        }
        while i < len
            invariant
                0 <= i <= len,
                len == s@.len(),
                2 <= base <= 36,
                b32 == base,
                acc.is_canonical(),
                all_digits(s@.take(i as int), base as nat),
                acc@ == digits_val(s@.take(i as int), base as nat),
            decreases len - i,
        {
            let c = s.get_char(i);
            let u = c as u32;
            let d: u32 = if 48 <= u && u <= 57 {
                u - 48
            } else if 97 <= u && u <= 122 {
                u - 87
            } else if 65 <= u && u <= 90 {
                u - 55
            } else {
                36
            };
            if d >= b32 {
                return None;
            }
            let limbs = acc.to_limbs_asc();
            let mut t = crate::mul::limbs_mul_limb(limbs.as_slice(), b32);
            crate::add::limbs_vec_add_limb_in_place(&mut t, d);
            proof {
                assert(s@.take(i + 1).drop_last() =~= s@.take(i as int));
                assert(s@.take(i + 1).last() == s@[i as int]);
            }
            acc = Natural::from_owned_limbs_asc(t);
            i = i + 1;
        }
        proof {
            assert(s@.take(len as int) =~= s@);
        }
        Some(acc)
    }

    /// Parses a decimal string.
    pub fn from_str(s: &str) -> (r: Option<Natural>)
        ensures
            match r {
                Some(n) => s@.len() > 0 && all_digits(s@, 10) && n@ == digits_val(s@, 10)
                    && n.is_canonical(),
                None => s@.len() == 0 || !all_digits(s@, 10),
            },
    {
        Natural::from_string_base(10, s)
    }
}

/// The value of a digit sequence, least significant digit first.
pub open spec fn digits_val_le(ds: Seq<u32>, b: nat) -> nat
    decreases ds.len(),
{
    if ds.len() == 0 {
        0
    } else {
        ds[0] as nat + b * digits_val_le(ds.drop_first(), b)
    }
}

/// Appending a digit at the top adds its weighted value.
proof fn lemma_digits_val_le_push(ds: Seq<u32>, d: u32, b: nat)
    requires
        b >= 2,
    ensures
        digits_val_le(ds.push(d), b) == digits_val_le(ds, b) + d * pow(b as int, ds.len()),
    decreases ds.len(),
{
    vstd::arithmetic::power::lemma_pow_positive(b as int, ds.len());
    if ds.len() == 0 {
        assert(ds.push(d).drop_first() =~= Seq::<u32>::empty());
        vstd::arithmetic::power::lemma_pow0(b as int);
        assert(ds.push(d)[0] == d);
        assert(digits_val_le(ds.push(d).drop_first(), b) == 0);
        assert(digits_val_le(ds.push(d), b) == d as nat + b * digits_val_le(
            ds.push(d).drop_first(),
            b,
        ));
        assert(d * 1 == d) by (nonlinear_arith);
        assert(b * 0 == 0) by (nonlinear_arith);
    } else {
        assert(ds.push(d).drop_first() =~= ds.drop_first().push(d));
        lemma_digits_val_le_push(ds.drop_first(), d, b);
        let v1 = digits_val_le(ds.drop_first(), b);
        let w = pow(b as int, (ds.len() - 1) as nat);
        vstd::arithmetic::power::lemma_pow_positive(b as int, (ds.len() - 1) as nat);
        assert(ds.push(d)[0] == ds[0]);
        assert(digits_val_le(ds.drop_first().push(d), b) == v1 + d * w);
        assert(digits_val_le(ds.push(d), b) == ds[0] as nat + b * digits_val_le(
            ds.drop_first().push(d),
            b,
        ));
        assert(digits_val_le(ds, b) == ds[0] as nat + b * v1);
        assert(b * (v1 + d * w) == b * v1 + d * (b * w)) by (nonlinear_arith);
        vstd::arithmetic::power::lemma_pow1(b as int);
        vstd::arithmetic::power::lemma_pow_adds(b as int, (ds.len() - 1) as nat, 1);
        assert(pow(b as int, ds.len()) == w * b) by {
            assert((ds.len() - 1) as nat + 1 == ds.len());
        }
        assert(w * b == b * w) by (nonlinear_arith);
        assert(d * (b * w) == d * (w * b)) by (nonlinear_arith);
    }
}

/// The first digit of a little-endian digit sequence carries weight one.
proof fn lemma_digits_val_le_first(ds: Seq<u32>, b: nat)
    requires
        ds.len() > 0,
        b >= 2,
    ensures
        digits_val_le(ds, b) == digits_val_le(ds.drop_first(), b) * b + ds[0],
{
    assert(digits_val_le(ds.drop_first(), b) * b == b * digits_val_le(ds.drop_first(), b))
        by (nonlinear_arith);
}

impl Integer {
    /// Renders `self` in decimal, with a leading minus sign when negative.
    pub fn to_string(&self) -> (r: String)
        requires
            self.is_canonical(),
        ensures
            self@ >= 0 ==> all_digits(r@, 10) && digits_val(r@, 10) == self@ && r@.len() >= 1,
            self@ < 0 ==> r@.len() >= 2 && r@[0] == '-' && all_digits(r@.drop_first(), 10)
                && digits_val(r@.drop_first(), 10) == -self@,
    {
        if self.sign {
            self.abs.to_string()
        } else {
            let mut s = String::new();
            s.append("-");
            let ghost pre = s@;
            let mag = self.abs.to_string();
            s.append(mag.as_str());
            proof {
                reveal_strlit("-");
                assert(s@.drop_first() =~= mag@);
            }
            s
        }
    }

    /// Parses a decimal string with an optional leading minus sign.
    pub fn from_str(s: &str) -> (r: Option<Integer>)
        ensures
            match r {
                Some(n) => n.is_canonical() && if s@.len() > 0 && s@[0] == '-' {
                    all_digits(s@.drop_first(), 10) && s@.len() >= 2 && n@ == -(digits_val(
                        s@.drop_first(),
                        10,
                    ) as int)
                } else {
                    s@.len() > 0 && all_digits(s@, 10) && n@ == digits_val(s@, 10)
                },
                None => s@.len() == 0 || (s@[0] == '-' && (s@.len() < 2 || !all_digits(
                    s@.drop_first(),
                    10,
                ))) || (s@[0] != '-' && !all_digits(s@, 10)),
            },
    {
        let len = s.unicode_len();
        if len == 0 {
            return None;
        }
        let c = s.get_char(0);
        if c == '-' {
            let rest = s.substring_char(1, len);
            proof {
                assert(rest@ =~= s@.drop_first());
            }
            match Natural::from_string_base(10, rest) {
                Some(mag) => Some(Integer::from_sign_and_abs(false, mag)),
                None => None,
            }
        } else {
            match Natural::from_string_base(10, s) {
                Some(mag) => Some(Integer::from_sign_and_abs(true, mag)),
                None => None,
            }
        }
    }
}

} // verus!
