use bignum::integer::Integer;
use bignum::natural::Natural;
use bignum::round::RoundingMode;

#[test]
fn addition_scenario() {
    let a = Natural::from(123u32);
    let b = Natural::from(456u32);
    let c = a.add(&b);
    assert!(c.eq(&Natural::from(579u32)));
    assert_eq!(c.to_string(), "579");
}

#[test]
fn shift_scenario() {
    // One-bit left shift of the largest one-limb value crosses into a second
    // limb.
    let n = Natural::from(4294967295u32).shl(1);
    assert!(n.is_valid());
    assert_eq!(n.to_string(), "8589934590");
    let limbs = n.to_limbs_asc();
    assert_eq!(limbs.len(), 2);
    assert_eq!(limbs[0], 4294967294);
    assert_eq!(limbs[1], 1);
}

#[test]
fn division_round_trip_scenario() {
    let x = Natural::from_str("1000000000000").unwrap();
    let d = Natural::from(123u32);
    let (q, r) = x.div_mod(&d);
    assert_eq!(q.to_string(), "8130081300");
    assert_eq!(r.to_string(), "100");
    // The round-trip law: quotient times divisor plus remainder is the
    // dividend, and the remainder is below the divisor.
    let back = q.mul(&d).add(&r);
    assert!(back.eq(&x));
    assert!(r.lt(&d));
}

#[test]
fn or_negative_scenario() {
    let x = Integer::from(-123);
    let y = Integer::from(-456);
    let r = x.or(&y);
    assert!(r.is_valid());
    assert_eq!(r.to_string(), "-67");
    assert!(r.eq(&Integer::from(-67)));
}

#[test]
fn hex_string_round_trip_scenario() {
    // The largest value at the configured limb width, rendered in base 16
    // and parsed back, reproduces itself exactly.
    let max = Natural::from(u32::MAX);
    let s = max.to_string_base(16);
    assert_eq!(s, "ffffffff");
    let back = Natural::from_string_base(16, s.as_str()).unwrap();
    assert!(back.eq(&max));
    assert!(back.is_valid());
}

#[test]
fn canonical_form_round_trip() {
    // Re-serializing a value's limbs and re-parsing them reproduces the same
    // internal representation, for values on both sides of the small/large
    // boundary.
    let values = [
        "0",
        "1",
        "4294967295",
        "4294967296",
        "1000000000000",
        "340282366920938463463374607431768211455",
    ];
    for s in values {
        let n = Natural::from_str(s).unwrap();
        assert!(n.is_valid());
        let limbs = n.to_limbs_asc();
        let back = Natural::from_owned_limbs_asc(limbs);
        assert!(back.is_valid());
        assert!(back.eq(&n));
        assert_eq!(back.to_string(), s);
    }
    // Limb sequences with trailing zeros are trimmed to canonical form.
    let padded = Natural::from_limbs_asc(&[123, 0, 0]);
    assert!(padded.is_valid());
    assert!(padded.eq(&Natural::from(123u32)));
    // There is no negative zero.
    let z = Integer::from_sign_and_abs(false, Natural::zero());
    assert!(z.is_valid());
    assert_eq!(z.to_string(), "0");
}

#[test]
fn multiplication_cross_agreement() {
    // The schoolbook product through the dispatcher agrees with the product
    // computed with the operands swapped, limb for limb, across lengths that
    // exercise both orderings.
    let a = Natural::from_str("123456789012345678901234567890").unwrap();
    let b = Natural::from_str("98765432109876543210").unwrap();
    let p1 = a.mul(&b);
    let p2 = b.mul(&a);
    assert!(p1.eq(&p2));
    assert_eq!(
        p1.to_string(),
        "12193263113702179522496570642237463801111263526900"
    );
    let al = a.to_limbs_asc();
    let bl = b.to_limbs_asc();
    let r1 = bignum::mul::limbs_mul(&al, &bl);
    let r2 = bignum::mul::limbs_mul(&bl, &al);
    assert_eq!(r1, r2);
    // The two low-square variants agree limb for limb on the same input.
    let xs: Vec<u32> = (1u32..=50).collect();
    let mut out1 = vec![0u32; xs.len()];
    let mut out2 = vec![0u32; xs.len()];
    let mut scratch = Vec::new();
    bignum::square::limbs_square_low_basecase(&mut out1, &xs);
    bignum::square::limbs_square_low_divide_and_conquer(&mut out2, &xs, &mut scratch);
    assert_eq!(out1, out2);
}

#[test]
fn bitwise_laws_all_sign_combinations() {
    let values = [
        "0",
        "1",
        "123",
        "-123",
        "456",
        "-456",
        "1000000000000",
        "-1000000000000",
        "-1",
        "4294967295",
        "-4294967296",
    ];
    for xs in values {
        let x = Integer::from_str(xs).unwrap();
        // NOT(NOT(x)) == x
        assert!(x.not().not().eq(&x));
        for ys in values {
            let y = Integer::from_str(ys).unwrap();
            // x OR y == y OR x
            assert!(x.or(&y).eq(&y.or(&x)));
            // NOT(x AND y) == NOT(x) OR NOT(y)
            assert!(x.and(&y).not().eq(&x.not().or(&y.not())));
            // NOT(x OR y) == NOT(x) AND NOT(y)
            assert!(x.or(&y).not().eq(&x.not().and(&y.not())));
        }
    }
    // A concrete AND across signs.
    let r = Integer::from(-123).and(&Integer::from(-456));
    assert_eq!(r.to_string(), "-512");
}

#[test]
fn rounding_mode_boundary_behavior() {
    let modes = [
        RoundingMode::Down,
        RoundingMode::Up,
        RoundingMode::Floor,
        RoundingMode::Ceiling,
        RoundingMode::Nearest,
        RoundingMode::Exact,
    ];
    // Exact division: every mode produces the identical exact result.
    let x = Natural::from_str("1000000000000").unwrap();
    let d = Natural::from(16u32);
    for rm in modes {
        let q = x.div_round(&d, rm).unwrap();
        assert_eq!(q.to_string(), "62500000000");
    }
    // Inexact division: Floor <= Nearest <= Ceiling, Exact refuses.
    let x = Natural::from_str("1000000000001").unwrap();
    let floor = x.div_round(&d, RoundingMode::Floor).unwrap();
    let down = x.div_round(&d, RoundingMode::Down).unwrap();
    let up = x.div_round(&d, RoundingMode::Up).unwrap();
    let ceiling = x.div_round(&d, RoundingMode::Ceiling).unwrap();
    let nearest = x.div_round(&d, RoundingMode::Nearest).unwrap();
    assert!(x.div_round(&d, RoundingMode::Exact).is_none());
    assert!(floor.eq(&down));
    assert!(up.eq(&ceiling));
    assert!(!ceiling.lt(&nearest));
    assert!(!nearest.lt(&floor));
    assert_eq!(floor.to_string(), "62500000000");
    assert_eq!(ceiling.to_string(), "62500000001");
    // An exact tie breaks toward the even low bit, in both directions.
    let tie_up = Natural::from(24u32); // 24 / 16 = 1.5 -> 2
    assert_eq!(
        tie_up.div_round(&d, RoundingMode::Nearest).unwrap().to_string(),
        "2"
    );
    let tie_down = Natural::from(40u32); // 40 / 16 = 2.5 -> 2
    assert_eq!(
        tie_down.div_round(&d, RoundingMode::Nearest).unwrap().to_string(),
        "2"
    );
    // The same rules through the rounding shift.
    assert_eq!(
        Natural::from(24u32)
            .shr_round(4, RoundingMode::Nearest)
            .unwrap()
            .to_string(),
        "2"
    );
    assert!(Natural::from(24u32).shr_round(4, RoundingMode::Exact).is_none());
    assert_eq!(
        Natural::from(32u32)
            .shr_round(4, RoundingMode::Exact)
            .unwrap()
            .to_string(),
        "2"
    );
}

#[test]
fn mantissa_rounding() {
    // Rounding a two-limb mantissa to 8 bits: the top byte is 0x80, the next
    // discarded bit decides.
    let xs: Vec<u32> = vec![0x0000_0001, 0x8000_0000];
    let mut out = vec![0u32; 1];
    let (inexact, increment) =
        bignum::float_extras::round_helper(&mut out, 8, &xs, 64, RoundingMode::Floor);
    assert_eq!(inexact, -1);
    assert!(!increment);
    assert_eq!(out, vec![0x8000_0000]);
    let mut out = vec![0u32; 1];
    let (inexact, increment) =
        bignum::float_extras::round_helper(&mut out, 8, &xs, 64, RoundingMode::Ceiling);
    assert_eq!(inexact, 1);
    assert!(!increment);
    assert_eq!(out, vec![0x8100_0000]);
    // Rounding all-ones up overflows to the next power of two.
    let ys: Vec<u32> = vec![0xffff_ffff, 0xffff_ffff];
    let mut out = vec![0u32; 1];
    let (inexact, increment) =
        bignum::float_extras::round_helper(&mut out, 8, &ys, 64, RoundingMode::Up);
    assert_eq!(inexact, 1);
    assert!(increment);
    assert_eq!(out, vec![0x8000_0000]);
    // A mantissa with uncertain low bits can or cannot be rounded, depending
    // on how far the certain bits reach.
    let m: Vec<u32> = vec![0x0000_0000, 0x8000_0001];
    assert!(bignum::float_extras::limbs_float_can_round(
        &m,
        40,
        8,
        RoundingMode::Down
    ));
    let all_zero_window: Vec<u32> = vec![0x0000_0000, 0x8000_0000];
    assert!(!bignum::float_extras::limbs_float_can_round(
        &all_zero_window,
        40,
        8,
        RoundingMode::Down
    ));
}

#[test]
fn string_conversion_errors() {
    assert!(Natural::from_str("").is_none());
    assert!(Natural::from_str("12a").is_none());
    assert!(Natural::from_string_base(16, "ffg").is_none());
    assert!(Integer::from_str("-").is_none());
    assert!(Integer::from_str("--1").is_none());
    assert!(Integer::from_str("123456").unwrap().to_string() == "123456");
    assert!(Integer::from_str("-123456").unwrap().to_string() == "-123456");
}

#[test]
fn conversion_scenarios() {
    // Two's-complement limb conversions.
    let x = Integer::from_twos_complement_limbs_asc(&[]);
    assert_eq!(x.to_string(), "0");
    let x = Integer::from_twos_complement_limbs_asc(&[123]);
    assert_eq!(x.to_string(), "123");
    let x = Integer::from_twos_complement_limbs_asc(&[4294967173]);
    assert_eq!(x.to_string(), "-123");
    let x = Integer::from_twos_complement_limbs_asc(&[3567587328, 232]);
    assert_eq!(x.to_string(), "1000000000000");
    let x = Integer::from_twos_complement_limbs_asc(&[727379968, 4294967063]);
    assert_eq!(x.to_string(), "-1000000000000");
    let x = Integer::from_twos_complement_limbs_desc(&[232, 3567587328]);
    assert_eq!(x.to_string(), "1000000000000");
    // Signed-value extraction.
    assert_eq!(Integer::from(123).to_u32(), Some(123));
    assert_eq!(Integer::from(-123).to_u32(), None);
    assert_eq!(Integer::from_str("1000000000000").unwrap().to_u32(), None);
    assert_eq!(Integer::from(123).to_u32_wrapping(), 123);
    assert_eq!(Integer::from(-123).to_u32_wrapping(), 4294967173);
    assert_eq!(
        Integer::from_str("1000000000000").unwrap().to_u32_wrapping(),
        3567587328
    );
    assert_eq!(
        Integer::from_str("-1000000000000").unwrap().to_u32_wrapping(),
        727379968
    );
    // Squaring modulo a power of two.
    let n = Natural::from(25u32);
    assert_eq!(n.mod_power_of_2_square(5).to_string(), "17");
    let m = Natural::from_limbs_asc(&[123, 456]);
    assert_eq!(
        m.mod_power_of_2_square(42).to_limbs_asc(),
        vec![15129, 560]
    );
}
