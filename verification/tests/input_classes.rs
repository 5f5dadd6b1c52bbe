use bignum::inputs::chars_not_max;
use bignum::inputs::chars_not_min;
use bignum::inputs::odd_limbs;
use bignum::inputs::pairs_of_limb_vec_and_small_u64_var_2;
use bignum::inputs::pairs_of_limb_vec_and_small_u64_var_3;
use bignum::inputs::pairs_of_limb_vec_var_15;
use bignum::inputs::pairs_of_limb_vec_var_8;
use bignum::inputs::quadruples_of_limb_vec_limb_vec_limb_and_limb_var_3;
use bignum::inputs::triples_of_limb_vec_limb_and_u64_var_1;
use bignum::inputs::triples_of_limb_vec_limb_vec_and_limb_var_10;
use bignum::inputs::triples_of_limb_vec_limb_vec_and_limb_var_12;
use bignum::inputs::triples_of_limb_vec_limb_vec_and_limb_var_9;
use bignum::inputs::triples_of_limb_vec_var_5;
use bignum::inputs::triples_of_limb_vec_var_6;
use bignum::inputs::triples_of_limb_vec_var_7;
use bignum::inputs::triples_of_limb_vec_var_8;
use bignum::inputs::unsigned_pair_gen_var_5_limit;
use bignum::inputs::vecs_of_bool_var_1;
use bignum::inputs::vecs_of_bool_var_2;
use bignum::inputs::vecs_of_bool_var_3;
use bignum::inputs::vecs_of_bool_var_4;
use bignum::inputs::vecs_of_bool_var_5;
use bignum::inputs::vecs_of_limb_var_4;
use bignum::natural::Natural;

#[test]
fn test_odd_limbs() {
    assert_eq!(odd_limbs(0), 1);
    assert_eq!(odd_limbs(5), 11);
    assert_eq!(odd_limbs(0x7fff_ffff), 0xffff_ffff);
}

#[test]
fn test_chars_not_min_and_max() {
    assert!(chars_not_min('a'));
    assert!(!chars_not_min('\u{0}'));
    assert!(chars_not_max('a'));
    assert!(!chars_not_max('\u{10ffff}'));
}

#[test]
fn test_vecs_of_limb_var_4() {
    assert!(vecs_of_limb_var_4(&vec![]).is_none());
    let tripled = vecs_of_limb_var_4(&vec![5, 7]).unwrap();
    let n = Natural::from_owned_limbs_asc(tripled);
    let three = Natural::from(3u32);
    let orig = Natural::from_limbs_asc(&[5, 7]);
    assert!(n.eq(&orig.mul(&three)));
}

#[test]
fn test_pairs_of_limb_vec_var_8() {
    // A tripled input that fits its buffer is kept; one that does not fit is
    // rejected, as is an empty input.
    let r = pairs_of_limb_vec_var_8(vec![0, 0, 0], &vec![5, 7]).unwrap();
    assert_eq!(r.0, vec![0, 0, 0]);
    assert_eq!(r.1, vec![15, 21]);
    assert!(pairs_of_limb_vec_var_8(vec![0], &vec![5, 7]).is_none());
    assert!(pairs_of_limb_vec_var_8(vec![0, 0], &vec![]).is_none());
}

#[test]
fn test_exact_division_pair() {
    let (ns, ds) = pairs_of_limb_vec_var_15(&vec![3, 1], &vec![7]).unwrap();
    // The shaped dividend denotes exactly the product of the inputs.
    let n = Natural::from_owned_limbs_asc(ns);
    let expected = Natural::from_limbs_asc(&[3, 1]).mul(&Natural::from(7u32));
    assert!(n.eq(&expected));
    assert_eq!(ds, vec![7]);
    assert!(pairs_of_limb_vec_var_15(&vec![3, 1], &vec![0]).is_none());
}

#[test]
fn test_length_filters() {
    assert!(triples_of_limb_vec_var_5(&vec![1, 2, 3], &vec![1, 2], &vec![9]));
    assert!(!triples_of_limb_vec_var_5(&vec![1], &vec![1, 2], &vec![9]));
    assert!(!triples_of_limb_vec_var_5(&vec![1, 2, 3], &vec![0, 0], &vec![9]));
    assert!(triples_of_limb_vec_var_6(&vec![1], &vec![1, 2], &vec![9]));
    assert!(triples_of_limb_vec_var_7(&vec![1, 2], &vec![1, 2], &vec![9]));
    assert!(triples_of_limb_vec_var_8(&vec![1], &vec![1, 2], &vec![9]));
    assert!(pairs_of_limb_vec_and_small_u64_var_2(&vec![1, 2], 63));
    assert!(!pairs_of_limb_vec_and_small_u64_var_2(&vec![1, 2], 64));
    assert!(quadruples_of_limb_vec_limb_vec_limb_and_limb_var_3(
        &vec![0, 0],
        &vec![1],
        3,
        0
    ));
    assert!(!quadruples_of_limb_vec_limb_vec_limb_and_limb_var_3(
        &vec![0, 0],
        &vec![1],
        7,
        0
    ));
}

#[test]
fn test_congruence_shapes() {
    // var_9 builds a value congruent to ys modulo m.
    let (shaped, ys, m) = triples_of_limb_vec_limb_vec_and_limb_var_9(&vec![9, 9], &vec![4], 10);
    assert_eq!(ys, vec![4]);
    assert_eq!(m, 10);
    assert!(!triples_of_limb_vec_limb_vec_and_limb_var_10(
        &shaped,
        &vec![4],
        10
    ));
    // var_12 detects when m does not divide the sum.
    assert!(triples_of_limb_vec_limb_vec_and_limb_var_12(&vec![3], &vec![4], 10));
    assert!(!triples_of_limb_vec_limb_vec_and_limb_var_12(&vec![6], &vec![4], 10));
    // Reduction modulo a power of two.
    let (xs, y, pow) = triples_of_limb_vec_limb_and_u64_var_1(vec![0xffff_ffff, 0xff], 0xabcd, 8);
    assert_eq!(xs, vec![0xff, 0]);
    assert_eq!(y, 0xcd);
    assert_eq!(pow, 8);
}

#[test]
fn test_bool_vec_classes() {
    assert!(!vecs_of_bool_var_1(&vec![false, false]));
    assert!(vecs_of_bool_var_1(&vec![false, true]));
    assert!(vecs_of_bool_var_2(&vec![true, true, false], 3));
    assert!(!vecs_of_bool_var_2(&vec![false, false, false, true], 3));
    assert!(vecs_of_bool_var_3(&vec![true, false], 2));
    assert!(vecs_of_bool_var_3(&vec![true, true], 2));
    assert!(vecs_of_bool_var_3(&vec![false, true], 2));
    assert!(!vecs_of_bool_var_3(&vec![true, false, true], 2));
    assert!(vecs_of_bool_var_4(&vec![false, true, true], 2));
    assert!(!vecs_of_bool_var_4(&vec![true, false, false], 2));
    assert!(vecs_of_bool_var_5(&vec![false, true, false], 3));
    assert!(!vecs_of_bool_var_5(&vec![true, true, false], 3));
    assert!(vecs_of_bool_var_5(&vec![true, true], 2));
}

#[test]
fn test_clear_bit_filter() {
    // Clearing a set bit of the negation can carry into a new limb; the
    // filter keeps only candidates whose limb count is unchanged.
    assert!(pairs_of_limb_vec_and_small_u64_var_3(&vec![5], 1));
    assert!(!pairs_of_limb_vec_and_small_u64_var_3(&vec![1], 32));
    let mut limbs = vec![5u32];
    bignum::bit_access::limbs_vec_clear_bit_neg(&mut limbs, 1);
    // -5 is ...11011; clearing bit 1 gives ...11001 = -7.
    assert_eq!(limbs, vec![7]);
}

#[test]
fn test_gen_limit() {
    assert_eq!(unsigned_pair_gen_var_5_limit(255, 65535), 255);
    assert_eq!(unsigned_pair_gen_var_5_limit(65535, 255), 255);
}
