use rt_core::scalar::Scalar;
use rt_core::scalar::MAX_RAW;
use rt_core::scalar::ONE_RAW;

fn sc(x: f64) -> Scalar {
    Scalar::from_raw((x * 4294967296.0).round() as i64)
}

#[test]
fn constants_have_their_numerators() {
    assert_eq!(Scalar::zero().raw(), 0);
    assert_eq!(Scalar::one().raw(), ONE_RAW);
    assert_eq!(Scalar::one().raw(), 4294967296);
    assert_eq!(Scalar::infinity().raw(), MAX_RAW);
    assert_eq!(Scalar::neg_infinity().raw(), -MAX_RAW);
}

#[test]
fn from_raw_pins_the_lowest_integer_to_the_range() {
    assert_eq!(Scalar::from_raw(i64::MIN).raw(), -i64::MAX);
    assert_eq!(Scalar::from_raw(i64::MAX).raw(), i64::MAX);
    assert_eq!(Scalar::from_raw(-17).raw(), -17);
}

#[test]
fn from_int_scales_by_two_to_the_32() {
    assert_eq!(Scalar::from_int(3).raw(), 3 * 4294967296);
    assert_eq!(Scalar::from_int(-256).raw(), -256 * 4294967296);
    assert_eq!(Scalar::from_int(i32::MAX).raw(), 2147483647 * 4294967296);
    assert_eq!(Scalar::from_int(i32::MIN).raw(), -i64::MAX);
}

#[test]
fn from_ratio_rounds_toward_zero() {
    assert_eq!(Scalar::from_ratio(1, 2).raw(), 2147483648);
    assert_eq!(Scalar::from_ratio(7, 10).raw(), 3006477107);
    assert_eq!(Scalar::from_ratio(-1, 3).raw(), -1431655765);
    assert_eq!(Scalar::from_ratio(1, -3).raw(), -1431655765);
    assert_eq!(Scalar::from_ratio(-1, -3).raw(), 1431655765);
    assert_eq!(Scalar::from_ratio(i64::MAX, 1), Scalar::infinity());
}

#[test]
fn one_plus_one_is_two() {
    let two = Scalar::one() + Scalar::one();
    assert_eq!(two, Scalar::from_int(2));
    assert_eq!(two.raw(), 2 * 4294967296);
}

#[test]
fn sums_and_differences_are_exact_in_range() {
    assert_eq!(sc(1.5) + sc(2.25), sc(3.75));
    assert_eq!(sc(1.5) - sc(2.25), sc(-0.75));
    assert_eq!(Scalar::from_raw(5) - Scalar::from_raw(7), Scalar::from_raw(-2));
}

#[test]
fn sums_saturate_at_the_ends() {
    assert_eq!(Scalar::infinity() + Scalar::one(), Scalar::infinity());
    assert_eq!(Scalar::neg_infinity() - Scalar::one(), Scalar::neg_infinity());
    assert_eq!(Scalar::infinity() + Scalar::infinity(), Scalar::infinity());
    assert_eq!(Scalar::infinity() - Scalar::infinity(), Scalar::zero());
    assert_eq!(Scalar::neg_infinity() - Scalar::infinity(), Scalar::neg_infinity());
}

#[test]
fn negation_is_exact_at_both_ends() {
    assert_eq!(-Scalar::infinity(), Scalar::neg_infinity());
    assert_eq!(-Scalar::neg_infinity(), Scalar::infinity());
    assert_eq!(-sc(2.5), sc(-2.5));
    assert_eq!(-Scalar::zero(), Scalar::zero());
}

#[test]
fn products_round_toward_zero() {
    assert_eq!(sc(1.5) * sc(2.5), sc(3.75));
    assert_eq!(sc(-1.5) * sc(2.5), sc(-3.75));
    assert_eq!(sc(-1.5) * sc(-2.5), sc(3.75));
    assert_eq!(Scalar::from_raw(3) * sc(0.5), Scalar::from_raw(1));
    assert_eq!(Scalar::from_raw(-3) * sc(0.5), Scalar::from_raw(-1));
    assert_eq!(Scalar::from_raw(1000) * Scalar::from_raw(1000), Scalar::zero());
    assert_eq!(sc(123.456) * Scalar::one(), sc(123.456));
}

#[test]
fn products_saturate() {
    let big = Scalar::from_int(100000);
    assert_eq!(big * big, Scalar::infinity());
    assert_eq!(big * -big, Scalar::neg_infinity());
    assert_eq!(Scalar::infinity() * Scalar::zero(), Scalar::zero());
}

#[test]
fn quotients_round_toward_zero() {
    assert_eq!(Scalar::one() / Scalar::from_int(3), Scalar::from_raw(1431655765));
    assert_eq!(-Scalar::one() / Scalar::from_int(3), Scalar::from_raw(-1431655765));
    assert_eq!(Scalar::from_int(7) / Scalar::from_int(2), sc(3.5));
    assert_eq!(Scalar::from_int(7) / Scalar::from_int(-2), sc(-3.5));
    assert_eq!(Scalar::zero() / Scalar::from_int(5), Scalar::zero());
    assert_eq!(sc(123.456) / Scalar::one(), sc(123.456));
}

#[test]
fn quotients_saturate() {
    assert_eq!(Scalar::from_int(1000000) / Scalar::from_raw(1), Scalar::infinity());
    assert_eq!(Scalar::from_int(-1000000) / Scalar::from_raw(1), Scalar::neg_infinity());
}

#[test]
fn square_roots_round_down() {
    assert_eq!(Scalar::from_int(4).sqrt(), Scalar::from_int(2));
    assert_eq!(sc(0.25).sqrt(), sc(0.5));
    assert_eq!(Scalar::from_int(2).sqrt(), Scalar::from_raw(6074000999));
    assert_eq!(Scalar::one().sqrt(), Scalar::one());
    assert_eq!(Scalar::from_raw(1).sqrt(), Scalar::from_raw(65536));
    assert_eq!(Scalar::infinity().sqrt().raw(), 199032864766430);
}

#[test]
fn square_root_of_what_is_not_positive_is_zero() {
    assert_eq!(Scalar::zero().sqrt(), Scalar::zero());
    assert_eq!(sc(-1.0).sqrt(), Scalar::zero());
    assert_eq!(Scalar::neg_infinity().sqrt(), Scalar::zero());
}

#[test]
fn square_root_squared_is_just_below_the_number() {
    for k in 1..2000 {
        let x = Scalar::from_raw(k * 7919 * 65537 + 13);
        let r = x.sqrt().raw() as i128;
        let n = (x.raw() as i128) << 32;
        assert!(r * r <= n);
        assert!((r + 1) * (r + 1) > n);
    }
}

#[test]
fn rounding_goes_to_the_nearest_whole_number() {
    assert_eq!(sc(2.5).round(), 3);
    assert_eq!(sc(-2.5).round(), -3);
    assert_eq!(sc(2.4).round(), 2);
    assert_eq!(sc(-2.4).round(), -2);
    assert_eq!(sc(224.999).round(), 225);
    assert_eq!(Scalar::zero().round(), 0);
    assert_eq!(Scalar::infinity().round(), 2147483648);
}

#[test]
fn truncation_drops_the_fraction() {
    assert_eq!(sc(2.9).trunc(), 2);
    assert_eq!(sc(-2.9).trunc(), -2);
    assert_eq!(sc(255.74).trunc(), 255);
    assert_eq!(sc(0.5).trunc(), 0);
}

#[test]
fn order_follows_the_numerators() {
    let a = sc(-1.0);
    let b = sc(0.5);
    assert!(a.lt(&b));
    assert!(a.le(&b));
    assert!(!a.gt(&b));
    assert!(!a.ge(&b));
    assert!(b.le(&b));
    assert!(b.ge(&b));
    assert!(!b.lt(&b));
    assert!(!b.gt(&b));
    assert!(a < b);
    assert!(Scalar::neg_infinity() < Scalar::infinity());
}

#[test]
fn min_max_and_abs() {
    assert_eq!(sc(1.0).min(sc(2.0)), sc(1.0));
    assert_eq!(sc(1.0).max(sc(2.0)), sc(2.0));
    assert_eq!(sc(-3.0).min(sc(-4.0)), sc(-4.0));
    assert_eq!(sc(-3.0).abs(), sc(3.0));
    assert_eq!(sc(3.0).abs(), sc(3.0));
    assert_eq!(Scalar::neg_infinity().abs(), Scalar::infinity());
}

#[test]
fn random_range_stays_in_range() {
    let lo = sc(-0.5);
    let hi = sc(0.5);
    for _ in 0..2000 {
        let x = Scalar::random_range(lo, hi);
        assert!(lo.le(&x));
        assert!(x.le(&hi));
    }
}

#[test]
fn random_range_of_one_value_gives_it() {
    let x = sc(0.25);
    for _ in 0..20 {
        assert_eq!(Scalar::random_range(x, x), x);
    }
}

#[test]
fn random_range_varies() {
    let lo = Scalar::zero();
    let hi = Scalar::one();
    let mut not_low = false;
    let mut not_high = false;
    let mut below_half = false;
    let mut above_half = false;
    for _ in 0..400 {
        let x = Scalar::random_range(lo, hi);
        not_low = not_low || x != lo;
        not_high = not_high || x != hi;
        below_half = below_half || x < sc(0.5);
        above_half = above_half || x > sc(0.5);
    }
    assert!(not_low && not_high && below_half && above_half);
}
