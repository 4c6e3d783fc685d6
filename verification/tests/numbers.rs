//! Floating-point values: rounding, special values, comparison, decimals and whole numbers.

use xc_ccm_hp::decimal::Decimal;
use xc_ccm_hp::float::{HpFloat, Kind};
use xc_ccm_hp::limbs::{
    bits, compare, difference, divided, divided_by_word, from_word, is_zero, product, scaled,
    shifted_down, shifted_up, square_root, sum, trim, Order,
};
use xc_ccm_hp::primes::prime_powers_up_to;

fn num(p: u32, x: i64) -> HpFloat {
    HpFloat::from_i64(p, x)
}

fn dec(p: u32, text: &str) -> HpFloat {
    HpFloat::from_decimal(p, &Decimal::parse(text).unwrap())
}

fn trimmed(mut limbs: Vec<u64>) -> Vec<u64> {
    trim(&mut limbs);
    limbs
}

#[test]
fn quotients_are_rounded_to_nearest() {
    let third = num(4, 1).over(&num(4, 3));
    assert_eq!(third.prec(), 4);
    assert_eq!(third.significand(), &vec![11]);
    assert_eq!(third.exponent(), -5);
    assert!(!third.is_sign_negative());
    let minus = num(4, -2).over(&num(9, 3));
    assert_eq!(minus.significand(), &vec![11]);
    assert_eq!(minus.exponent(), -4);
    assert!(minus.is_sign_negative());
}

#[test]
fn ties_go_to_the_even_significand() {
    assert_eq!(HpFloat::from_u64(3, 9), num(10, 8));
    assert_eq!(HpFloat::from_u64(3, 11), num(10, 12));
    assert_eq!(HpFloat::from_u64(3, 15), num(10, 16));
    assert_eq!(num(3, 7).plus(&num(3, 2)), num(10, 8));
    assert_eq!(num(10, 9).at(3), num(10, 8));
}

#[test]
fn the_left_precision_decides() {
    let a = num(4, 15);
    let b = num(64, 1_000);
    assert_eq!(a.plus(&b).prec(), 4);
    assert_eq!(a.plus(&b), num(64, 1_024));
    assert_eq!(b.plus(&a).prec(), 64);
    assert_eq!(b.plus(&a), num(64, 1_015));
    assert_eq!(b.minus_int(1_001), num(64, -1));
    assert_eq!(b.times_int(-3), num(64, -3_000));
    assert_eq!(b.times_word(2), num(64, 2_000));
    assert_eq!(b.over_int(8), num(64, 125));
    assert_eq!(b.plus_int(24), num(64, 1_024));
}

#[test]
fn sums_cancel_exactly() {
    let a = dec(200, "3.25");
    let difference = a.minus(&a);
    assert!(difference.is_zero());
    assert!(!difference.is_sign_negative());
    let near = dec(200, "1e-40").plus(&num(200, 1)).minus_int(1);
    assert!(near.lt(&dec(200, "1.0000000001e-40")));
    assert!(dec(200, "0.9999999999e-40").lt(&near));
}

#[test]
fn square_roots_are_rounded_to_nearest() {
    let root = num(8, 2).sqrt();
    assert_eq!(root.significand(), &vec![181]);
    assert_eq!(root.exponent(), -7);
    assert_eq!(num(20, 144).sqrt(), num(20, 12));
    assert!(num(20, -1).sqrt().is_nan());
    assert!(num(20, 0).sqrt().is_zero());
    assert!(HpFloat::infinity(20, false).sqrt().is_infinite());
}

#[test]
fn special_values_follow_the_usual_rules() {
    let p = 32;
    let one = num(p, 1);
    let zero = HpFloat::zero(p);
    let inf = HpFloat::infinity(p, false);
    let nan = HpFloat::nan(p);
    assert!(one.over(&zero).is_infinite());
    assert!(num(p, -1).over(&zero).is_sign_negative());
    assert!(zero.over(&zero).is_nan());
    assert!(inf.minus(&inf).is_nan());
    assert!(inf.times(&zero).is_nan());
    assert!(one.over(&inf).is_zero());
    assert!(nan.plus(&one).is_nan());
    assert!(!nan.lt(&one) && !one.lt(&nan) && !nan.eqv(&nan) && !nan.le(&nan));
    assert_eq!(nan.order(&one), None);
    assert!(one.lt(&inf) && inf.negated().lt(&one));
    assert!(zero.negated().eqv(&zero));
    assert!(zero.negated().is_sign_negative());
    assert!(!nan.is_finite() && !inf.is_finite() && one.is_finite());
    assert_eq!(one.kind(), Kind::Number);
    assert_eq!(zero.kind(), Kind::Zero);
    assert!(num(p, -5).lt_abs(&num(p, 6)) && !num(p, -7).lt_abs(&num(p, 6)));
}

#[test]
fn values_are_ordered() {
    let p = 40;
    let values = [num(p, -9), dec(p, "-0.5"), HpFloat::zero(p), dec(p, "1e-9"), num(p, 3)];
    for i in 0..values.len() {
        for j in 0..values.len() {
            assert_eq!(values[i].lt(&values[j]), i < j);
            assert_eq!(values[i].eqv(&values[j]), i == j);
            assert_eq!(values[i].le(&values[j]), i <= j);
        }
    }
    assert_eq!(values[0].order(&values[1]), Some(Order::Less));
    assert_eq!(num(10, 3), num(200, 3));
}

#[test]
fn sums_and_products_commute_on_values() {
    let a = dec(100, "1.7");
    let b = dec(100, "-0.3");
    assert_eq!(a.plus(&b), b.plus(&a));
    assert_eq!(a.times(&b), b.times(&a));
    assert_eq!(a.at(300), a);
}

#[test]
fn powers_of_two_and_range_limits() {
    assert_eq!(HpFloat::power_of_two(10, 5), num(10, 32));
    assert_eq!(HpFloat::power_of_two(10, -3), dec(10, "0.125"));
    assert!(HpFloat::power_of_two(10, 0x4000_0000).is_infinite());
    assert!(HpFloat::power_of_two(10, -0x4000_0010).is_zero());
    let parts = HpFloat::from_parts(70, true, &vec![0, 1], -64);
    assert_eq!(parts, num(70, -1));
}

#[test]
fn decimals_are_read_and_rounded_once() {
    let tenth = dec(5, "0.1");
    assert_eq!(tenth.significand(), &vec![26]);
    assert_eq!(tenth.exponent(), -8);
    assert_eq!(dec(60, "-12.50"), dec(60, "-125e-1"));
    assert_eq!(dec(60, "+4E2"), num(60, 400));
    assert_eq!(dec(60, ".5"), dec(60, "5.e-1"));
    assert!(Decimal::parse("").is_none());
    assert!(Decimal::parse("1..2").is_none());
    assert!(Decimal::parse("abc").is_none());
    assert!(Decimal::parse("1e").is_none());
    assert_eq!(HpFloat::from_decimal(64, &Decimal::tenths(3)), dec(64, "0.001"));
}

#[test]
fn decimals_are_compared_exactly_with_whole_numbers() {
    let above = Decimal::parse("13.0000000000000000000000000000000000001").unwrap();
    assert_eq!(above.order_with(13), Order::Greater);
    assert_eq!(above.order_with(14), Order::Less);
    assert_eq!(Decimal::parse("13").unwrap().order_with(13), Order::Equal);
    assert_eq!(Decimal::parse("1.3e1").unwrap().order_with(13), Order::Equal);
    assert_eq!(Decimal::parse("-2").unwrap().order_with(0), Order::Less);
}

#[test]
fn whole_numbers_add_and_multiply() {
    let top = vec![u64::MAX];
    assert_eq!(trimmed(sum(&top, &from_word(1))), vec![0, 1]);
    assert_eq!(trimmed(difference(&vec![0, 1], &from_word(1))), vec![u64::MAX]);
    assert_eq!(trimmed(product(&top, &top)), vec![1, u64::MAX - 1]);
    assert_eq!(trimmed(scaled(&top, 2)), vec![u64::MAX - 1, 1]);
    assert_eq!(compare(&vec![0, 1], &top), Order::Greater);
    assert_eq!(compare(&vec![5, 0], &vec![5]), Order::Equal);
    assert!(is_zero(&vec![0, 0]));
    let mut padded = vec![7, 0, 0];
    trim(&mut padded);
    assert_eq!(padded, vec![7]);
}

#[test]
fn whole_numbers_divide_and_shift() {
    let by_word = divided_by_word(&vec![0, 1], 10);
    assert_eq!((trimmed(by_word.0), by_word.1), (vec![1844674407370955161], 6));
    let exact = divided(&vec![0, 0, 1], &vec![0, 1]);
    let inexact = divided(&vec![1, 0, 1], &vec![0, 1]);
    assert_eq!(trimmed(exact.0), vec![0, 1]);
    assert_eq!(trimmed(inexact.0), vec![0, 1]);
    assert_ne!(exact.1, inexact.1);
    assert_eq!(trimmed(shifted_up(&vec![3], 65)), vec![0, 6]);
    let whole = shifted_down(&vec![0, 6], 65);
    let cut = shifted_down(&vec![1, 6], 65);
    assert_eq!(trimmed(whole.0), vec![3]);
    assert_eq!(trimmed(cut.0), vec![3]);
    assert_ne!(whole.1, cut.1);
    assert_eq!(bits(&vec![0, 1]), 65);
    assert_eq!(bits(&vec![0]), 0);
    let below = square_root(&vec![17]);
    let square = square_root(&vec![0, 1]);
    assert_eq!(trimmed(below.0), vec![4]);
    assert_eq!(trimmed(square.0), vec![1 << 32]);
    assert_ne!(below.1, square.1);
}

#[test]
fn prime_powers_are_listed_in_rising_order() {
    let found: Vec<(u64, u64, u32)> =
        prime_powers_up_to(19).iter().map(|c| (c.power, c.prime, c.exponent)).collect();
    assert_eq!(
        found,
        vec![
            (2, 2, 1),
            (3, 3, 1),
            (4, 2, 2),
            (5, 5, 1),
            (7, 7, 1),
            (8, 2, 3),
            (9, 3, 2),
            (11, 11, 1),
            (13, 13, 1),
            (16, 2, 4),
            (17, 17, 1),
            (19, 19, 1),
        ]
    );
    assert!(prime_powers_up_to(1).is_empty());
}
