use interval_sets::array::Array;
use interval_sets::fraction::Fraction;
use interval_sets::interval::{ClosedRange, Interval, IntervalFlag};
use interval_sets::mathtool::{gcd_stein, get_bit};
use interval_sets::traits::Sign;
use interval_sets::vector::Vector;

#[test]
fn gcd_of_common_pairs() {
    assert_eq!(gcd_stein(12, 18), 6);
    assert_eq!(gcd_stein(-12, 18), 6);
    assert_eq!(gcd_stein(12, -18), 6);
    assert_eq!(gcd_stein(0, -7), 7);
    assert_eq!(gcd_stein(-9, 0), 9);
    assert_eq!(gcd_stein(0, 0), 0);
    assert_eq!(gcd_stein(17, 5), 1);
    assert_eq!(gcd_stein(1 << 40, 3 << 38), 1 << 38);
    assert_eq!(gcd_stein(i64::MAX, i64::MAX), i64::MAX);
    assert_eq!(gcd_stein(48, 180), 12);
}

#[test]
fn bits_read_from_the_low_end() {
    assert!(get_bit(0b1010, 1));
    assert!(!get_bit(0b1010, 2));
    assert!(get_bit(1 << 63, 63));
    assert!(!get_bit(0, 0));
}

#[test]
fn fraction_reduces_and_normalises_sign() {
    let f = Fraction::new(6, -8);
    assert_eq!((f.numerator(), f.denominator()), (-3, 4));
    let g = Fraction::new(-10, -4);
    assert_eq!((g.numerator(), g.denominator()), (5, 2));
    let z = Fraction::new(0, -5);
    assert_eq!((z.numerator(), z.denominator()), (0, 1));
}

#[test]
fn fraction_arithmetic() {
    let a = Fraction::new(1, 2);
    let b = Fraction::new(1, 3);
    assert_eq!(a.add(&b), Fraction::new(5, 6));
    assert_eq!(a.subtract(&b), Fraction::new(1, 6));
    assert_eq!(a.multiply(&b), Fraction::new(1, 6));
    assert_eq!(a.divide(&b), Fraction::new(3, 2));
    assert_eq!(Fraction::new(-7, 2).abs(), Fraction::new(7, 2));
    assert_eq!(Fraction::new(7, 2).negate(), Fraction::new(-7, 2));
    assert_eq!(Fraction::new(7, 2).to_i64(), 3);
    assert_eq!(Fraction::new(-7, 2).to_i64(), -3);
    let y = Fraction::new(-2, 5);
    assert_eq!(Fraction::new(3, 4).divide(&y).multiply(&y), Fraction::new(3, 4));
}

#[test]
fn sign_queries() {
    assert_eq!(Sign::Positive.to_i8(), 1);
    assert_eq!(Sign::Zero.to_i8(), 0);
    assert_eq!(Sign::Negative.to_i8(), -1);
    assert_eq!(Sign::NaN.to_i8(), -128);
    assert!(Sign::Positive.is_positive() && !Sign::Zero.is_positive());
    assert!(Sign::Zero.is_zero() && Sign::Zero.not_positive());
    assert!(Sign::Negative.is_negative() && Sign::Negative.not_zero());
    assert!(!Sign::Negative.not_negative() && Sign::NaN.not_negative());
}

#[test]
fn vector_dimension() {
    let v = Vector::new([1, 2, 3]);
    assert_eq!(v.dim(), 3);
}

#[test]
fn interval_membership_and_overlap() {
    let a = Interval::new(1, 5, true, false);
    assert!(!a.contain(&1));
    assert!(a.contain(&5));
    assert_eq!((*a.left(), *a.right(), a.left_open(), a.right_open()), (1, 5, true, false));
    let b = Interval::new(5, 9, true, false);
    assert!(!a.is_overlap(&b));
    let c = Interval::new(5, 9, false, false);
    assert!(a.is_overlap(&c));
    let (l, r, flag) = Interval::new(9, 2, true, false).take_away();
    assert_eq!((l, r, flag.left_open(), flag.right_open()), (2, 9, false, true));
    let closed = Interval::from_closed(ClosedRange::new(3, 4));
    assert!(closed.contain(&3) && closed.contain(&4) && !closed.contain(&5));
    let same = Interval::new(4, 4, false, true);
    assert_eq!((same.left_open(), same.right_open()), (false, true));
    assert!(!same.contain(&4));
    let reversed = Interval::from_closed(ClosedRange::new(8, 3));
    assert!(!reversed.contain(&3) && !reversed.contain(&5) && !reversed.contain(&8));
    let flag = IntervalFlag::new(true, true);
    assert!(flag.left_open() && flag.right_open());
}

#[test]
fn closed_range_queries() {
    let r = ClosedRange::new(2, 6);
    assert!(r.contains(&2) && r.contains(&6) && !r.contains(&7));
    assert!(r.is_overlap(&ClosedRange::new(6, 8)));
    assert!(!r.is_overlap(&ClosedRange::new(7, 8)));
    assert_eq!((*r.left(), *r.right()), (2, 6));
    assert_eq!(r.take_away(), (2, 6));
    assert_eq!(r.into_range(), 2..6);
    assert_eq!(r.to_range(), 2..=6);
}

#[test]
fn arrays_from_values() {
    let a = Array::from_value(3, 'x');
    assert_eq!(a.len(), 3);
    let b = Array::from_vec(vec![1, 2]);
    assert_eq!(b.len(), 2);
    let c = Array::from_slice(&[4, 5, 6, 7]);
    assert_eq!(c.len(), 4);
    let d: Array<u32> = Array::with_len(5);
    assert_eq!(d.len(), 5);
    assert_eq!(&*a, &['x', 'x', 'x']);
    assert_eq!(&*b, &[1, 2]);
    assert_eq!(&*c, &[4, 5, 6, 7]);
    assert_eq!(&*d, &[0, 0, 0, 0, 0]);
    let mut e = Array::from_vec(vec![3, 1, 2]);
    e[0] = 7;
    assert_eq!(&*e, &[7, 1, 2]);
}
