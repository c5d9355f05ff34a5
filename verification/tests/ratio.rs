use ropekit::ratio::{gcd, Ratio};
use std::cmp::Ordering;

#[test]
fn ratio_new_test() {
    let a = Ratio::new(8usize, 4usize);
    assert!(a.numerator == 2 && a.denominator == 1);
    let a = Ratio::new(32usize, 208usize);
    assert!(a.numerator == 2 && a.denominator == 13);
}

#[test]
fn ratio_add_test() {
    let a = Ratio::new(1037_usize, 2034);
    let b = Ratio::new(501, 1002);
    assert!(a + b == Ratio::new(1027, 1017));
}

#[test]
fn ratio_sub_test() {
    let a = Ratio::new(1037_usize, 2034);
    let b = Ratio::new(501, 1002);
    assert!(a - b == Ratio::new(10, 1017));
    let a = Ratio::new(1037_isize, 2034);
    let b = Ratio::new(501, 1002);
    assert!(b - a == Ratio::new(-10, 1017));
}

#[test]
fn ratio_mul_test() {
    let a = Ratio::new(1037_usize, 2034);
    let b = Ratio::new(501, 1002);
    assert!(a * b == Ratio::new(1037, 4068));
}

#[test]
fn ratio_div_test() {
    let a = Ratio::new(1037_usize, 2034);
    let b = Ratio::new(501, 1002);
    assert!(a / b == Ratio::new(1037, 1017));
    assert!(b / a == Ratio::new(1017, 1037));
}

#[test]
fn gcd_of_small_numbers() {
    assert_eq!(gcd(0usize, 0usize), 0);
    assert_eq!(gcd(0usize, 7usize), 7);
    assert_eq!(gcd(7usize, 0usize), 7);
    assert_eq!(gcd(12usize, 18usize), 6);
    assert_eq!(gcd(18usize, 12usize), 6);
    assert_eq!(gcd(17usize, 5usize), 1);
    assert_eq!(gcd(21isize, 14isize), 7);
    assert_eq!(gcd(9usize, 9usize), 9);
}

#[test]
fn new_reduces_signed_fractions() {
    let a = Ratio::new(-8isize, 12);
    assert_eq!((a.numerator, a.denominator), (-2, 3));
    let a = Ratio::new(8isize, -12);
    assert_eq!((a.numerator, a.denominator), (2, -3));
    let a = Ratio::new(-8isize, -12);
    assert_eq!((a.numerator, a.denominator), (-2, -3));
    let a = Ratio::new(0isize, -5);
    assert_eq!((a.numerator, a.denominator), (0, -1));
    let a = Ratio::new(5usize, 0);
    assert_eq!((a.numerator, a.denominator), (1, 0));
}

#[test]
fn reduce_in_place() {
    let mut a = Ratio { numerator: 84usize, denominator: 36 };
    a.reduce();
    assert_eq!((a.numerator, a.denominator), (7, 3));
    a.reduce();
    assert_eq!((a.numerator, a.denominator), (7, 3));
}

#[test]
fn cmp_by_cross_products() {
    let a = Ratio::new(1usize, 2);
    let b = Ratio::new(2usize, 3);
    assert_eq!(a.cmp(&b), Ordering::Less);
    assert_eq!(b.cmp(&a), Ordering::Greater);
    assert_eq!(a.cmp(&Ratio::new(3usize, 6)), Ordering::Equal);
    let c = Ratio::new(-1isize, 2);
    let d = Ratio::new(1isize, 3);
    assert_eq!(c.cmp(&d), Ordering::Less);
}

#[test]
fn sums_and_products_come_out_in_lowest_terms() {
    let a = Ratio::new(1usize, 6);
    let b = Ratio::new(1usize, 3);
    let s = a + b;
    assert_eq!((s.numerator, s.denominator), (1, 2));
    let p = Ratio::new(2usize, 3) * Ratio::new(3usize, 4);
    assert_eq!((p.numerator, p.denominator), (1, 2));
    let q = Ratio::new(2isize, 3) / Ratio::new(-4isize, 9);
    assert_eq!((q.numerator, q.denominator), (3, -2));
    let d = Ratio::new(1isize, 3) - Ratio::new(1isize, 2);
    assert_eq!((d.numerator, d.denominator), (-1, 6));
}
