use ropekit::big_bcd::BigBcd;
use ropekit::primes::{segmented_sieve, sieve};
use std::cmp::Ordering;

#[test]
fn add_test() {
    let a = BigBcd::from(1000);
    let b = BigBcd::from(1234);
    assert!(a.add(&b) == BigBcd::from(1000 + 1234));
    let a = BigBcd::from("10124302141");
    let b = BigBcd::from("21041232112521123124215151512512");
    assert!(a.add(&b) == BigBcd::from("21041232112521123124225275814653"));
}

#[test]
fn sub_test() {
    let a = BigBcd::from(1000);
    let b = BigBcd::from(1234);
    let c = b.subtract(&a);
    println!("{}", c.render());
    assert!(c == BigBcd::from(234));
    let a = BigBcd::from("10124302141");
    let b = BigBcd::from("21041232112521123124215151512512");
    let c = b.subtract(&a);
    println!("{}", c.render());
    assert!(c == BigBcd::from("21041232112521123124205027210371"));
}

#[test]
fn mul_test() {
    let a = BigBcd::from(1000);
    let b = BigBcd::from(1234);
    let c = b.multiply(&a);
    println!("{}", c.render());
    assert!(c == BigBcd::from(1234000));
    let a = BigBcd::from("10124302141");
    let b = BigBcd::from("21041232112521123124215151512512");
    let c = b.multiply(&a);
    println!("{}", c.render());
    assert!(c == BigBcd::from("213027791326075559754216067402764629888192"));
}

#[test]
fn div_rem_test() {
    let a = BigBcd::from(1000);
    let b = BigBcd::from(1234);
    let (c, d) = b.div_rem(&a);
    println!("{}, {}", c.render(), d.render());
    assert!(c == BigBcd::from(1));
    assert!(d == BigBcd::from(234));
    let a = BigBcd::from("10124302141");
    let b = BigBcd::from("21041232112521123124215151512512");
    let (c, d) = b.div_rem(&a);
    println!("{}, {}", c.render(), d.render());
    assert!(c == BigBcd::from("2078289626236187524326"));
    assert!(d == BigBcd::from("3940130546"));
    assert!(c > a);
    assert!(BigBcd::from(9) > BigBcd::from(8));
    assert!(BigBcd::from(80) > BigBcd::from(9));
}

#[test]
fn project_euler_10_test() {
    let mut res: BigBcd = BigBcd::from(0);
    let primes = sieve(2000000);
    for i in primes {
        res = res.add(&BigBcd::from(i));
    }
    let mut res2 = BigBcd::from(0);
    let primes = segmented_sieve(0, 2000000);
    for i in primes {
        res2 = res2.add(&BigBcd::from(i));
    }
    assert!(res == BigBcd::from("142913828922"));
    assert!(res2 == BigBcd::from("142913828922"));
}

fn big(n: u64) -> BigBcd {
    BigBcd::from(n.to_string())
}

#[test]
fn from_usize_and_render_round_trip() {
    for n in [0usize, 1, 9, 10, 99, 100, 12345, 1000000] {
        assert_eq!(BigBcd::from(n).render(), n.to_string());
        assert_eq!(BigBcd::from_usize(n), BigBcd::from(n.to_string()));
    }
}

#[test]
fn num_digits_counts_without_leading_zeros() {
    assert_eq!(BigBcd::from(0).num_digits(), 1);
    assert_eq!(BigBcd::from(9).num_digits(), 1);
    assert_eq!(BigBcd::from(10).num_digits(), 2);
    assert_eq!(BigBcd::from("00012345").num_digits(), 5);
    assert_eq!(BigBcd::from("21041232112521123124215151512512").num_digits(), 32);
}

#[test]
fn parse_accepts_decimal_numerals_only() {
    assert!(BigBcd::parse("").is_none());
    assert!(BigBcd::parse("12a4").is_none());
    assert!(BigBcd::parse("-5").is_none());
    assert!(BigBcd::parse(" 5").is_none());
    assert!(BigBcd::parse("٣").is_none());
    assert_eq!(BigBcd::parse("0").expect("a numeral").render(), "0");
    assert_eq!(BigBcd::parse("007").expect("a numeral").render(), "7");
    assert_eq!(BigBcd::parse("0000").expect("a numeral").render(), "0");
    assert_eq!(BigBcd::parse("1200").expect("a numeral").render(), "1200");
}

#[test]
fn from_text_that_is_no_numeral_is_zero() {
    assert_eq!(BigBcd::from("12a4"), BigBcd::zero());
    assert_eq!(BigBcd::from(""), BigBcd::zero());
    assert_eq!(BigBcd::from(String::from("x")), BigBcd::from(0));
}

#[test]
fn add_carries_through_nines() {
    assert_eq!(big(999).add(&big(1)).render(), "1000");
    assert_eq!(big(1).add(&big(999)).render(), "1000");
    assert_eq!(big(0).add(&big(0)).render(), "0");
    assert_eq!(big(95).add(&big(7)).render(), "102");
    assert_eq!(big(123456789).add(&big(987654321)).render(), "1111111110");
}

#[test]
fn add_pairs_digits_of_unequal_lengths() {
    // The low digits must meet position by position and the high digits of
    // the longer number must follow in their own places.
    assert_eq!(big(1234567).add(&big(89)).render(), "1234656");
    assert_eq!(big(89).add(&big(1234567)).render(), "1234656");
}

#[test]
fn subtract_saturates_at_zero() {
    assert_eq!(big(5).subtract(&big(7)).render(), "0");
    assert_eq!(big(123).subtract(&big(124)).render(), "0");
    assert_eq!(big(99).subtract(&big(100)).render(), "0");
    assert_eq!(big(7).subtract(&big(7)).render(), "0");
}

#[test]
fn subtract_borrows_and_trims() {
    assert_eq!(big(1000).subtract(&big(1)).render(), "999");
    assert_eq!(big(1000).subtract(&big(999)).render(), "1");
    assert_eq!(big(100000).subtract(&big(99999)).render(), "1");
    assert_eq!(big(4321).subtract(&big(0)).render(), "4321");
}

#[test]
fn multiply_small_and_carrying_products() {
    assert_eq!(big(5).multiply(&big(2)).render(), "10");
    assert_eq!(big(99).multiply(&big(99)).render(), "9801");
    assert_eq!(big(0).multiply(&big(12345)).render(), "0");
    assert_eq!(big(12345).multiply(&big(0)).render(), "0");
    assert_eq!(big(1).multiply(&big(12345)).render(), "12345");
    assert_eq!(big(4294967295).multiply(&big(4294967295)).render(), "18446744065119617025");
}

#[test]
fn division_matches_machine_division() {
    let pairs: [(u64, u64); 10] = [
        (0, 1),
        (1, 1),
        (100, 2),
        (1234, 1000),
        (999, 1000),
        (1000, 999),
        (987654321, 12345),
        (1000000, 7),
        (18446744073709551615, 4294967297),
        (500, 500),
    ];
    for (a, b) in pairs {
        let (q, r) = big(a).div_rem(&big(b));
        assert_eq!(q.render(), (a / b).to_string(), "{} / {}", a, b);
        assert_eq!(r.render(), (a % b).to_string(), "{} % {}", a, b);
        assert_eq!(big(a).divide(&big(b)), q);
        assert_eq!(big(a).rem(&big(b)), r);
    }
}

#[test]
fn quotient_times_divisor_plus_remainder() {
    let a = BigBcd::from("21041232112521123124215151512512");
    let b = BigBcd::from("10124302141");
    let (q, r) = a.div_rem(&b);
    assert_eq!(q.multiply(&b).add(&r), a);
    assert_eq!(r.cmp(&b), Ordering::Less);
}

#[test]
fn ordering_follows_the_numbers() {
    assert_eq!(big(10).cmp(&big(9)), Ordering::Greater);
    assert_eq!(big(9).cmp(&big(10)), Ordering::Less);
    assert_eq!(big(123).cmp(&big(123)), Ordering::Equal);
    assert_eq!(big(123).cmp(&big(132)), Ordering::Less);
    assert_eq!(big(231).cmp(&big(132)), Ordering::Greater);
    assert_eq!(big(10).sign(&big(9)), 1);
    assert_eq!(big(9).sign(&big(10)), -1);
    assert_eq!(big(77).sign(&big(77)), 0);
    assert!(big(5) < big(6));
    assert!(big(6) >= big(6));
    assert_eq!(BigBcd::from("007").cmp(&big(8)), Ordering::Less);
}
