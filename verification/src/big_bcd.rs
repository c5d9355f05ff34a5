//! Natural numbers of any size, held as decimal digits.
//!
//! The digits stand lowest first. A well-formed number has at least one
//! digit, digits from 0 to 9 only, and no zero at its high end unless it is
//! the single digit 0, so that each number has one representation.

use crate::digits::{
    all_digits, canonical, char_of, compare_from, copy_digits, decimal_value, digit_at, digit_of,
    digits_of_text, is_decimal, is_digit_char, lemma_canonical_unique, lemma_digits_needed,
    lemma_length_sign, lemma_longer_is_greater, lemma_low_step, lemma_positive_top,
    lemma_pow10_add, lemma_pow10_grows, lemma_shifted_compare, lemma_value_bound,
    lemma_value_push, lemma_value_reaches, lemma_value_split, lemma_value_update,
    lemma_zeros_value, length_sign, low, pad_to, pow10, text_of_digits, trim, value_of,
};
use itertools::EitherOrBoth;
use itertools::Itertools;
use std::cmp::Ordering;
use vstd::prelude::*;

verus! {

/// What `zip_longest` yields at one position of two digit strings.
#[derive(Clone, Copy)]
pub enum DigitPair {
    Both(u8, u8),
    Left(u8),
    Right(u8),
}

/// The pairing of `a` and `b` position by position, as long as the longer
/// of the two: both digits while both last, then the digits of the one
/// that is left.
pub open spec fn paired(a: Seq<u8>, b: Seq<u8>) -> Seq<DigitPair> {
    Seq::new(
        if a.len() >= b.len() {
            a.len()
        } else {
            b.len()
        },
        |k: int|
            if k < a.len() && k < b.len() {
                DigitPair::Both(a[k], b[k])
            } else if k < a.len() {
                DigitPair::Left(a[k])
            } else {
                DigitPair::Right(b[k])
            },
    )
}

/// Calls `Itertools::zip_longest` on the two digit strings and collects what
/// it yields. The contract restates that method's documentation: `Both`
/// while neither side is exhausted, then `Left` or `Right` for what
/// remains of the longer side, and the end when both are exhausted.
#[verifier::external_body]
fn zip_longest_digits(a: &Vec<u8>, b: &Vec<u8>) -> (pairs: Vec<DigitPair>)
    ensures
        pairs@ == paired(a@, b@),
{
    let mut pairs = Vec::new();
    for pair in a.iter().zip_longest(b.iter()) {
        pairs.push(
            match pair {
                EitherOrBoth::Both(x, y) => DigitPair::Both(*x, *y),
                EitherOrBoth::Left(x) => DigitPair::Left(*x),
                EitherOrBoth::Right(y) => DigitPair::Right(*y),
            },
        );
    }
    pairs
}

/// The numeral of one digit.
fn digit_text(d: u8) -> (s: &'static str)
    requires
        d <= 9,
    ensures
        s@ == seq![char_of(d)],
{
    proof {
        reveal_strlit("0");
        reveal_strlit("1");
        reveal_strlit("2");
        reveal_strlit("3");
        reveal_strlit("4");
        reveal_strlit("5");
        reveal_strlit("6");
        reveal_strlit("7");
        reveal_strlit("8");
        reveal_strlit("9");
    }
    let s = match d {
        0 => "0",
        1 => "1",
        2 => "2",
        3 => "3",
        4 => "4",
        5 => "5",
        6 => "6",
        7 => "7",
        8 => "8",
        _ => "9",
    };
    assert(s@ =~= seq![char_of(d)]);
    s
}

/// The ordering that a sign stands for.
pub open spec fn sign_order(sign: int) -> Ordering {
    if sign > 0 {
        Ordering::Greater
    } else if sign < 0 {
        Ordering::Less
    } else {
        Ordering::Equal
    }
}

/// A natural number, held as its decimal digits from the lowest up.
#[derive(Clone, PartialEq, Eq, Debug)]
pub struct BigBcd {
    digs: Vec<u8>,
}

impl BigBcd {
    /// The number.
    pub closed spec fn view(&self) -> nat {
        value_of(self.digs@)
    }

    /// The digits, lowest first.
    pub closed spec fn digits(&self) -> Seq<u8> {
        self.digs@
    }

    /// The digits are the canonical ones of the number.
    pub closed spec fn wf(&self) -> bool {
        canonical(self.digs@)
    }

    /// The view is the value of the digits, and a well-formed number has
    /// canonical digits.
    pub proof fn lemma_view(self)
        ensures
            self@ == value_of(self.digits()),
            self.wf() == canonical(self.digits()),
    {
    }

    /// Well-formed numbers are equal exactly where their digits are.
    pub proof fn lemma_one_representation(self, other: Self)
        requires
            self.wf(),
            other.wf(),
        ensures
            self@ == other@ <==> self.digits() == other.digits(),
    {
        if self@ == other@ {
            lemma_canonical_unique(self.digs@, other.digs@);
        }
    }

    /// How many digits the number has.
    pub fn num_digits(&self) -> (n: usize)
        ensures
            n == self.digits().len(),
    {
        self.digs.len()
    }

    /// The number `x`.
    pub fn from_usize(x: usize) -> (r: BigBcd)
        ensures
            r.wf(),
            r@ == x,
    {
        let mut x = x;
        let ghost whole = x;
        let mut rv: Vec<u8> = Vec::new();
        proof {
            assert(x * pow10(0) == x) by (nonlinear_arith)
                requires
                    pow10(0) == 1,
            ;
        }
        while x > 0
            invariant
                all_digits(rv@),
                value_of(rv@) + x * pow10(rv@.len()) == whole,
                rv@.len() > 0 ==> rv@.last() != 0 || x > 0,
            decreases x,
        {
            let d = (x % 10) as u8;
            proof {
                lemma_value_push(rv@, d);
                let p = pow10(rv@.len());
                let q = x / 10;
                assert(x * p == d * p + q * (10 * p)) by (nonlinear_arith)
                    requires
                        x == 10 * q + d,
                ;
            }
            rv.push(d);
            x /= 10;
        }
        proof {
            assert(0 * pow10(rv@.len()) == 0) by (nonlinear_arith);
        }
        if rv.len() == 0 {
            proof {
                lemma_value_push(rv@, 0);
            }
            rv.push(0);
        }
        BigBcd { digs: rv }
    }

    /// The sum of the two numbers.
    pub fn add(&self, other: &Self) -> (r: BigBcd)
        requires
            self.wf(),
            other.wf(),
        ensures
            r.wf(),
            r@ == self@ + other@,
    {
        let pairs = zip_longest_digits(&self.digs, &other.digs);
        let ghost a = self.digs@;
        let ghost b = other.digs@;
        let mut res_vec: Vec<u8> = Vec::with_capacity(pairs.len());
        let mut carry: u8 = 0;
        let mut k: usize = 0;
        proof {
            lemma_low_step(a, 0);
            lemma_low_step(b, 0);
            assert(0 * pow10(0) == 0) by (nonlinear_arith);
        }
        while k < pairs.len()
            invariant
                pairs@ == paired(a, b),
                canonical(a),
                canonical(b),
                k <= pairs@.len(),
                res_vec@.len() == k,
                carry <= 1,
                all_digits(res_vec@),
                value_of(res_vec@) + carry * pow10(k as nat) == low(a, k as int) + low(b, k as int),
                k == pairs@.len() && k > 1 ==> carry > 0 || res_vec@.last() != 0,
            decreases pairs@.len() - k,
        {
            let curr: u8 = match pairs[k] {
                DigitPair::Both(x, y) => x + y + carry,
                DigitPair::Left(x) => x + carry,
                DigitPair::Right(y) => y + carry,
            };
            proof {
                lemma_low_step(a, k as int);
                lemma_low_step(b, k as int);
                lemma_value_push(res_vec@, curr % 10);
                let p = pow10(k as nat);
                let x = digit_at(a, k as int);
                let y = digit_at(b, k as int);
                let d = (curr % 10) as nat;
                let c = (curr / 10) as nat;
                assert(curr == x + y + carry);
                assert(d * p + c * (10 * p) == x * p + y * p + carry * p) by (nonlinear_arith)
                    requires
                        d + 10 * c == x + y + carry,
                ;
            }
            carry = curr / 10;
            res_vec.push(curr % 10);
            k += 1;
        }
        proof {
            lemma_low_step(a, k as int);
            lemma_low_step(b, k as int);
            lemma_value_push(res_vec@, carry);
            assert(0 * pow10(k as nat) == 0) by (nonlinear_arith);
        }
        if carry > 0 {
            res_vec.push(carry);
        }
        BigBcd { digs: res_vec }
    }

    /// The number 0.
    pub fn zero() -> (r: BigBcd)
        ensures
            r.wf(),
            r@ == 0,
    {
        let mut digs: Vec<u8> = Vec::new();
        proof {
            lemma_value_push(digs@, 0);
            assert(0 * pow10(0) == 0) by (nonlinear_arith);
        }
        digs.push(0);
        BigBcd { digs }
    }

    /// The difference of the two numbers; 0 where `other` is the greater.
    pub fn subtract(&self, other: &Self) -> (r: BigBcd)
        requires
            self.wf(),
            other.wf(),
        ensures
            r.wf(),
            r@ == (if self@ >= other@ {
                self@ - other@
            } else {
                0
            }),
    {
        let pairs = zip_longest_digits(&self.digs, &other.digs);
        let ghost a = self.digs@;
        let ghost b = other.digs@;
        let mut res_vec: Vec<u8> = Vec::with_capacity(self.digs.len());
        let mut borrow: u8 = 0;
        let mut k: usize = 0;
        proof {
            lemma_low_step(a, 0);
            lemma_low_step(b, 0);
            assert(0 * pow10(0) == 0) by (nonlinear_arith);
        }
        while k < pairs.len()
            invariant
                pairs@ == paired(a, b),
                canonical(a),
                canonical(b),
                a == self.digs@,
                b == other.digs@,
                k <= pairs@.len(),
                k <= a.len(),
                res_vec@.len() == k,
                borrow <= 1,
                all_digits(res_vec@),
                value_of(res_vec@) + low(b, k as int) == low(a, k as int) + borrow * pow10(
                    k as nat,
                ),
            decreases pairs@.len() - k,
        {
            let (x, y) = match pairs[k] {
                DigitPair::Both(x, y) => (x, y),
                DigitPair::Left(x) => (x, 0),
                DigitPair::Right(_) => {
                    proof {
                        lemma_longer_is_greater(b, a);
                    }
                    return BigBcd::zero();
                },
            };
            let take = y + borrow;
            let (d, out): (u8, u8) = if x >= take {
                (x - take, 0)
            } else {
                (x + 10 - take, 1)
            };
            proof {
                lemma_low_step(a, k as int);
                lemma_low_step(b, k as int);
                lemma_value_push(res_vec@, d);
                let p = pow10(k as nat);
                assert(d * p + y * p + borrow * p == x * p + out * (10 * p)) by (nonlinear_arith)
                    requires
                        d + y + borrow == x + 10 * out,
                ;
            }
            borrow = out;
            res_vec.push(d);
            k += 1;
        }
        proof {
            lemma_low_step(a, k as int);
            lemma_low_step(b, k as int);
            lemma_value_bound(res_vec@);
            assert(0 * pow10(k as nat) == 0) by (nonlinear_arith);
            assert(1 * pow10(k as nat) == pow10(k as nat)) by (nonlinear_arith);
        }
        if borrow > 0 {
            return BigBcd::zero();
        }
        trim(&mut res_vec);
        BigBcd { digs: res_vec }
    }

    /// How the two numbers compare: 1 where `self` is the greater, -1
    /// where it is the smaller, 0 where they are equal.
    pub fn sign(&self, other: &Self) -> (r: i8)
        ensures
            r == length_sign(self.digits(), other.digits()),
            self.wf() && other.wf() ==> (r == 1 <==> self@ > other@),
            self.wf() && other.wf() ==> (r == 0 <==> self@ == other@),
            self.wf() && other.wf() ==> (r == -1 <==> self@ < other@),
    {
        proof {
            if self.wf() && other.wf() {
                lemma_length_sign(self.digs@, other.digs@);
            }
            assert(self.digs@.skip(0) == self.digs@);
        }
        if self.digs.len() > other.digs.len() {
            1
        } else if self.digs.len() < other.digs.len() {
            -1
        } else {
            compare_from(&self.digs, 0, &other.digs)
        }
    }

    /// How the two numbers compare.
    pub fn cmp(&self, other: &Self) -> (r: Ordering)
        ensures
            r == sign_order(length_sign(self.digits(), other.digits())),
            self.wf() && other.wf() ==> (r == Ordering::Greater <==> self@ > other@),
            self.wf() && other.wf() ==> (r == Ordering::Equal <==> self@ == other@),
            self.wf() && other.wf() ==> (r == Ordering::Less <==> self@ < other@),
    {
        let sign = self.sign(other);
        if sign > 0 {
            Ordering::Greater
        } else if sign < 0 {
            Ordering::Less
        } else {
            Ordering::Equal
        }
    }

    /// The number that the numeral `s` shows; `None` where `s` is empty or
    /// holds anything but the characters `0` to `9`.
    pub fn parse(s: &str) -> (r: Option<BigBcd>)
        ensures
            r is Some <==> is_decimal(s@),
            r matches Some(b) ==> b.wf() && b@ == decimal_value(s@),
    {
        // The digits as they stand in the text, highest first.
        let mut shown: Vec<u8> = Vec::new();
        for c in it: s.chars()
            invariant
                it.seq() == s@,
                shown@.len() == it.index(),
                forall|j: int| 0 <= j < it.index() ==> is_digit_char(#[trigger] s@[j]),
                forall|j: int| 0 <= j < it.index() ==> shown@[j] == digit_of(s@[j]),
        {
            if c < '0' || c > '9' {
                return None;
            }
            shown.push((c as u8) - 48);
        }
        let n = shown.len();
        if n == 0 {
            return None;
        }
        let mut rv: Vec<u8> = Vec::with_capacity(n);
        let mut k = n;
        while k > 0
            invariant
                k <= n,
                n == s@.len(),
                n == shown@.len(),
                forall|j: int| 0 <= j < n ==> is_digit_char(#[trigger] s@[j]),
                forall|j: int| 0 <= j < n ==> shown@[j] == digit_of(s@[j]),
                all_digits(rv@),
                rv@ == digits_of_text(s@).take(n - k),
            decreases k,
        {
            k -= 1;
            proof {
                assert(digits_of_text(s@).take(n - k) == digits_of_text(s@).take(n - k - 1).push(
                    shown@[k as int],
                ));
            }
            rv.push(shown[k]);
        }
        proof {
            assert(digits_of_text(s@).take(n as int) == digits_of_text(s@));
        }
        trim(&mut rv);
        Some(BigBcd { digs: rv })
    }

    /// The numeral that shows the number, highest digit first.
    pub fn render(&self) -> (s: String)
        requires
            self.wf(),
        ensures
            s@ == text_of_digits(self.digits()),
            is_decimal(s@),
            decimal_value(s@) == self@,
    {
        let mut out = String::new();
        let n = self.digs.len();
        let mut k = n;
        while k > 0
            invariant
                k <= n,
                n == self.digs@.len(),
                canonical(self.digs@),
                out@ == text_of_digits(self.digs@).take(n - k),
            decreases k,
        {
            k -= 1;
            let shown = digit_text(self.digs[k]);
            proof {
                assert(text_of_digits(self.digs@).take(n - k) == text_of_digits(self.digs@).take(
                    n - k - 1,
                ) + shown@);
            }
            out.append(shown);
        }
        proof {
            let t = text_of_digits(self.digs@);
            assert(t.take(n as int) == t);
            assert(digits_of_text(t) == self.digs@);
        }
        out
    }

    /// Adds to `self` the product of `large`, digit `place` of `small`, and
    /// ten to the power `place`.
    fn dig_mul(&mut self, large: &Self, small: &Self, place: usize)
        requires
            all_digits(old(self).digs@),
            all_digits(large.digs@),
            all_digits(small.digs@),
            place < small.digs@.len(),
            large.digs@.len() + small.digs@.len() <= usize::MAX,
            value_of(old(self).digs@) + value_of(large.digs@) * small.digs@[place as int] * pow10(
                place as nat,
            ) < pow10(large.digs@.len() + small.digs@.len()),
        ensures
            all_digits(final(self).digs@),
            final(self).digs@.len() >= old(self).digs@.len(),
            value_of(final(self).digs@) == value_of(old(self).digs@) + value_of(large.digs@)
                * small.digs@[place as int] * pow10(place as nat),
    {
        let dig: u8 = small.digs[place];
        let ghost start = value_of(self.digs@);
        let ghost pp = pow10(place as nat);
        if dig == 0 {
            proof {
                assert(value_of(large.digs@) * 0 * pp == 0) by (nonlinear_arith);
            }
            return ;
        }
        let mut i: usize = 0;
        let mut carry: u8 = 0;
        proof {
            lemma_low_step(large.digs@, 0);
            assert(0 * pow10((0 + place) as nat) == 0) by (nonlinear_arith);
            assert(0 * dig * pp == 0) by (nonlinear_arith);
        }
        while i < large.digs.len()
            invariant
                i <= large.digs@.len(),
                carry <= 9,
                1 <= dig <= 9,
                pp == pow10(place as nat),
                place < small.digs@.len(),
                large.digs@.len() + small.digs@.len() <= usize::MAX,
                all_digits(self.digs@),
                all_digits(large.digs@),
                self.digs@.len() >= old(self).digs@.len(),
                value_of(self.digs@) + carry * pow10((i + place) as nat) == start + low(
                    large.digs@,
                    i as int,
                ) * dig * pp,
            decreases large.digs@.len() - i,
        {
            let l = large.digs[i];
            pad_to(&mut self.digs, i + place + 1);
            let e = self.digs[i + place];
            assert(l * dig <= 81) by (nonlinear_arith)
                requires
                    l <= 9,
                    dig <= 9,
            ;
            let curr: u8 = l * dig + carry + e;
            let ghost before = self.digs@;
            self.digs.set(i + place, curr % 10);
            proof {
                let d = (curr % 10) as nat;
                let c = (curr / 10) as nat;
                let x = (l * dig) as nat;
                let pi = pow10(i as nat);
                let p = pow10((i + place) as nat);
                let lo = low(large.digs@, i as int);
                lemma_pow10_add(i as nat, place as nat);
                lemma_low_step(large.digs@, i as int);
                lemma_value_update(before, (i + place) as int, (curr % 10) as u8);
                assert(d * p + c * (10 * p) == x * p + carry * p + e * p) by (nonlinear_arith)
                    requires
                        d + 10 * c == x + carry + e,
                ;
                assert(x * p == (l * pi) * dig * pp) by (nonlinear_arith)
                    requires
                        x == l * dig,
                        p == pi * pp,
                ;
                assert((lo + l * pi) * dig * pp == lo * dig * pp + (l * pi) * dig * pp)
                    by (nonlinear_arith);
            }
            carry = curr / 10;
            i += 1;
        }
        proof {
            lemma_low_step(large.digs@, i as int);
        }
        let ghost target = start + value_of(large.digs@) * dig * pp;
        let ghost room = large.digs@.len() + small.digs@.len();
        while carry > 0
            invariant
                carry <= 9,
                i + place <= usize::MAX,
                target < pow10(room),
                room <= usize::MAX,
                all_digits(self.digs@),
                self.digs@.len() >= old(self).digs@.len(),
                value_of(self.digs@) + carry * pow10((i + place) as nat) == target,
            decreases
                    (if carry == 0 {
                        0
                    } else if i + place >= self.digs@.len() {
                        1
                    } else {
                        self.digs@.len() - (i + place) + 1
                    }),
        {
            proof {
                // A carry at this place means a product that reaches it.
                let p = pow10((i + place) as nat);
                assert(carry * p >= p) by (nonlinear_arith)
                    requires
                        carry >= 1,
                ;
                if i + place >= room {
                    lemma_pow10_grows(room, (i + place) as nat);
                }
            }
            pad_to(&mut self.digs, i + place + 1);
            let e = self.digs[i + place];
            let curr: u8 = carry + e;
            let ghost before = self.digs@;
            self.digs.set(i + place, curr % 10);
            proof {
                let d = (curr % 10) as nat;
                let c = (curr / 10) as nat;
                let p = pow10((i + place) as nat);
                lemma_value_update(before, (i + place) as int, (curr % 10) as u8);
                let a0 = value_of(before);
                let a1 = value_of(self.digs@);
                assert(a1 + c * (10 * p) == target) by (nonlinear_arith)
                    requires
                        a0 + carry * p == target,
                        a1 + e * p == a0 + d * p,
                        d + 10 * c == carry + e,
                ;
            }
            carry = curr / 10;
            i += 1;
        }
        proof {
            assert(0 * pow10((i + place) as nat) == 0) by (nonlinear_arith);
        }
    }

    /// The product of the two numbers.
    pub fn multiply(&self, other: &Self) -> (r: BigBcd)
        requires
            self.wf(),
            other.wf(),
            self.digits().len() + other.digits().len() <= usize::MAX,
        ensures
            r.wf(),
            r@ == self@ * other@,
    {
        let (large, small) = if self.digs.len() > other.digs.len() {
            (self, other)
        } else {
            (other, self)
        };
        let mut res = BigBcd::zero();
        let mut place: usize = 0;
        proof {
            lemma_low_step(small.digs@, 0);
            assert(value_of(large.digs@) * 0 == 0) by (nonlinear_arith);
        }
        while place < small.digs.len()
            invariant
                place <= small.digs@.len(),
                all_digits(res.digs@),
                res.digs@.len() >= 1,
                all_digits(large.digs@),
                all_digits(small.digs@),
                large.digs@.len() + small.digs@.len() <= usize::MAX,
                value_of(res.digs@) == value_of(large.digs@) * low(small.digs@, place as int),
            decreases small.digs@.len() - place,
        {
            proof {
                lemma_low_step(small.digs@, place as int);
                let v = value_of(large.digs@);
                let w = value_of(small.digs@);
                let lo = low(small.digs@, place as int);
                let d = small.digs@[place as int] as nat;
                let p = pow10(place as nat);
                assert(v * lo + v * d * p == v * (lo + d * p)) by (nonlinear_arith);
                // The sum so far is no more than the whole product, which
                // has no more digits than both factors together.
                lemma_value_split(small.digs@, place + 1);
                lemma_value_bound(large.digs@);
                lemma_value_bound(small.digs@);
                lemma_pow10_add(large.digs@.len(), small.digs@.len());
                let pl = pow10(large.digs@.len());
                let ps = pow10(small.digs@.len());
                assert(v * (lo + d * p) < pl * ps) by (nonlinear_arith)
                    requires
                        v < pl,
                        lo + d * p <= w,
                        w < ps,
                ;
            }
            res.dig_mul(large, small, place);
            place += 1;
        }
        proof {
            lemma_low_step(small.digs@, place as int);
            assert(value_of(large.digs@) * value_of(small.digs@) == value_of(small.digs@)
                * value_of(large.digs@)) by (nonlinear_arith);
        }
        trim(&mut res.digs);
        res
    }

    /// Whether `self` is `other` times ten to the power `pow`, or more.
    fn greater_eq_pow(&self, other: &Self, pow: usize) -> (r: bool)
        requires
            self.wf(),
            other.wf(),
            other@ > 0,
            other.digs@.len() + pow <= usize::MAX,
        ensures
            r == (self@ >= other@ * pow10(pow as nat)),
    {
        let ghost a = self.digs@;
        let ghost b = other.digs@;
        let need = other.digs.len() + pow;
        proof {
            lemma_positive_top(b);
            lemma_value_bound(a);
            lemma_value_bound(b);
            lemma_pow10_add((b.len() - 1) as nat, pow as nat);
            lemma_pow10_add(b.len(), pow as nat);
            let p = pow10(pow as nat);
            let vb = value_of(b);
            let under = pow10((b.len() - 1) as nat);
            let over = pow10(b.len());
            lemma_pow10_grows(0, pow as nat);
            assert(under * p <= vb * p < over * p) by (nonlinear_arith)
                requires
                    under <= vb < over,
                    p > 0,
            ;
        }
        if self.digs.len() < need {
            proof {
                lemma_pow10_grows(a.len(), (need - 1) as nat);
            }
            false
        } else if self.digs.len() > need {
            proof {
                lemma_value_reaches(a);
                lemma_pow10_grows(need as nat, (a.len() - 1) as nat);
            }
            true
        } else {
            proof {
                lemma_shifted_compare(a, b, pow as nat);
            }
            compare_from(&self.digs, pow, &other.digs) >= 0
        }
    }

    /// Takes `other` times ten to the power `pow` away from `self`, which
    /// must be that much or more. Says whether it had to borrow beyond the
    /// high end, which it never has.
    fn sub_pow_inplace(&mut self, other: &Self, pow: usize) -> (borrowed: bool)
        requires
            old(self).wf(),
            all_digits(other.digs@),
            other.digs@.len() + pow <= old(self).digs@.len(),
            old(self)@ >= other@ * pow10(pow as nat),
        ensures
            final(self).wf(),
            final(self)@ + other@ * pow10(pow as nat) == old(self)@,
            !borrowed,
    {
        let ghost start = value_of(self.digs@);
        let ghost b = other.digs@;
        let ghost pp = pow10(pow as nat);
        let len = self.digs.len();
        let mut borrow: u8 = 0;
        let mut i: usize = 0;
        proof {
            lemma_low_step(b, 0);
            assert(0 * pp == 0) by (nonlinear_arith);
            assert(0 * pow10((0 + pow) as nat) == 0) by (nonlinear_arith);
        }
        while i < other.digs.len()
            invariant
                i <= b.len(),
                b == other.digs@,
                all_digits(b),
                pp == pow10(pow as nat),
                b.len() + pow <= len,
                self.digs@.len() == len,
                all_digits(self.digs@),
                borrow <= 1,
                value_of(self.digs@) + low(b, i as int) * pp == start + borrow * pow10(
                    (i + pow) as nat,
                ),
            decreases b.len() - i,
        {
            let x = self.digs[i + pow];
            let y = other.digs[i];
            let take = y + borrow;
            let (d, out): (u8, u8) = if x >= take {
                (x - take, 0)
            } else {
                (x + 10 - take, 1)
            };
            let ghost before = self.digs@;
            self.digs.set(i + pow, d);
            proof {
                let pi = pow10(i as nat);
                let p = pow10((i + pow) as nat);
                let lo = low(b, i as int);
                lemma_pow10_add(i as nat, pow as nat);
                lemma_low_step(b, i as int);
                lemma_value_update(before, (i + pow) as int, d);
                assert(d * p + y * p + borrow * p == x * p + out * (10 * p)) by (nonlinear_arith)
                    requires
                        d + y + borrow == x + 10 * out,
                ;
                assert((lo + y * pi) * pp == lo * pp + y * p) by (nonlinear_arith)
                    requires
                        p == pi * pp,
                ;
            }
            borrow = out;
            i += 1;
        }
        proof {
            lemma_low_step(b, i as int);
        }
        i += pow;
        while borrow > 0 && i < len
            invariant
                i <= len,
                self.digs@.len() == len,
                all_digits(self.digs@),
                borrow <= 1,
                value_of(self.digs@) + value_of(b) * pp == start + borrow * pow10(i as nat),
            decreases len - i,
        {
            let x = self.digs[i];
            let (d, out): (u8, u8) = if x >= 1 {
                (x - 1, 0)
            } else {
                (9, 1)
            };
            let ghost before = self.digs@;
            self.digs.set(i, d);
            proof {
                let p = pow10(i as nat);
                lemma_value_update(before, i as int, d);
                assert(d * p + borrow * p == x * p + out * (10 * p)) by (nonlinear_arith)
                    requires
                        d + borrow == x + 10 * out,
                        borrow == 1,
                ;
            }
            borrow = out;
            i += 1;
        }
        proof {
            lemma_value_bound(self.digs@);
            assert(0 * pow10(i as nat) == 0) by (nonlinear_arith);
            assert(1 * pow10(i as nat) == pow10(i as nat)) by (nonlinear_arith);
        }
        trim(&mut self.digs);
        borrow > 0
    }

    /// The quotient and the remainder of `self` by `other`.
    pub fn div_rem(&self, other: &Self) -> (res: (BigBcd, BigBcd))
        requires
            self.wf(),
            other.wf(),
            other@ > 0,
        ensures
            res.0.wf(),
            res.1.wf(),
            res.0@ * other@ + res.1@ == self@,
            res.1@ < other@,
            res.0@ == self@ / other@,
            res.1@ == self@ % other@,
    {
        let ghost vs = value_of(self.digs@);
        let ghost vb = value_of(other.digs@);
        let mut n = BigBcd { digs: copy_digits(&self.digs) };
        if self.digs.len() < other.digs.len() {
            proof {
                lemma_longer_is_greater(other.digs@, self.digs@);
                assert(0 * vb == 0) by (nonlinear_arith);
                vstd::arithmetic::div_mod::lemma_fundamental_div_mod_converse(
                    vs as int,
                    vb as int,
                    0,
                    vs as int,
                );
            }
            return (BigBcd::zero(), n);
        }
        let slen = self.digs.len();
        let top = slen - other.digs.len();
        let mut digs: Vec<u8> = vec![0u8; slen];
        let mut pow: usize = top + 1;
        proof {
            lemma_zeros_value(digs@);
            assert(0 * vb == 0) by (nonlinear_arith);
            // The dividend has `slen` digits, so it lies below the divisor
            // times ten to the power `top + 1`.
            lemma_positive_top(other.digs@);
            lemma_value_bound(self.digs@);
            lemma_pow10_add((other.digs@.len() - 1) as nat, (top + 1) as nat);
            let under = pow10((other.digs@.len() - 1) as nat);
            let p = pow10((top + 1) as nat);
            assert(under * p <= vb * p) by (nonlinear_arith)
                requires
                    under <= vb,
            ;
        }
        while pow > 0
            invariant
                pow <= top + 1,
                top + other.digs@.len() == slen,
                digs@.len() == slen,
                all_digits(digs@),
                forall|k: int| 0 <= k < pow ==> digs@[k] == 0,
                n.wf(),
                other.wf(),
                vb == value_of(other.digs@),
                vb > 0,
                value_of(digs@) * vb + value_of(n.digs@) == vs,
                value_of(n.digs@) < vb * pow10(pow as nat),
            decreases pow,
        {
            pow -= 1;
            let ghost unit = vb * pow10(pow as nat);
            proof {
                assert(vb * pow10((pow + 1) as nat) == 10 * unit) by (nonlinear_arith)
                    requires
                        pow10((pow + 1) as nat) == 10 * pow10(pow as nat),
                        unit == vb * pow10(pow as nat),
                ;
                assert(0 * unit == 0) by (nonlinear_arith);
                lemma_pow10_grows(0, pow as nat);
                assert(unit > 0) by (nonlinear_arith)
                    requires
                        unit == vb * pow10(pow as nat),
                        vb > 0,
                        pow10(pow as nat) > 0,
                ;
            }
            while n.greater_eq_pow(other, pow)
                invariant
                    pow <= top,
                    top + other.digs@.len() == slen,
                    digs@.len() == slen,
                    all_digits(digs@),
                    forall|k: int| 0 <= k < pow ==> digs@[k] == 0,
                    n.wf(),
                    other.wf(),
                    vb == value_of(other.digs@),
                    vb > 0,
                    unit == vb * pow10(pow as nat),
                    unit > 0,
                    value_of(digs@) * vb + value_of(n.digs@) == vs,
                    value_of(n.digs@) + digs@[pow as int] * unit < 10 * unit,
                decreases value_of(n.digs@),
            {
                let ghost count = digs@[pow as int];
                let ghost before = digs@;
                let ghost rest = value_of(n.digs@);
                proof {
                    // The divisor shifted by `pow` fits under the rest, so
                    // the rest has the digits that the subtraction reads.
                    lemma_positive_top(other.digs@);
                    lemma_pow10_add((other.digs@.len() - 1) as nat, pow as nat);
                    let under = pow10((other.digs@.len() - 1) as nat);
                    let p = pow10(pow as nat);
                    assert(under * p <= vb * p) by (nonlinear_arith)
                        requires
                            under <= vb,
                    ;
                    lemma_digits_needed(n.digs@, (other.digs@.len() - 1 + pow) as nat);
                    assert(count < 9) by (nonlinear_arith)
                        requires
                            rest + count * unit < 10 * unit,
                            rest >= unit,
                            unit > 0,
                    ;
                }
                n.sub_pow_inplace(other, pow);
                let c = digs[pow];
                digs.set(pow, c + 1);
                proof {
                    let p = pow10(pow as nat);
                    lemma_value_update(before, pow as int, (c + 1) as u8);
                    let q0 = value_of(before);
                    let q1 = value_of(digs@);
                    assert(q1 * vb == q0 * vb + unit) by (nonlinear_arith)
                        requires
                            q1 + c * p == q0 + (c + 1) * p,
                            unit == vb * p,
                    ;
                    assert((c + 1) * unit == c * unit + unit) by (nonlinear_arith);
                }
            }
            proof {
                assert(digs@[pow as int] * unit >= 0) by (nonlinear_arith)
                    requires
                        unit > 0,
                ;
            }
        }
        proof {
            assert(vb * pow10(0) == vb) by (nonlinear_arith)
                requires
                    pow10(0) == 1,
            ;
        }
        trim(&mut digs);
        proof {
            vstd::arithmetic::div_mod::lemma_fundamental_div_mod_converse(
                vs as int,
                vb as int,
                value_of(digs@) as int,
                value_of(n.digs@) as int,
            );
        }
        (BigBcd { digs }, n)
    }

    /// The quotient of `self` by `other`.
    pub fn divide(&self, other: &Self) -> (r: BigBcd)
        requires
            self.wf(),
            other.wf(),
            other@ > 0,
        ensures
            r.wf(),
            r@ == self@ / other@,
    {
        self.div_rem(other).0
    }

    /// The remainder of `self` by `other`.
    pub fn rem(&self, other: &Self) -> (r: BigBcd)
        requires
            self.wf(),
            other.wf(),
            other@ > 0,
        ensures
            r.wf(),
            r@ == self@ % other@,
    {
        self.div_rem(other).1
    }
}

impl PartialOrd for BigBcd {
    fn partial_cmp(&self, other: &Self) -> (r: Option<Ordering>) {
        Some(self.cmp(other))
    }
}

impl vstd::std_specs::cmp::PartialOrdSpecImpl for BigBcd {
    open spec fn obeys_partial_cmp_spec() -> bool {
        true
    }

    open spec fn partial_cmp_spec(&self, other: &Self) -> Option<Ordering> {
        Some(sign_order(length_sign(self.digits(), other.digits())))
    }
}

impl From<usize> for BigBcd {
    fn from(x: usize) -> (r: BigBcd)
        ensures
            r.wf(),
            r@ == x,
    {
        BigBcd::from_usize(x)
    }
}

impl vstd::std_specs::convert::FromSpecImpl<usize> for BigBcd {
    /// `from` states its result by value, in its own `ensures`: equal
    /// digits do not make two vectors the same to the verifier.
    open spec fn obeys_from_spec() -> bool {
        false
    }

    open spec fn from_spec(x: usize) -> Self {
        choose|b: BigBcd| b.wf() && b@ == x
    }
}

impl<'a> From<&'a str> for BigBcd {
    /// The number that the numeral `s` shows; 0 where `s` is no decimal
    /// numeral.
    fn from(s: &'a str) -> (r: BigBcd)
        ensures
            r.wf(),
            r@ == (if is_decimal(s@) {
                decimal_value(s@)
            } else {
                0
            }),
    {
        match BigBcd::parse(s) {
            Some(b) => b,
            None => BigBcd::zero(),
        }
    }
}

impl<'a> vstd::std_specs::convert::FromSpecImpl<&'a str> for BigBcd {
    /// `from` states its result by value, in its own `ensures`: equal
    /// digits do not make two vectors the same to the verifier.
    open spec fn obeys_from_spec() -> bool {
        false
    }

    open spec fn from_spec(s: &'a str) -> Self {
        choose|b: BigBcd|
            b.wf() && b@ == (if is_decimal(s@) {
                decimal_value(s@)
            } else {
                0
            })
    }
}

impl From<String> for BigBcd {
    /// The number that the numeral `s` shows; 0 where `s` is no decimal
    /// numeral.
    fn from(s: String) -> (r: BigBcd)
        ensures
            r.wf(),
            r@ == (if is_decimal(s@) {
                decimal_value(s@)
            } else {
                0
            }),
    {
        match BigBcd::parse(s.as_str()) {
            Some(b) => b,
            None => BigBcd::zero(),
        }
    }
}

impl vstd::std_specs::convert::FromSpecImpl<String> for BigBcd {
    /// `from` states its result by value, in its own `ensures`: equal
    /// digits do not make two vectors the same to the verifier.
    open spec fn obeys_from_spec() -> bool {
        false
    }

    open spec fn from_spec(s: String) -> Self {
        choose|b: BigBcd|
            b.wf() && b@ == (if is_decimal(s@) {
                decimal_value(s@)
            } else {
                0
            })
    }
}

} // verus!
