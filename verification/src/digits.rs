//! Strings of decimal digits, lowest digit first, and the numbers they
//! stand for: the model that the big numbers are stated over, with the
//! lemmas and the small routines that their arithmetic rests on.

use vstd::prelude::*;

verus! {

/// Ten to the power `n`.
pub open spec fn pow10(n: nat) -> nat
    decreases n,
{
    if n == 0 {
        1
    } else {
        10 * pow10((n - 1) as nat)
    }
}

/// The number that the digits `s` stand for, lowest digit first.
pub open spec fn value_of(s: Seq<u8>) -> nat
    decreases s.len(),
{
    if s.len() == 0 {
        0
    } else {
        value_of(s.drop_last()) + s.last() as nat * pow10((s.len() - 1) as nat)
    }
}

/// Every element of `s` is a decimal digit.
pub open spec fn all_digits(s: Seq<u8>) -> bool {
    forall|k: int| 0 <= k < s.len() ==> #[trigger] s[k] <= 9
}

/// `s` is the one representation of its value: decimal digits, at least
/// one, and none of them a zero at the high end of several.
pub open spec fn canonical(s: Seq<u8>) -> bool {
    &&& s.len() >= 1
    &&& all_digits(s)
    &&& s.len() == 1 || s.last() != 0
}

/// The digit that the character `c` shows, where it shows one.
pub open spec fn digit_of(c: char) -> u8 {
    (c as int - 48) as u8
}

/// The character that shows the digit `d`.
pub open spec fn char_of(d: u8) -> char {
    (d + 48) as char
}

/// `c` is one of the characters `0` to `9`.
pub open spec fn is_digit_char(c: char) -> bool {
    48 <= c as int <= 57
}

/// `t` is a decimal numeral: one character or more, each a digit.
pub open spec fn is_decimal(t: Seq<char>) -> bool {
    t.len() >= 1 && forall|k: int| 0 <= k < t.len() ==> is_digit_char(#[trigger] t[k])
}

/// The digits that the numeral `t` shows, lowest first: `t` is read from
/// its end.
pub open spec fn digits_of_text(t: Seq<char>) -> Seq<u8> {
    Seq::new(t.len(), |k: int| digit_of(t[t.len() - 1 - k]))
}

/// The numeral that shows the digits `s`, highest first.
pub open spec fn text_of_digits(s: Seq<u8>) -> Seq<char> {
    Seq::new(s.len(), |k: int| char_of(s[s.len() - 1 - k]))
}

/// The number that the numeral `t` shows.
pub open spec fn decimal_value(t: Seq<char>) -> nat {
    value_of(digits_of_text(t))
}

/// The value of the lowest `k` digits of `s`; of all of them where `s` has
/// no more.
pub open spec fn low(s: Seq<u8>, k: int) -> nat {
    value_of(
        s.take(
            if k <= s.len() {
                k
            } else {
                s.len() as int
            },
        ),
    )
}

/// Digit `k` of `s`; zero beyond its high end.
pub open spec fn digit_at(s: Seq<u8>, k: int) -> nat {
    if 0 <= k < s.len() {
        s[k] as nat
    } else {
        0
    }
}

/// How two digit strings of one length compare, read from the high end:
/// 1 where `a` is the greater, -1 where it is the smaller, 0 where they
/// are the same.
pub open spec fn digit_sign(a: Seq<u8>, b: Seq<u8>) -> int
    decreases a.len(),
{
    if a.len() == 0 || a.len() != b.len() {
        0
    } else if a.last() > b.last() {
        1
    } else if a.last() < b.last() {
        -1
    } else {
        digit_sign(a.drop_last(), b.drop_last())
    }
}

/// How two digit strings compare: the longer is the greater, and two of
/// one length compare by `digit_sign`.
pub open spec fn length_sign(a: Seq<u8>, b: Seq<u8>) -> int {
    if a.len() > b.len() {
        1
    } else if a.len() < b.len() {
        -1
    } else {
        digit_sign(a, b)
    }
}

/// One more digit at the high end adds that digit times its power of ten.
pub proof fn lemma_value_push(s: Seq<u8>, d: u8)
    ensures
        value_of(s.push(d)) == value_of(s) + d as nat * pow10(s.len()),
{
    assert(s.push(d).drop_last() == s);
}

/// Digits stand for a number below ten to the power of their count.
pub proof fn lemma_value_bound(s: Seq<u8>)
    requires
        all_digits(s),
    ensures
        value_of(s) < pow10(s.len()),
    decreases s.len(),
{
    if s.len() > 0 {
        lemma_value_bound(s.drop_last());
        let p = pow10((s.len() - 1) as nat);
        let d = s.last() as nat;
        assert(d * p <= 9 * p) by (nonlinear_arith)
            requires
                d <= 9,
        ;
    }
}

/// The powers of ten are positive and grow.
pub proof fn lemma_pow10_grows(a: nat, b: nat)
    requires
        a <= b,
    ensures
        0 < pow10(a) <= pow10(b),
    decreases b,
{
    if b == 0 {
    } else if a == b {
        lemma_pow10_grows((a - 1) as nat, (b - 1) as nat);
    } else {
        lemma_pow10_grows(a, (b - 1) as nat);
    }
}

/// Ten to a sum is the product of the powers.
pub proof fn lemma_pow10_add(a: nat, b: nat)
    ensures
        pow10(a + b) == pow10(a) * pow10(b),
    decreases a,
{
    if a == 0 {
        assert(pow10(0) * pow10(b) == pow10(b)) by (nonlinear_arith)
            requires
                pow10(0) == 1,
        ;
    } else {
        lemma_pow10_add((a - 1) as nat, b);
        let x = pow10((a - 1) as nat);
        let y = pow10(b);
        assert((10 * x) * y == 10 * (x * y)) by (nonlinear_arith);
        assert(pow10(a + b) == 10 * pow10((a + b - 1) as nat));
    }
}

/// A number whose highest digit is not zero reaches the power of ten of
/// that digit's place.
pub proof fn lemma_value_reaches(s: Seq<u8>)
    requires
        s.len() >= 1,
        s.last() != 0,
    ensures
        value_of(s) >= pow10((s.len() - 1) as nat),
{
    let p = pow10((s.len() - 1) as nat);
    let d = s.last() as nat;
    assert(d * p >= p) by (nonlinear_arith)
        requires
            d >= 1,
    ;
}

/// A zero at the high end changes nothing.
pub proof fn lemma_value_drop_zero(s: Seq<u8>)
    requires
        s.len() >= 1,
        s.last() == 0,
    ensures
        value_of(s.drop_last()) == value_of(s),
{
    let p = pow10((s.len() - 1) as nat);
    assert(0 * p == 0) by (nonlinear_arith);
}

/// A number is its low `k` digits plus ten to the `k` times the rest.
pub proof fn lemma_value_split(s: Seq<u8>, k: int)
    requires
        0 <= k <= s.len(),
    ensures
        value_of(s) == value_of(s.take(k)) + pow10(k as nat) * value_of(s.skip(k)),
    decreases s.len(),
{
    if k == s.len() {
        assert(s.take(k) == s);
        assert(s.skip(k).len() == 0);
        assert(pow10(k as nat) * 0 == 0) by (nonlinear_arith);
    } else {
        let t = s.drop_last();
        lemma_value_split(t, k);
        assert(t.take(k) == s.take(k));
        assert(s.skip(k).drop_last() == t.skip(k));
        assert(s.skip(k).last() == s.last());
        let n = (s.len() - 1) as nat;
        let d = s.last() as nat;
        let m = (n - k) as nat;
        lemma_pow10_add(k as nat, m);
        let pk = pow10(k as nat);
        let pm = pow10(m);
        let rest = value_of(t.skip(k));
        assert(pk * (rest + d * pm) == pk * rest + d * (pk * pm)) by (nonlinear_arith);
    }
}

/// Writing digit `d` at place `k` changes the value by the difference of
/// the digits times the power of ten of the place.
pub proof fn lemma_value_update(s: Seq<u8>, k: int, d: u8)
    requires
        0 <= k < s.len(),
    ensures
        value_of(s.update(k, d)) + s[k] as nat * pow10(k as nat) == value_of(s) + d as nat * pow10(
            k as nat,
        ),
    decreases s.len(),
{
    let t = s.drop_last();
    if k == s.len() - 1 {
        assert(s.update(k, d).drop_last() == t);
    } else {
        lemma_value_update(t, k, d);
        assert(s.update(k, d).drop_last() == t.update(k, d));
    }
}

/// The lowest `k + 1` digits are the lowest `k` and digit `k`.
pub proof fn lemma_low_step(s: Seq<u8>, k: int)
    requires
        0 <= k,
    ensures
        low(s, k + 1) == low(s, k) + digit_at(s, k) * pow10(k as nat),
        low(s, 0) == 0,
        k >= s.len() ==> low(s, k) == value_of(s),
{
    assert(s.take(0).len() == 0);
    if k < s.len() {
        assert(s.take(k + 1) == s.take(k).push(s[k]));
        lemma_value_push(s.take(k), s[k]);
    } else {
        assert(s.take(s.len() as int) == s);
        assert(0 * pow10(k as nat) == 0) by (nonlinear_arith);
    }
}

/// Digit strings of one length compare as their values do.
pub proof fn lemma_digit_sign(a: Seq<u8>, b: Seq<u8>)
    requires
        a.len() == b.len(),
        all_digits(a),
        all_digits(b),
    ensures
        digit_sign(a, b) == 1 <==> value_of(a) > value_of(b),
        digit_sign(a, b) == 0 <==> value_of(a) == value_of(b),
        digit_sign(a, b) == -1 <==> value_of(a) < value_of(b),
    decreases a.len(),
{
    if a.len() > 0 {
        let p = pow10((a.len() - 1) as nat);
        let x = a.last() as nat;
        let y = b.last() as nat;
        lemma_value_bound(a.drop_last());
        lemma_value_bound(b.drop_last());
        if x > y {
            assert(x * p >= y * p + p) by (nonlinear_arith)
                requires
                    x >= y + 1,
            ;
        } else if x < y {
            assert(y * p >= x * p + p) by (nonlinear_arith)
                requires
                    y >= x + 1,
            ;
        } else {
            lemma_digit_sign(a.drop_last(), b.drop_last());
        }
    }
}

/// Of two canonical digit strings the longer stands for the greater number.
pub proof fn lemma_longer_is_greater(a: Seq<u8>, b: Seq<u8>)
    requires
        canonical(a),
        all_digits(b),
        a.len() > b.len() >= 1,
    ensures
        value_of(a) > value_of(b),
{
    lemma_value_reaches(a);
    lemma_value_bound(b);
    lemma_pow10_grows(b.len(), (a.len() - 1) as nat);
}

/// Canonical digit strings compare by `length_sign` as their values do.
pub proof fn lemma_length_sign(a: Seq<u8>, b: Seq<u8>)
    requires
        canonical(a),
        canonical(b),
    ensures
        length_sign(a, b) == 1 <==> value_of(a) > value_of(b),
        length_sign(a, b) == 0 <==> value_of(a) == value_of(b),
        length_sign(a, b) == -1 <==> value_of(a) < value_of(b),
{
    if a.len() > b.len() {
        lemma_longer_is_greater(a, b);
    } else if a.len() < b.len() {
        lemma_longer_is_greater(b, a);
    } else {
        lemma_digit_sign(a, b);
    }
}

/// Digit strings of one length that stand for one number are the same.
pub proof fn lemma_same_value_same_digits(a: Seq<u8>, b: Seq<u8>)
    requires
        a.len() == b.len(),
        all_digits(a),
        all_digits(b),
        value_of(a) == value_of(b),
    ensures
        a == b,
    decreases a.len(),
{
    if a.len() > 0 {
        lemma_digit_sign(a, b);
        lemma_digit_sign(a.drop_last(), b.drop_last());
        lemma_same_value_same_digits(a.drop_last(), b.drop_last());
        assert(a == a.drop_last().push(a.last()));
        assert(b == b.drop_last().push(b.last()));
    } else {
        assert(a == b);
    }
}

/// A number has one canonical digit string.
pub proof fn lemma_canonical_unique(a: Seq<u8>, b: Seq<u8>)
    requires
        canonical(a),
        canonical(b),
        value_of(a) == value_of(b),
    ensures
        a == b,
{
    lemma_length_sign(a, b);
    lemma_same_value_same_digits(a, b);
}

/// A canonical digit string of a positive number ends in a digit that is
/// not zero.
pub proof fn lemma_positive_top(s: Seq<u8>)
    requires
        canonical(s),
        value_of(s) > 0,
    ensures
        s.last() != 0,
        value_of(s) >= pow10((s.len() - 1) as nat),
{
    if s.len() == 1 && s.last() == 0 {
        lemma_value_drop_zero(s);
        assert(s.drop_last().len() == 0);
    }
    lemma_value_reaches(s);
}

/// Where `a` has as many digits as `b` and `pow` more, `a` reaches `b`
/// times ten to the `pow` exactly where its digits from place `pow` up
/// are not below those of `b`.
pub proof fn lemma_shifted_compare(a: Seq<u8>, b: Seq<u8>, pow: nat)
    requires
        all_digits(a),
        all_digits(b),
        a.len() == b.len() + pow,
    ensures
        digit_sign(a.skip(pow as int), b) >= 0 <==> value_of(a) >= value_of(b) * pow10(pow),
{
    let hi = value_of(a.skip(pow as int));
    let lo = value_of(a.take(pow as int));
    let vb = value_of(b);
    let p = pow10(pow);
    lemma_value_split(a, pow as int);
    lemma_value_bound(a.take(pow as int));
    lemma_digit_sign(a.skip(pow as int), b);
    if hi >= vb {
        assert(p * hi >= vb * p) by (nonlinear_arith)
            requires
                hi >= vb,
        ;
    } else {
        assert(p * hi + p <= vb * p) by (nonlinear_arith)
            requires
                hi + 1 <= vb,
        ;
    }
}

/// A number that reaches ten to the power `k` has more than `k` digits.
pub proof fn lemma_digits_needed(s: Seq<u8>, k: nat)
    requires
        all_digits(s),
        value_of(s) >= pow10(k),
    ensures
        s.len() > k,
{
    lemma_value_bound(s);
    if s.len() <= k {
        lemma_pow10_grows(s.len(), k);
    }
}

/// Zeros stand for zero.
pub proof fn lemma_zeros_value(s: Seq<u8>)
    requires
        forall|k: int| 0 <= k < s.len() ==> s[k] == 0,
    ensures
        value_of(s) == 0,
        all_digits(s),
    decreases s.len(),
{
    if s.len() > 0 {
        lemma_zeros_value(s.drop_last());
        assert(0 * pow10((s.len() - 1) as nat) == 0) by (nonlinear_arith);
    }
}

/// A copy of the digits.
pub(crate) fn copy_digits(digs: &Vec<u8>) -> (r: Vec<u8>)
    ensures
        r@ == digs@,
{
    let r = digs.clone();
    assert(r@ =~= digs@);
    r
}

/// Removes zeros at the high end, down to one digit.
pub(crate) fn trim(digs: &mut Vec<u8>)
    requires
        old(digs)@.len() >= 1,
        all_digits(old(digs)@),
    ensures
        canonical(final(digs)@),
        value_of(final(digs)@) == value_of(old(digs)@),
        final(digs)@.len() <= old(digs)@.len(),
{
    while digs.len() > 1 && digs[digs.len() - 1] == 0
        invariant
            digs@.len() >= 1,
            all_digits(digs@),
            value_of(digs@) == value_of(old(digs)@),
            digs@.len() <= old(digs)@.len(),
        decreases digs@.len(),
    {
        proof {
            lemma_value_drop_zero(digs@);
        }
        digs.pop();
    }
}

/// Adds zeros at the high end until there are `n` digits or more.
pub(crate) fn pad_to(digs: &mut Vec<u8>, n: usize)
    requires
        all_digits(old(digs)@),
    ensures
        all_digits(final(digs)@),
        value_of(final(digs)@) == value_of(old(digs)@),
        final(digs)@.len() >= n,
        final(digs)@.len() == (if old(digs)@.len() >= n {
            old(digs)@.len()
        } else {
            n as nat
        }),
        forall|k: int| 0 <= k < old(digs)@.len() ==> final(digs)@[k] == old(digs)@[k],
        forall|k: int| old(digs)@.len() <= k < final(digs)@.len() ==> final(digs)@[k] == 0,
{
    while digs.len() < n
        invariant
            all_digits(digs@),
            value_of(digs@) == value_of(old(digs)@),
            digs@.len() >= old(digs)@.len(),
            digs@.len() <= n || digs@.len() == old(digs)@.len(),
            forall|k: int| 0 <= k < old(digs)@.len() ==> digs@[k] == old(digs)@[k],
            forall|k: int| old(digs)@.len() <= k < digs@.len() ==> digs@[k] == 0,
        decreases n - digs@.len(),
    {
        proof {
            lemma_value_push(digs@, 0);
            assert(0 * pow10(digs@.len()) == 0) by (nonlinear_arith);
        }
        digs.push(0);
    }
}

/// How the digits of `a` from place `pow` up compare with the digits of
/// `b`, read from the high end: 1, -1 or 0 as `digit_sign` has it.
pub(crate) fn compare_from(a: &Vec<u8>, pow: usize, b: &Vec<u8>) -> (r: i8)
    requires
        a@.len() == b@.len() + pow,
    ensures
        r == digit_sign(a@.skip(pow as int), b@),
{
    let ghost top = a@.skip(pow as int);
    let len = a.len();
    let mut i = b.len();
    proof {
        assert(top.take(i as int) == top);
        assert(b@.take(i as int) == b@);
    }
    while i > 0
        invariant
            i <= b@.len(),
            a@.len() == b@.len() + pow,
            a@.len() == len,
            top == a@.skip(pow as int),
            digit_sign(top, b@) == digit_sign(top.take(i as int), b@.take(i as int)),
        decreases i,
    {
        proof {
            assert(top.take(i as int).drop_last() == top.take(i - 1));
            assert(b@.take(i as int).drop_last() == b@.take(i - 1));
        }
        i -= 1;
        let x = a[i + pow];
        let y = b[i];
        if x > y {
            return 1;
        } else if x < y {
            return -1;
        }
    }
    0
}

} // verus!
