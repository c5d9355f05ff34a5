//! Divisibility and primality over the integers, with the lemmas that the
//! sieves, the factorisation and the reduction of fractions rest on.

use vstd::arithmetic::div_mod::{lemma_fundamental_div_mod, lemma_mod_multiples_basic};
use vstd::prelude::*;

verus! {

/// `d` divides `n`.
pub open spec fn divides(d: int, n: int) -> bool {
    d != 0 && n % d == 0
}

/// `n` is a prime number.
pub open spec fn prime(n: int) -> bool {
    n >= 2 && forall|d: int| 2 <= d < n ==> !#[trigger] divides(d, n)
}

/// Every multiple of `d` is divisible by `d`.
pub proof fn lemma_multiple_divides(d: int, k: int)
    requires
        d > 0,
    ensures
        divides(d, k * d),
{
    lemma_mod_multiples_basic(k, d);
}

/// What `d` divides is its quotient by `d`, times `d`.
pub proof fn lemma_divides_quotient(d: int, n: int)
    requires
        d > 0,
        divides(d, n),
    ensures
        n == (n / d) * d,
{
    lemma_fundamental_div_mod(n, d);
    assert(d * (n / d) == (n / d) * d) by (nonlinear_arith);
}

/// Divisibility is transitive.
pub proof fn lemma_divides_trans(a: int, b: int, c: int)
    requires
        a > 0,
        b > 0,
        divides(a, b),
        divides(b, c),
    ensures
        divides(a, c),
{
    lemma_divides_quotient(a, b);
    lemma_divides_quotient(b, c);
    let k = (c / b) * (b / a);
    assert(c == k * a) by (nonlinear_arith)
        requires
            c == (c / b) * b,
            b == (b / a) * a,
            k == (c / b) * (b / a),
    ;
    lemma_multiple_divides(a, k);
}

/// A divisor of a positive number is no larger than it.
pub proof fn lemma_divides_le(d: int, n: int)
    requires
        d > 0,
        n > 0,
        divides(d, n),
    ensures
        d <= n,
{
    lemma_divides_quotient(d, n);
    let q = n / d;
    assert(d <= n) by (nonlinear_arith)
        requires
            n == q * d,
            d > 0,
            n > 0,
    ;
}

/// A divisor of two numbers divides their difference.
pub proof fn lemma_divides_sub(d: int, a: int, b: int)
    requires
        d > 0,
        divides(d, a),
        divides(d, b),
    ensures
        divides(d, a - b),
{
    lemma_divides_quotient(d, a);
    lemma_divides_quotient(d, b);
    let k = a / d - b / d;
    assert(a - b == k * d) by (nonlinear_arith)
        requires
            a == (a / d) * d,
            b == (b / d) * d,
            k == a / d - b / d,
    ;
    lemma_multiple_divides(d, k);
}

/// A divisor of two numbers divides their sum.
pub proof fn lemma_divides_add(d: int, a: int, b: int)
    requires
        d > 0,
        divides(d, a),
        divides(d, b),
    ensures
        divides(d, a + b),
{
    lemma_divides_quotient(d, a);
    lemma_divides_quotient(d, b);
    let k = a / d + b / d;
    assert(a + b == k * d) by (nonlinear_arith)
        requires
            a == (a / d) * d,
            b == (b / d) * d,
            k == a / d + b / d,
    ;
    lemma_multiple_divides(d, k);
}

/// A number with a proper divisor has a divisor, 2 or more, whose square
/// is no larger than the number: the divisor or its cofactor.
pub proof fn lemma_small_divisor(d: int, n: int)
    requires
        2 <= d < n,
        divides(d, n),
    ensures
        exists|e: int| 2 <= e && e * e <= n && #[trigger] divides(e, n),
{
    lemma_divides_quotient(d, n);
    let q = n / d;
    assert(q >= 2) by (nonlinear_arith)
        requires
            n == q * d,
            2 <= d < n,
    ;
    if d <= q {
        assert(d * d <= n) by (nonlinear_arith)
            requires
                n == q * d,
                2 <= d <= q,
        ;
        assert(divides(d, n));
    } else {
        assert(q * q <= n) by (nonlinear_arith)
            requires
                n == q * d,
                2 <= q < d,
        ;
        assert(n == d * q) by (nonlinear_arith)
            requires
                n == q * d,
        ;
        lemma_multiple_divides(q, d);
        assert(divides(q, n));
    }
}

/// Every number from 2 on has a prime factor, and a composite one has a
/// prime factor whose square is no larger than the number.
pub proof fn lemma_prime_factor(n: int)
    requires
        n >= 2,
    ensures
        exists|p: int| prime(p) && #[trigger] divides(p, n) && (p * p <= n || p == n),
    decreases n,
{
    if prime(n) {
        assert(n % n == 0) by (nonlinear_arith)
            requires
                n >= 2,
        ;
        assert(divides(n, n));
    } else {
        let d = choose|d: int| 2 <= d < n && divides(d, n);
        lemma_small_divisor(d, n);
        let e = choose|e: int| 2 <= e && e * e <= n && divides(e, n);
        assert(e < n) by (nonlinear_arith)
            requires
                2 <= e,
                e * e <= n,
        ;
        lemma_prime_factor(e);
        let p = choose|p: int| prime(p) && divides(p, e) && (p * p <= e || p == e);
        lemma_divides_trans(p, e, n);
        lemma_divides_le(p, e);
        assert(p * p <= n) by (nonlinear_arith)
            requires
                2 <= p <= e,
                e * e <= n,
        ;
        assert(prime(p) && divides(p, n) && (p * p <= n || p == n));
    }
}

/// A divisor of a number divides its multiples.
pub proof fn lemma_divides_multiple(d: int, n: int, k: int)
    requires
        d > 0,
        divides(d, n),
    ensures
        divides(d, k * n),
{
    lemma_divides_quotient(d, n);
    let m = k * (n / d);
    assert(k * n == m * d) by (nonlinear_arith)
        requires
            n == (n / d) * d,
            m == k * (n / d),
    ;
    lemma_multiple_divides(d, m);
}

/// Nothing between 1 and `d`, both left out, is divisible by `d`.
pub proof fn lemma_not_divides_smaller(d: int, n: int)
    requires
        0 < n < d,
    ensures
        !divides(d, n),
{
    vstd::arithmetic::div_mod::lemma_small_mod(n as nat, d as nat);
}

/// Euclid's lemma: a prime that divides a product divides a factor.
pub proof fn lemma_prime_divides_product(p: int, a: int, b: int)
    requires
        prime(p),
        a >= 1,
        divides(p, a * b),
    ensures
        divides(p, a) || divides(p, b),
    decreases a,
{
    if a == 1 {
        assert(a * b == b) by (nonlinear_arith)
            requires
                a == 1,
        ;
    } else if a >= p {
        let r = a % p;
        let q = a / p;
        lemma_fundamental_div_mod(a, p);
        if r != 0 {
            // r * b == a * b - q * (p * b), and `p` divides both terms.
            lemma_multiple_divides(p, q * b);
            assert(r * b == a * b - (q * b) * p) by (nonlinear_arith)
                requires
                    a == p * q + r,
            ;
            lemma_divides_sub(p, a * b, (q * b) * p);
            lemma_prime_divides_product(p, r, b);
            lemma_not_divides_smaller(p, r);
        }
    } else {
        let r = p % a;
        let q = p / a;
        lemma_fundamental_div_mod(p, a);
        if r == 0 {
            assert(divides(a, p));
        } else {
            // r * b == p * b - q * (a * b), and `p` divides both terms.
            lemma_multiple_divides(p, b);
            lemma_divides_multiple(p, a * b, q);
            assert(r * b == b * p - q * (a * b)) by (nonlinear_arith)
                requires
                    p == a * q + r,
            ;
            lemma_divides_sub(p, b * p, q * (a * b));
            lemma_prime_divides_product(p, r, b);
            lemma_not_divides_smaller(p, r);
        }
    }
}

} // verus!
