//! Prime numbers: a trial-division test, the sieve of Eratosthenes over
//! `0..=n` and over a window `lo..=hi`, and the prime factors of a number.

use crate::bool_arr::BoolArr;
use crate::divisibility::{
    divides, lemma_divides_add, lemma_divides_le, lemma_divides_quotient, lemma_divides_sub,
    lemma_divides_trans, lemma_multiple_divides, lemma_prime_divides_product,
    lemma_prime_factor, lemma_small_divisor, prime,
};
use vstd::arithmetic::div_mod::{lemma_fundamental_div_mod, lemma_mod_self_0, lemma_small_mod};
use vstd::prelude::*;

verus! {

/// `k` is 2 or more and has no divisor from 2 up to, but not including,
/// `bound`, except itself.
spec fn unsieved(k: int, bound: int) -> bool {
    k >= 2 && forall|d: int| 2 <= d < bound && d < k ==> !#[trigger] divides(d, k)
}

/// `s` lists the primes from `lo` to `hi`, each once, in increasing order.
pub open spec fn lists_primes(s: Seq<usize>, lo: int, hi: int) -> bool {
    &&& forall|a: int| 0 <= a < s.len() ==> lo <= #[trigger] s[a] <= hi && prime(s[a] as int)
    &&& forall|a: int, b: int| 0 <= a < b < s.len() ==> s[a] < s[b]
    &&& forall|p: usize| lo <= p <= hi && prime(p as int) ==> #[trigger] s.contains(p)
}

/// A quotient below the divisor means a number below the divisor's square.
proof fn lemma_below_square(n: int, i: int)
    requires
        0 <= n,
        0 < i,
        n / i < i,
    ensures
        n < i * i,
{
    lemma_fundamental_div_mod(n, i);
    let q = n / i;
    let r = n % i;
    assert(n < i * i) by (nonlinear_arith)
        requires
            n == i * q + r,
            0 <= r < i,
            q < i,
            0 < i,
    ;
}

/// A quotient that reaches the divisor means a number that reaches its square.
proof fn lemma_reaches_square(n: int, i: int)
    requires
        0 <= n,
        0 < i,
        i <= n / i,
    ensures
        i * i <= n,
{
    lemma_fundamental_div_mod(n, i);
    let q = n / i;
    let r = n % i;
    assert(i * i <= n) by (nonlinear_arith)
        requires
            n == i * q + r,
            0 <= r < i,
            i <= q,
            0 < i,
    ;
}

/// Below the square of `bound`, what no smaller number divides is prime.
proof fn lemma_unsieved_is_prime(k: int, bound: int)
    requires
        2 <= bound,
        k < bound * bound,
    ensures
        unsieved(k, bound) <==> prime(k),
{
    if unsieved(k, bound) && !prime(k) {
        let d = choose|d: int| 2 <= d < k && divides(d, k);
        lemma_small_divisor(d, k);
        let e = choose|e: int| 2 <= e && e * e <= k && divides(e, k);
        assert(e < bound && e < k) by (nonlinear_arith)
            requires
                2 <= e,
                e * e <= k,
                k < bound * bound,
                2 <= bound,
        ;
    }
}

/// Where `i` itself has a smaller divisor, its multiples have one too.
proof fn lemma_unsieved_past_composite(k: int, i: int)
    requires
        2 <= i,
        !unsieved(i, i),
        unsieved(k, i),
    ensures
        unsieved(k, i + 1),
{
    if i < k && divides(i, k) {
        let d = choose|d: int| 2 <= d < i && d < i && divides(d, i);
        lemma_divides_trans(d, i, k);
    }
}

/// Of what no number below `i` divides, `i` divides exactly the multiples
/// from its square on, itself apart.
proof fn lemma_unsieved_past_prime(k: int, i: int)
    requires
        2 <= i,
        unsieved(k, i),
    ensures
        unsieved(k, i + 1) <==> !(i * i <= k && divides(i, k)),
{
    if i * i <= k {
        assert(i < k) by (nonlinear_arith)
            requires
                2 <= i,
                i * i <= k,
        ;
    }
    if i < k && divides(i, k) {
        lemma_divides_quotient(i, k);
        let m = k / i;
        assert(m >= 2) by (nonlinear_arith)
            requires
                k == m * i,
                2 <= i < k,
        ;
        assert(k == i * m) by (nonlinear_arith)
            requires
                k == m * i,
        ;
        lemma_multiple_divides(m, i);
        if m < i {
            assert(m < k) by (nonlinear_arith)
                requires
                    k == m * i,
                    2 <= i,
                    2 <= m,
            ;
            assert(divides(m, k));
        } else {
            assert(i * i <= k) by (nonlinear_arith)
                requires
                    k == m * i,
                    2 <= i <= m,
            ;
        }
    }
}

/// No multiple of `i` lies strictly between two neighbouring ones.
proof fn lemma_between_multiples(i: int, j: int, k: int)
    requires
        0 < i,
        divides(i, j),
        j < k < j + i,
    ensures
        !divides(i, k),
{
    if divides(i, k) {
        lemma_divides_sub(i, k, j);
        lemma_small_mod((k - j) as nat, i as nat);
    }
}

/// Whether `n` is prime, by trial division.
pub fn is_prime(n: usize) -> (b: bool)
    ensures
        b == prime(n as int),
{
    if n < 2 {
        return false;
    }
    if n == 2 || n == 3 {
        assert(prime(n as int)) by {
            assert(!divides(2, 3));
        }
        return true;
    }
    if n % 2 == 0 {
        assert(divides(2, n as int));
        return false;
    }
    let mut i: usize = 3;
    while i <= n / i
        invariant
            3 <= i <= n,
            i % 2 == 1,
            n % 2 == 1,
            forall|d: int| 2 <= d < i ==> !#[trigger] divides(d, n as int),
        decreases n - i,
    {
        proof {
            lemma_reaches_square(n as int, i as int);
            assert(i + 2 <= n) by (nonlinear_arith)
                requires
                    3 <= i,
                    i * i <= n,
            ;
        }
        if n % i == 0 {
            assert(divides(i as int, n as int));
            return false;
        }
        proof {
            if divides(i + 1, n as int) {
                assert(divides(2, i + 1));
                lemma_divides_trans(2, i + 1, n as int);
            }
        }
        i += 2;
    }
    proof {
        lemma_below_square(n as int, i as int);
        assert(unsieved(n as int, i as int));
        lemma_unsieved_is_prime(n as int, i as int);
    }
    true
}

/// The sieve of Eratosthenes: for each number up to `n`, whether it is prime.
pub fn sieve_bool(n: usize) -> (ba: BoolArr)
    requires
        n < usize::MAX,
    ensures
        ba.wf(),
        ba@.len() == n + 1,
        forall|k: int| 0 <= k <= n ==> ba@[k] == prime(k),
{
    let mut ba = BoolArr::new(n + 1, true);
    ba.set(0, false);
    if n >= 1 {
        ba.set(1, false);
    }
    let mut i: usize = 2;
    while i <= n / i
        invariant
            2 <= i,
            ba.wf(),
            ba@.len() == n + 1,
            forall|k: int| 0 <= k <= n ==> ba@[k] == unsieved(k, i as int),
        decreases n - i,
    {
        proof {
            lemma_reaches_square(n as int, i as int);
            assert(i < n) by (nonlinear_arith)
                requires
                    2 <= i,
                    i * i <= n,
            ;
        }
        if ba.get(i) {
            let mut j = i * i;
            proof {
                lemma_multiple_divides(i as int, i as int);
            }
            loop
                invariant_except_break
                    i * i <= j <= n,
                    divides(i as int, j as int),
                    forall|k: int|
                        0 <= k <= n ==> ba@[k] == (unsieved(k, i as int) && !(i * i <= k < j
                            && divides(i as int, k))),
                invariant
                    2 <= i,
                    ba.wf(),
                    ba@.len() == n + 1,
                ensures
                    forall|k: int|
                        0 <= k <= n ==> ba@[k] == (unsieved(k, i as int) && !(i * i <= k
                            && divides(i as int, k))),
                decreases n - j,
            {
                ba.set(j, false);
                proof {
                    assert forall|k: int| 0 <= k <= n implies ba@[k] == (unsieved(k, i as int)
                        && !(i * i <= k < j + i && divides(i as int, k))) by {
                        if j < k < j + i {
                            lemma_between_multiples(i as int, j as int, k);
                        }
                    }
                }
                if n - j < i {
                    break ;
                }
                proof {
                    lemma_divides_add(i as int, j as int, i as int);
                }
                j += i;
            }
            proof {
                assert forall|k: int| 0 <= k <= n implies ba@[k] == unsieved(k, i + 1) by {
                    if unsieved(k, i as int) {
                        lemma_unsieved_past_prime(k, i as int);
                    }
                }
            }
        } else {
            proof {
                assert forall|k: int| 0 <= k <= n implies ba@[k] == unsieved(k, i + 1) by {
                    if unsieved(k, i as int) {
                        lemma_unsieved_past_composite(k, i as int);
                    }
                }
            }
        }
        i += 1;
    }
    proof {
        lemma_below_square(n as int, i as int);
        assert forall|k: int| 0 <= k <= n implies ba@[k] == prime(k) by {
            lemma_unsieved_is_prime(k, i as int);
        }
    }
    ba
}

/// The primes up to `n`, in increasing order.
pub fn sieve(n: usize) -> (res: Vec<usize>)
    requires
        n < usize::MAX,
    ensures
        lists_primes(res@, 0, n as int),
{
    let mut res: Vec<usize> = Vec::new();
    if n < 2 {
        return res;
    }
    let ba = sieve_bool(n);
    proof {
        lemma_list_grows(res@, 0, 2);
    }
    res.push(2);
    if n < 3 {
        return res;
    }
    // From 3 on only the odd numbers can be prime.
    let mut i: usize = 3;
    loop
        invariant_except_break
            lists_primes(res@, 0, i - 1),
        invariant
            3 <= i <= n,
            i % 2 == 1,
            n < usize::MAX,
            ba.wf(),
            ba@.len() == n + 1,
            forall|k: int| 0 <= k <= n ==> ba@[k] == prime(k),
        ensures
            lists_primes(res@, 0, n as int),
        decreases n - i,
    {
        proof {
            lemma_list_grows(res@, 0, i);
        }
        if ba.get(i) {
            res.push(i);
        }
        proof {
            assert(divides(2, i + 1));
            lemma_list_grows(res@, 0, (i + 1) as usize);
        }
        if n - i < 2 {
            break ;
        }
        i += 2;
    }
    res
}

/// `k` is 2 or more and no prime below `bound`, except itself, divides it.
spec fn unsieved_by_primes(k: int, bound: int) -> bool {
    k >= 2 && forall|p: int| 2 <= p < bound && p < k && prime(p) ==> !#[trigger] divides(p, k)
}

/// Below the square of `bound`, what no prime below `bound` divides is prime.
proof fn lemma_unsieved_by_primes_is_prime(k: int, bound: int)
    requires
        1 <= bound,
        k < bound * bound,
    ensures
        unsieved_by_primes(k, bound) <==> prime(k),
{
    if unsieved_by_primes(k, bound) && !prime(k) {
        lemma_prime_factor(k);
        let p = choose|p: int| prime(p) && divides(p, k) && (p * p <= k || p == k);
        assert(p < bound && p < k) by (nonlinear_arith)
            requires
                2 <= p,
                p * p <= k,
                k < bound * bound,
                1 <= bound,
        ;
    }
}

/// None of the first `count` numbers of `s` divides `k`.
spec fn none_divides(s: Seq<usize>, count: int, k: int) -> bool {
    forall|a: int| 0 <= a < count ==> !divides(#[trigger] s[a] as int, k)
}

/// Where `s` lists the primes up to `top` and its first `count` numbers
/// are those below `bound`, to be divided by none of these is to be
/// divided by no prime below `bound`.
proof fn lemma_none_divides(s: Seq<usize>, top: int, count: int, bound: int, k: int)
    requires
        lists_primes(s, 0, top),
        top <= usize::MAX,
        0 <= count <= s.len(),
        bound <= top + 1,
        bound <= k,
        2 <= k,
        forall|a: int| 0 <= a < count ==> #[trigger] s[a] < bound,
        count < s.len() ==> s[count] >= bound,
    ensures
        none_divides(s, count, k) <==> unsieved_by_primes(k, bound),
{
    if none_divides(s, count, k) {
        assert forall|p: int| 2 <= p < bound && p < k && prime(p) implies !divides(p, k) by {
            assert(s.contains(p as usize));
            let a = choose|a: int| 0 <= a < s.len() && s[a] == p as usize;
            if a >= count {
                assert(s[count] <= s[a]);
            }
            assert(!divides(s[a] as int, k));
        }
    }
    if unsieved_by_primes(k, bound) {
        assert forall|a: int| 0 <= a < count implies !divides(#[trigger] s[a] as int, k) by {
            assert(prime(s[a] as int));
        }
    }
}

/// A list of the primes of a range, grown by the next number where that
/// is prime, lists the primes of the range with that number.
proof fn lemma_list_grows(s: Seq<usize>, lo: int, k: usize)
    requires
        lists_primes(s, lo, k - 1),
        lo <= k,
    ensures
        prime(k as int) ==> lists_primes(s.push(k), lo, k as int),
        !prime(k as int) ==> lists_primes(s, lo, k as int),
{
    if prime(k as int) {
        let t = s.push(k);
        assert forall|p: usize| lo <= p <= k && prime(p as int) implies #[trigger] t.contains(
            p,
        ) by {
            if p < k {
                assert(s.contains(p));
                let a = choose|a: int| 0 <= a < s.len() && s[a] == p;
                assert(t[a] == p);
            } else {
                assert(t[s.len() as int] == p);
            }
        }
    }
}

/// The largest number whose square is no larger than `n`, by bisection.
pub fn floor_sqrt(n: usize) -> (r: usize)
    ensures
        r * r <= n < (r + 1) * (r + 1),
{
    if n == 0 {
        return 0;
    }
    // The root lies from `lo` on and below `hi`.
    let mut lo: usize = 1;
    let mut hi: usize = n;
    proof {
        assert(n < (n + 1) * (n + 1)) by (nonlinear_arith)
            requires
                n >= 0,
        ;
    }
    while lo < hi
        invariant
            1 <= lo <= hi <= n,
            lo * lo <= n < (hi + 1) * (hi + 1),
        decreases hi - lo,
    {
        let mid = hi - (hi - lo) / 2;
        if mid <= n / mid {
            proof {
                lemma_reaches_square(n as int, mid as int);
            }
            lo = mid;
        } else {
            proof {
                lemma_below_square(n as int, mid as int);
            }
            hi = mid - 1;
        }
    }
    lo
}

/// The smallest number whose square is `n` or more.
pub fn ceil_sqrt(n: usize) -> (r: usize)
    ensures
        n <= r * r,
        r == 0 || (r - 1) * (r - 1) < n,
{
    let down = floor_sqrt(n);
    if down * down == n {
        proof {
            if down > 0 {
                assert((down - 1) * (down - 1) < down * down) by (nonlinear_arith)
                    requires
                        down > 0,
                ;
            }
        }
        down
    } else {
        proof {
            assert(down < usize::MAX) by (nonlinear_arith)
                requires
                    down * down < n,
                    n <= usize::MAX,
                    0 <= down,
            ;
        }
        down + 1
    }
}

/// The least multiple of `i` that is `from` or more, if `usize` holds one.
fn first_multiple_from(i: usize, from: usize) -> (r: Option<usize>)
    requires
        i > 0,
    ensures
        match r {
            Some(f) => from <= f < from + i && divides(i as int, f as int) && forall|k: int|
                from <= k < f ==> !divides(i as int, k),
            None => forall|k: int| from <= k <= usize::MAX ==> !divides(i as int, k),
        },
{
    let rem = from % i;
    if rem == 0 {
        return Some(from);
    }
    proof {
        lemma_fundamental_div_mod(from as int, i as int);
        assert(i * (from / i) == (from / i) * i) by (nonlinear_arith);
        lemma_multiple_divides(i as int, (from / i) as int);
        assert(divides(i as int, i as int)) by {
            lemma_mod_self_0(i as int);
        }
        lemma_divides_add(i as int, from - rem, i as int);
    }
    let next = from.checked_add(i - rem);
    proof {
        assert forall|k: int| from <= k < from - rem + i implies !divides(i as int, k) by {
            lemma_between_multiples(i as int, from - rem, k);
        }
    }
    next
}

/// Clears the entry of every multiple of `i` from `from` on, in an array
/// whose entry `j` stands for the number `lo + j`.
fn clear_multiples(ba: &mut BoolArr, lo: usize, i: usize, from: usize)
    requires
        old(ba).wf(),
        i > 0,
        lo <= from,
        lo + old(ba)@.len() <= usize::MAX + 1,
    ensures
        final(ba).wf(),
        final(ba)@.len() == old(ba)@.len(),
        forall|j: int|
            0 <= j < old(ba)@.len() ==> final(ba)@[j] == (old(ba)@[j] && !(from <= lo + j
                && divides(i as int, lo + j))),
{
    let len = ba.len();
    if len == 0 {
        return ;
    }
    let hi = lo + (len - 1);
    let mut next = first_multiple_from(i, from);
    loop
        invariant_except_break
            next matches Some(f) ==> from <= f && divides(i as int, f as int) && (forall|j: int|
                0 <= j < len ==> ba@[j] == (old(ba)@[j] && !(from <= lo + j < f && divides(
                    i as int,
                    lo + j,
                )))),
            next is None ==> (forall|j: int|
                0 <= j < len ==> ba@[j] == (old(ba)@[j] && !(from <= lo + j && divides(
                    i as int,
                    lo + j,
                )))),
        invariant
            ba.wf(),
            ba@.len() == old(ba)@.len(),
            ba@.len() == len,
            hi == lo + len - 1,
            lo <= from,
            i > 0,
        ensures
            forall|j: int|
                0 <= j < len ==> ba@[j] == (old(ba)@[j] && !(from <= lo + j && divides(
                    i as int,
                    lo + j,
                ))),
        decreases
                match next {
                    Some(f) => usize::MAX - f + 1,
                    None => 0,
                },
    {
        match next {
            None => {
                break ;
            },
            Some(f) => {
                if f > hi {
                    break ;
                }
                ba.set(f - lo, false);
                next = f.checked_add(i);
                proof {
                    assert forall|j: int| 0 <= j < len implies ba@[j] == (old(ba)@[j] && !(from
                        <= lo + j < f + i && divides(i as int, lo + j))) by {
                        if f < lo + j < f + i {
                            lemma_between_multiples(i as int, f as int, lo + j);
                        }
                    }
                    if next is Some {
                        assert(divides(i as int, i as int)) by {
                            lemma_mod_self_0(i as int);
                        }
                        lemma_divides_add(i as int, f as int, i as int);
                    }
                }
            },
        }
    }
}

/// The sieve over a window: for each number from `lo` to `hi`, whether it
/// is prime. Entry `j` stands for the number `lo + j`. The window is empty
/// where `lo` is `hi + 1`.
pub fn segmented_sieve_bool(lo: usize, hi: usize) -> (ba: BoolArr)
    requires
        lo <= hi + 1,
        hi - lo < usize::MAX,
    ensures
        ba.wf(),
        ba@.len() == hi - lo + 1,
        forall|j: int| 0 <= j <= hi - lo ==> ba@[j] == prime(lo + j),
{
    if lo > hi {
        return BoolArr::new(0, true);
    }
    let lim = ceil_sqrt(hi);
    proof {
        assert(lim < usize::MAX) by (nonlinear_arith)
            requires
                lim == 0 || (lim - 1) * (lim - 1) < hi,
                hi <= usize::MAX,
                usize::MAX >= 0xffff_ffff,
                0 <= lim,
        ;
    }
    let smaller_primes = sieve_bool(lim);
    let mut ba = BoolArr::new(hi - lo + 1, true);
    if lo == 0 {
        ba.set(0, false);
    }
    if lo <= 1 && 1 <= hi {
        ba.set(1 - lo, false);
    }
    let mut i: usize = 2;
    while i <= lim
        invariant
            i <= lim + 1 || (lim < 2 && i == 2),
            2 <= i,
            lim < usize::MAX,
            lo <= hi,
            ba.wf(),
            ba@.len() == hi - lo + 1,
            smaller_primes.wf(),
            smaller_primes@.len() == lim + 1,
            forall|k: int| 0 <= k <= lim ==> smaller_primes@[k] == prime(k),
            forall|j: int| 0 <= j <= hi - lo ==> ba@[j] == unsieved_by_primes(lo + j, i as int),
        decreases lim + 1 - i,
    {
        if smaller_primes.get(i) {
            let from = if lo > i {
                lo
            } else {
                i + 1
            };
            clear_multiples(&mut ba, lo, i, from);
            proof {
                assert forall|j: int| 0 <= j <= hi - lo implies ba@[j] == unsieved_by_primes(
                    lo + j,
                    i + 1,
                ) by {
                    if lo + j < from && divides(i as int, lo + j) && lo + j > 0 {
                        lemma_divides_le(i as int, lo + j);
                    }
                }
            }
        }
        i += 1;
    }
    proof {
        assert(hi < i * i) by (nonlinear_arith)
            requires
                hi <= lim * lim,
                i == lim + 1 || (lim < 2 && i == 2),
                0 <= lim,
        ;
        assert forall|j: int| 0 <= j <= hi - lo implies ba@[j] == prime(lo + j) by {
            lemma_unsieved_by_primes_is_prime(lo + j, i as int);
        }
    }
    ba
}

/// The primes from `lo` to `hi`, in increasing order; none where `lo` is
/// `hi + 1`.
pub fn segmented_sieve(lo: usize, hi: usize) -> (res: Vec<usize>)
    requires
        lo <= hi + 1,
        hi - lo < usize::MAX,
    ensures
        lists_primes(res@, lo as int, hi as int),
{
    let ba = segmented_sieve_bool(lo, hi);
    let mut res: Vec<usize> = Vec::new();
    let width = ba.len();
    let mut j: usize = 0;
    while j < width
        invariant
            j <= width,
            width == hi - lo + 1,
            ba.wf(),
            ba@.len() == width,
            forall|j: int| 0 <= j <= hi - lo ==> ba@[j] == prime(lo + j),
            lists_primes(res@, lo as int, lo + j - 1),
        decreases width - j,
    {
        proof {
            lemma_list_grows(res@, lo as int, (lo + j) as usize);
        }
        if ba.get(j) {
            res.push(lo + j);
        }
        j += 1;
    }
    res
}

/// The primes up to `n`, in increasing order, found window by window:
/// the primes up to the square root of `n` first, then each window of
/// that width, sieved with the primes found so far.
pub fn segmented_sieve_till(n: usize) -> (primes: Vec<usize>)
    requires
        n < usize::MAX,
    ensures
        lists_primes(primes@, 0, n as int),
{
    let del = floor_sqrt(n);
    proof {
        assert(del <= n) by (nonlinear_arith)
            requires
                del * del <= n,
                0 <= del,
        ;
    }
    let mut primes = sieve(del);
    let mut l: usize = del + 1;
    while l <= n
        invariant
            del + 1 <= l <= n + 1,
            n < usize::MAX,
            del * del <= n < (del + 1) * (del + 1),
            lists_primes(primes@, 0, l - 1),
        decreases n + 1 - l,
    {
        let h = if n - l < del {
            n
        } else {
            l + (del - 1)
        };
        let max = floor_sqrt(h);
        proof {
            assert(max <= del) by (nonlinear_arith)
                requires
                    max * max <= h,
                    h <= n,
                    n < (del + 1) * (del + 1),
                    0 <= max,
                    0 <= del,
            ;
        }
        let mut nbv = BoolArr::new(h - l + 1, true);
        let mut idx: usize = 0;
        while idx < primes.len() && primes[idx] <= max
            invariant
                idx <= primes.len(),
                l <= h < usize::MAX,
                max < l,
                nbv.wf(),
                nbv@.len() == h - l + 1,
                lists_primes(primes@, 0, l - 1),
                forall|a: int| 0 <= a < idx ==> #[trigger] primes@[a] <= max,
                forall|j: int| 0 <= j <= h - l ==> nbv@[j] == none_divides(primes@, idx as int, l + j),
            decreases primes.len() - idx,
        {
            let i = primes[idx];
            assert(prime(i as int));
            clear_multiples(&mut nbv, l, i, l);
            proof {
                assert forall|j: int| 0 <= j <= h - l implies nbv@[j] == none_divides(
                    primes@,
                    idx + 1,
                    l + j,
                ) by {
                    if none_divides(primes@, idx as int, l + j) && !divides(i as int, l + j) {
                        assert forall|a: int| 0 <= a < idx + 1 implies !divides(
                            #[trigger] primes@[a] as int,
                            l + j,
                        ) by {}
                    }
                }
            }
            idx += 1;
        }
        proof {
            assert forall|j: int| 0 <= j <= h - l implies nbv@[j] == prime(l + j) by {
                lemma_none_divides(primes@, l - 1, idx as int, max + 1, l + j);
                lemma_unsieved_by_primes_is_prime(l + j, max + 1);
            }
        }
        let width = h - l + 1;
        let mut j: usize = 0;
        while j < width
            invariant
                j <= width,
                width == h - l + 1,
                l <= h < usize::MAX,
                nbv.wf(),
                nbv@.len() == width,
                forall|j: int| 0 <= j <= h - l ==> nbv@[j] == prime(l + j),
                lists_primes(primes@, 0, l + j - 1),
            decreases width - j,
        {
            proof {
                lemma_list_grows(primes@, 0, (l + j) as usize);
            }
            if nbv.get(j) {
                primes.push(l + j);
            }
            j += 1;
        }
        l = h + 1;
    }
    primes
}

/// `s` lists the primes that divide `n`, each once, in increasing order.
pub open spec fn lists_prime_factors(s: Seq<usize>, n: int) -> bool {
    &&& forall|a: int| 0 <= a < s.len() ==> prime(#[trigger] s[a] as int) && divides(s[a] as int, n)
    &&& forall|a: int, b: int| 0 <= a < b < s.len() ==> s[a] < s[b]
    &&& forall|p: usize| prime(p as int) && divides(p as int, n) ==> #[trigger] s.contains(p)
}

/// The primes that divide `n`, in increasing order; none for 0.
pub fn prime_factors_big(n: usize) -> (res: Vec<usize>)
    ensures
        n > 0 ==> lists_prime_factors(res@, n as int),
        n == 0 ==> res@.len() == 0,
{
    let mut rest = n;
    let mut res: Vec<usize> = Vec::new();
    let mut i: usize = 2;
    proof {
        if n > 0 {
            lemma_mod_self_0(n as int);
            assert forall|p: usize| prime(p as int) && divides(p as int, n as int) implies p >= 2
                && divides(p as int, rest as int) by {}
        }
    }
    while i <= rest
        invariant_except_break
            2 <= i,
            n > 0 ==> rest >= 1 && divides(rest as int, n as int),
            n == 0 ==> rest == 0 && res@.len() == 0,
            forall|a: int|
                0 <= a < res@.len() ==> prime(#[trigger] res@[a] as int) && divides(
                    res@[a] as int,
                    n as int,
                ) && res@[a] < i,
            forall|a: int, b: int| 0 <= a < b < res@.len() ==> res@[a] < res@[b],
            forall|p: usize|
                prime(p as int) && divides(p as int, n as int) ==> #[trigger] res@.contains(p) || (
                p >= i && divides(p as int, rest as int)),
        ensures
            n > 0 ==> rest >= 1,
            n == 0 ==> res@.len() == 0,
            forall|a: int|
                0 <= a < res@.len() ==> prime(#[trigger] res@[a] as int) && divides(
                    res@[a] as int,
                    n as int,
                ),
            forall|a: int, b: int| 0 <= a < b < res@.len() ==> res@[a] < res@[b],
            forall|p: usize|
                prime(p as int) && divides(p as int, n as int) ==> #[trigger] res@.contains(p) || (
                p > rest && divides(p as int, rest as int)),
        decreases rest - i,
    {
        let ghost before = res@;
        let ghost whole = rest;
        if is_prime(i) && rest % i == 0 {
            res.push(i);
            rest /= i;
            proof {
                assert(divides(i as int, whole as int));
                lemma_divides_quotient(i as int, whole as int);
                assert(whole == i * rest) by (nonlinear_arith)
                    requires
                        whole == rest * i,
                ;
                assert(rest >= 1) by (nonlinear_arith)
                    requires
                        whole == rest * i,
                        whole >= 1,
                        i >= 2,
                        rest >= 0,
                ;
                lemma_multiple_divides(rest as int, i as int);
                lemma_divides_trans(rest as int, whole as int, n as int);
                lemma_divides_trans(i as int, whole as int, n as int);
                assert forall|p: usize|
                    prime(p as int) && divides(p as int, n as int) implies #[trigger] res@.contains(
                    p,
                ) || (p > i && divides(p as int, rest as int)) by {
                    if before.contains(p) {
                        let a = choose|a: int| 0 <= a < before.len() && before[a] == p;
                        assert(res@[a] == p);
                    } else if p == i {
                        assert(res@[before.len() as int] == p);
                    } else {
                        lemma_prime_divides_product(p as int, i as int, rest as int);
                        if divides(p as int, i as int) {
                            lemma_divides_le(p as int, i as int);
                        }
                    }
                }
            }
        }
        if i >= rest {
            break ;
        }
        i += 1;
    }
    proof {
        if n > 0 {
            assert forall|p: usize|
                prime(p as int) && divides(p as int, n as int) implies #[trigger] res@.contains(
                p,
            ) by {
                if p > rest && divides(p as int, rest as int) {
                    lemma_divides_le(p as int, rest as int);
                }
            }
        }
    }
    res
}

} // verus!
