//! Fractions of machine integers, kept in lowest terms.

use crate::divisibility::{
    divides, lemma_divides_add, lemma_divides_le, lemma_divides_quotient, lemma_divides_sub,
    lemma_multiple_divides,
};
use std::cmp::Ordering;
use std::ops::{Add, Div, Mul, Sub};
use vstd::prelude::*;
use vstd::std_specs::ops::{AddSpecImpl, DivSpecImpl, MulSpecImpl, SubSpecImpl};

verus! {

/// `num_traits::Zero::zero` of `usize` is the number 0.
pub assume_specification[ <usize as num_traits::Zero>::zero ]() -> (r: usize)
    ensures
        r == 0,
;

/// `num_traits::Zero::zero` of `isize` is the number 0.
pub assume_specification[ <isize as num_traits::Zero>::zero ]() -> (r: isize)
    ensures
        r == 0,
;

/// The quotient of `a` by a positive `b`, rounded towards zero.
pub open spec fn truncated_quotient(a: int, b: int) -> int {
    if a >= 0 {
        a / b
    } else {
        -((-a) / b)
    }
}

/// The absolute value of `a`.
pub open spec fn magnitude(a: int) -> int {
    if a < 0 {
        -a
    } else {
        a
    }
}

/// `d` is positive and divides both `a` and `b`.
pub open spec fn common_divisor(d: int, a: int, b: int) -> bool {
    d > 0 && divides(d, a) && divides(d, b)
}

/// `g` is the greatest common divisor of `a` and `b`, neither of them
/// negative: the largest number that divides both, and 0 where both are 0.
pub open spec fn is_gcd(g: int, a: int, b: int) -> bool {
    if a == 0 && b == 0 {
        g == 0
    } else {
        common_divisor(g, a, b) && forall|d: int| #[trigger] common_divisor(d, a, b) ==> d <= g
    }
}

/// The greatest common divisor of `a` and `b`.
pub open spec fn gcd_of(a: int, b: int) -> int {
    choose|g: int| is_gcd(g, a, b)
}

/// Two numbers have one greatest common divisor at most.
pub proof fn lemma_gcd_unique(g: int, a: int, b: int)
    requires
        is_gcd(g, a, b),
    ensures
        gcd_of(a, b) == g,
{
    let h = gcd_of(a, b);
    assert(is_gcd(h, a, b));
    if !(a == 0 && b == 0) {
        assert(common_divisor(g, a, b));
        assert(common_divisor(h, a, b));
    }
}

/// A positive number is the greatest common divisor of itself and 0, and
/// of itself and itself.
pub proof fn lemma_gcd_base(a: int)
    requires
        a > 0,
    ensures
        is_gcd(a, a, 0),
        is_gcd(a, 0, a),
        is_gcd(a, a, a),
{
    vstd::arithmetic::div_mod::lemma_mod_self_0(a);
    assert forall|d: int| d > 0 && divides(d, a) implies d <= a by {
        lemma_divides_le(d, a);
    }
}

/// The numbers that divide both `a` and `b` are those that divide both
/// `a - b` and `b`.
pub proof fn lemma_common_divisor_sub(d: int, a: int, b: int)
    requires
        d > 0,
    ensures
        common_divisor(d, a, b) <==> common_divisor(d, a - b, b),
{
    if common_divisor(d, a, b) {
        lemma_divides_sub(d, a, b);
    }
    if common_divisor(d, a - b, b) {
        lemma_divides_add(d, a - b, b);
    }
}

/// What remains of two numbers after division by their greatest common
/// divisor has the greatest common divisor 1.
pub proof fn lemma_reduced_is_coprime(g: int, a: int, b: int, x: int, y: int)
    requires
        a >= 0,
        b >= 0,
        !(a == 0 && b == 0),
        is_gcd(g, a, b),
        x >= 0,
        y >= 0,
        x * g == a,
        y * g == b,
    ensures
        is_gcd(1, x, y),
{
    assert(!(x == 0 && y == 0)) by (nonlinear_arith)
        requires
            x * g == a,
            y * g == b,
            !(a == 0 && b == 0),
    ;
    assert(divides(1, x) && divides(1, y));
    assert forall|d: int| #[trigger] common_divisor(d, x, y) implies d <= 1 by {
        // `d * g` divides both `a` and `b`.
        lemma_divides_quotient(d, x);
        lemma_divides_quotient(d, y);
        let dg = d * g;
        assert(dg > 0) by (nonlinear_arith)
            requires
                d > 0,
                g > 0,
                dg == d * g,
        ;
        assert(a == (x / d) * dg) by (nonlinear_arith)
            requires
                x == (x / d) * d,
                x * g == a,
                dg == d * g,
        ;
        assert(b == (y / d) * dg) by (nonlinear_arith)
            requires
                y == (y / d) * d,
                y * g == b,
                dg == d * g,
        ;
        lemma_multiple_divides(dg, x / d);
        lemma_multiple_divides(dg, y / d);
        assert(common_divisor(dg, a, b));
        assert(d <= 1) by (nonlinear_arith)
            requires
                d * g <= g,
                g > 0,
                dg == d * g,
                dg <= g,
        ;
    }
}

/// A machine integer type that fractions can be built on.
pub trait MachineInt: Copy + Sized {
    /// The integer that the value stands for.
    spec fn to_int(self) -> int;

    /// Whether the type holds the integer `v`.
    spec fn fits(v: int) -> bool;

    /// The type holds 0 and what its values stand for, and with two
    /// integers all that lie between them.
    proof fn lemma_fits(self, lo: int, v: int, hi: int)
        ensures
            Self::fits(0),
            Self::fits(self.to_int()),
            Self::fits(lo) && Self::fits(hi) && lo <= v <= hi ==> Self::fits(v),
    ;

    /// Two values that stand for one integer are the same.
    proof fn lemma_same(self, other: Self)
        ensures
            self.to_int() == other.to_int() ==> self == other,
    ;

    /// The number 0.
    fn nought() -> (r: Self)
        ensures
            r.to_int() == 0,
    ;

    /// The sum of the two.
    fn plus(self, other: Self) -> (r: Self)
        requires
            Self::fits(self.to_int() + other.to_int()),
        ensures
            r.to_int() == self.to_int() + other.to_int(),
    ;

    /// The difference of the two.
    fn minus(self, other: Self) -> (r: Self)
        requires
            Self::fits(self.to_int() - other.to_int()),
        ensures
            r.to_int() == self.to_int() - other.to_int(),
    ;

    /// The product of the two.
    fn times(self, other: Self) -> (r: Self)
        requires
            Self::fits(self.to_int() * other.to_int()),
        ensures
            r.to_int() == self.to_int() * other.to_int(),
    ;

    /// The quotient of `self` by a positive number, rounded towards zero.
    fn divided_by(self, other: Self) -> (r: Self)
        requires
            other.to_int() > 0,
            Self::fits(truncated_quotient(self.to_int(), other.to_int())),
        ensures
            r.to_int() == truncated_quotient(self.to_int(), other.to_int()),
    ;

    /// Whether `self` is the smaller.
    fn less(self, other: Self) -> (r: bool)
        ensures
            r == (self.to_int() < other.to_int()),
    ;

    /// Whether the two are the same number.
    fn same(self, other: Self) -> (r: bool)
        ensures
            r == (self.to_int() == other.to_int()),
    ;
}

impl MachineInt for usize {
    open spec fn to_int(self) -> int {
        self as int
    }

    open spec fn fits(v: int) -> bool {
        0 <= v <= usize::MAX
    }

    proof fn lemma_fits(self, lo: int, v: int, hi: int) {
    }

    proof fn lemma_same(self, other: Self) {
    }

    fn nought() -> (r: Self) {
        <usize as num_traits::Zero>::zero()
    }

    fn plus(self, other: Self) -> (r: Self) {
        self + other
    }

    fn minus(self, other: Self) -> (r: Self) {
        self - other
    }

    fn times(self, other: Self) -> (r: Self) {
        self * other
    }

    fn divided_by(self, other: Self) -> (r: Self) {
        self / other
    }

    fn less(self, other: Self) -> (r: bool) {
        self < other
    }

    fn same(self, other: Self) -> (r: bool) {
        self == other
    }
}

impl MachineInt for isize {
    open spec fn to_int(self) -> int {
        self as int
    }

    open spec fn fits(v: int) -> bool {
        isize::MIN <= v <= isize::MAX
    }

    proof fn lemma_fits(self, lo: int, v: int, hi: int) {
    }

    proof fn lemma_same(self, other: Self) {
    }

    fn nought() -> (r: Self) {
        <isize as num_traits::Zero>::zero()
    }

    fn plus(self, other: Self) -> (r: Self) {
        self + other
    }

    fn minus(self, other: Self) -> (r: Self) {
        self - other
    }

    fn times(self, other: Self) -> (r: Self) {
        self * other
    }

    fn divided_by(self, other: Self) -> (r: Self) {
        self / other
    }

    fn less(self, other: Self) -> (r: bool) {
        self < other
    }

    fn same(self, other: Self) -> (r: bool) {
        self == other
    }
}

/// The greatest common divisor of `a` and `b`, neither of them negative.
pub fn gcd<T: MachineInt>(a: T, b: T) -> (r: T)
    requires
        a.to_int() >= 0,
        b.to_int() >= 0,
    ensures
        is_gcd(r.to_int(), a.to_int(), b.to_int()),
        r.to_int() == gcd_of(a.to_int(), b.to_int()),
{
    let z = T::nought();
    let ghost a0 = a.to_int();
    let ghost b0 = b.to_int();
    let mut x = a;
    let mut y = b;
    loop
        invariant
            z.to_int() == 0,
            a0 == a.to_int(),
            b0 == b.to_int(),
            a0 >= 0,
            b0 >= 0,
            (x.to_int() == a0 && y.to_int() == b0) || (x.to_int() > 0 && y.to_int() > 0 && a0 > 0
                && b0 > 0),
            forall|d: int|
                d > 0 ==> (#[trigger] common_divisor(d, x.to_int(), y.to_int()) <==> common_divisor(
                    d,
                    a0,
                    b0,
                )),
        decreases x.to_int() + y.to_int(),
    {
        proof {
            z.lemma_fits(0, 0, 0);
        }
        if x.same(z) {
            proof {
                if b0 > 0 {
                    lemma_gcd_base(b0);
                }
                lemma_gcd_unique(y.to_int(), a0, b0);
            }
            return y;
        } else if y.same(z) || x.same(y) {
            proof {
                let g = x.to_int();
                lemma_gcd_base(g);
                assert(common_divisor(g, x.to_int(), y.to_int()));
                assert(common_divisor(g, a0, b0));
                assert forall|d: int| #[trigger] common_divisor(d, a0, b0) implies d <= g by {
                    assert(common_divisor(d, x.to_int(), y.to_int()));
                    lemma_divides_le(d, g);
                }
                lemma_gcd_unique(g, a0, b0);
            }
            return x;
        } else if y.less(x) {
            proof {
                x.lemma_fits(0, x.to_int() - y.to_int(), x.to_int());
                assert forall|d: int| d > 0 implies (#[trigger] common_divisor(
                    d,
                    x.to_int() - y.to_int(),
                    y.to_int(),
                ) <==> common_divisor(d, a0, b0)) by {
                    lemma_common_divisor_sub(d, x.to_int(), y.to_int());
                }
            }
            x = x.minus(y);
        } else {
            proof {
                y.lemma_fits(0, y.to_int() - x.to_int(), y.to_int());
                assert forall|d: int| d > 0 implies (#[trigger] common_divisor(
                    d,
                    x.to_int(),
                    y.to_int() - x.to_int(),
                ) <==> common_divisor(d, a0, b0)) by {
                    lemma_common_divisor_sub(d, y.to_int(), x.to_int());
                    assert(common_divisor(d, x.to_int(), y.to_int()) <==> common_divisor(
                        d,
                        y.to_int(),
                        x.to_int(),
                    ));
                }
            }
            y = y.minus(x);
        }
    }
}

/// The absolute value of `x`.
fn abs_<T: MachineInt>(x: T) -> (r: T)
    requires
        x.to_int() < 0 ==> T::fits(-x.to_int()),
    ensures
        r.to_int() == magnitude(x.to_int()),
{
    let z = T::nought();
    if x.less(z) {
        z.minus(x)
    } else {
        x
    }
}

/// A fraction: a numerator over a denominator.
#[derive(Copy, Clone, Debug, Eq, PartialEq)]
pub struct Ratio<T: MachineInt> {
    pub numerator: T,
    pub denominator: T,
}

/// The fraction `n` over `d` can be reduced within the type `T`: `n` and
/// `d` are not both 0, and the type holds their absolute values.
pub open spec fn reducible<T: MachineInt>(n: int, d: int) -> bool {
    &&& !(n == 0 && d == 0)
    &&& T::fits(n)
    &&& T::fits(d)
    &&& T::fits(-n) || n > 0
    &&& T::fits(-d) || d > 0
}

impl<T: MachineInt> Ratio<T> {
    /// The integer that the numerator stands for.
    pub open spec fn num(self) -> int {
        self.numerator.to_int()
    }

    /// The integer that the denominator stands for.
    pub open spec fn den(self) -> int {
        self.denominator.to_int()
    }

    /// The fraction is `n` over `d` with the greatest common divisor of
    /// the two taken out of both.
    pub open spec fn is_reduction_of(self, n: int, d: int) -> bool {
        &&& self.num() * gcd_of(magnitude(n), magnitude(d)) == n
        &&& self.den() * gcd_of(magnitude(n), magnitude(d)) == d
    }

    /// Numerator and denominator have no common divisor but 1.
    pub open spec fn lowest_terms(self) -> bool {
        is_gcd(1, magnitude(self.num()), magnitude(self.den()))
    }

    /// The fraction `num` over `den` in lowest terms.
    pub fn new(num: T, den: T) -> (r: Ratio<T>)
        requires
            reducible::<T>(num.to_int(), den.to_int()),
        ensures
            r.is_reduction_of(num.to_int(), den.to_int()),
            r.lowest_terms(),
            gcd_of(magnitude(num.to_int()), magnitude(den.to_int())) > 0,
    {
        let mut res = Ratio { numerator: num, denominator: den };
        res.reduce();
        res
    }

    /// Divides numerator and denominator by their greatest common divisor.
    pub fn reduce(&mut self)
        requires
            reducible::<T>(old(self).num(), old(self).den()),
        ensures
            final(self).is_reduction_of(old(self).num(), old(self).den()),
            final(self).lowest_terms(),
            gcd_of(magnitude(old(self).num()), magnitude(old(self).den())) > 0,
    {
        let ghost n = self.num();
        let ghost d = self.den();
        let div: T = gcd(abs_(self.numerator), abs_(self.denominator));
        let ghost g = div.to_int();
        proof {
            assert(common_divisor(g, magnitude(n), magnitude(d)));
            lemma_exact_quotient(n, g);
            lemma_exact_quotient(d, g);
            self.numerator.lemma_fits(0, truncated_quotient(n, g), n);
            self.numerator.lemma_fits(n, truncated_quotient(n, g), 0);
            self.denominator.lemma_fits(0, truncated_quotient(d, g), d);
            self.denominator.lemma_fits(d, truncated_quotient(d, g), 0);
        }
        self.numerator = self.numerator.divided_by(div);
        self.denominator = self.denominator.divided_by(div);
        proof {
            lemma_reduced_is_coprime(
                g,
                magnitude(n),
                magnitude(d),
                magnitude(self.num()),
                magnitude(self.den()),
            );
        }
    }

    /// How the two fractions compare by their cross products: `self` with
    /// `other` as the numerator of the one times the denominator of the
    /// other, both ways round.
    pub fn cmp(&self, other: &Self) -> (r: Ordering)
        requires
            T::fits(self.num() * other.den()),
            T::fits(other.num() * self.den()),
        ensures
            r == Ordering::Less <==> self.num() * other.den()
                < other.num() * self.den(),
            r == Ordering::Equal <==> self.num() * other.den()
                == other.num() * self.den(),
            r == Ordering::Greater <==> self.num() * other.den()
                > other.num() * self.den(),
    {
        let a = self.numerator.times(other.denominator);
        let b = other.numerator.times(self.denominator);
        if a.less(b) {
            Ordering::Less
        } else if a.same(b) {
            Ordering::Equal
        } else {
            Ordering::Greater
        }
    }
}

/// The fraction `n` over `d` in lowest terms, in the type `T`.
pub open spec fn reduction_of<T: MachineInt>(n: int, d: int) -> Ratio<T> {
    choose|r: Ratio<T>| r.is_reduction_of(n, d)
}

/// Two fractions that are reductions of one fraction are the same.
pub proof fn lemma_reduction_unique<T: MachineInt>(x: Ratio<T>, y: Ratio<T>, n: int, d: int)
    requires
        x.is_reduction_of(n, d),
        y.is_reduction_of(n, d),
        gcd_of(magnitude(n), magnitude(d)) > 0,
    ensures
        x == y,
{
    let g = gcd_of(magnitude(n), magnitude(d));
    let (a, b) = (x.num(), y.num());
    let (c, e) = (x.den(), y.den());
    assert(a == b) by (nonlinear_arith)
        requires
            a * g == b * g,
            g > 0,
    ;
    assert(c == e) by (nonlinear_arith)
        requires
            c * g == e * g,
            g > 0,
    ;
    x.numerator.lemma_same(y.numerator);
    x.denominator.lemma_same(y.denominator);
}

/// Where `g` divides the absolute value of `a`, the quotient of `a` by
/// `g` is exact, lies between 0 and `a`, and has the absolute value of `a`
/// over `g` as its own.
pub proof fn lemma_exact_quotient(a: int, g: int)
    requires
        g > 0,
        divides(g, magnitude(a)),
    ensures
        truncated_quotient(a, g) * g == a,
        magnitude(truncated_quotient(a, g)) * g == magnitude(a),
        a >= 0 ==> 0 <= truncated_quotient(a, g) <= a,
        a < 0 ==> a <= truncated_quotient(a, g) <= 0,
{
    let m = magnitude(a);
    let q = m / g;
    lemma_divides_quotient(g, m);
    vstd::arithmetic::div_mod::lemma_div_pos_is_pos(m, g);
    vstd::arithmetic::div_mod::lemma_div_nonincreasing(m, g);
    assert((-q) * g == -(q * g)) by (nonlinear_arith);
}

impl<T: MachineInt> Add for Ratio<T> {
    type Output = Self;

    /// The sum of the two fractions, in lowest terms.
    fn add(self, other: Self) -> (r: Self)
        ensures
            r.is_reduction_of(
                self.num() * other.den() + other.num() * self.den(),
                self.den() * other.den(),
            ),
            r.lowest_terms(),
    {
        let mut res = Ratio {
            numerator: self.numerator.times(other.denominator).plus(
                other.numerator.times(self.denominator),
            ),
            denominator: self.denominator.times(other.denominator),
        };
        res.reduce();
        proof {
            let n = self.num() * other.den() + other.num() * self.den();
            let d = self.den() * other.den();
            lemma_reduction_unique(res, reduction_of::<T>(n, d), n, d);
        }
        res
    }
}

impl<T: MachineInt> AddSpecImpl for Ratio<T> {
    open spec fn obeys_add_spec() -> bool {
        true
    }

    /// The products and the result are held by `T`, and the result can be
    /// reduced.
    open spec fn add_req(self, rhs: Self) -> bool {
        &&& T::fits(self.num() * rhs.den())
        &&& T::fits(rhs.num() * self.den())
        &&& T::fits(self.den() * rhs.den())
        &&& T::fits(self.num() * rhs.den() + rhs.num() * self.den())
        &&& reducible::<T>(
            self.num() * rhs.den() + rhs.num() * self.den(),
            self.den() * rhs.den(),
        )
    }

    open spec fn add_spec(self, rhs: Self) -> Self {
        reduction_of::<T>(
            self.num() * rhs.den() + rhs.num() * self.den(),
            self.den() * rhs.den(),
        )
    }
}

impl<T: MachineInt> Sub for Ratio<T> {
    type Output = Self;

    /// The difference of the two fractions, in lowest terms.
    fn sub(self, other: Self) -> (r: Self)
        ensures
            r.is_reduction_of(
                self.num() * other.den() - other.num() * self.den(),
                self.den() * other.den(),
            ),
            r.lowest_terms(),
    {
        let mut res = Ratio {
            numerator: self.numerator.times(other.denominator).minus(
                other.numerator.times(self.denominator),
            ),
            denominator: self.denominator.times(other.denominator),
        };
        res.reduce();
        proof {
            let n = self.num() * other.den() - other.num() * self.den();
            let d = self.den() * other.den();
            lemma_reduction_unique(res, reduction_of::<T>(n, d), n, d);
        }
        res
    }
}

impl<T: MachineInt> SubSpecImpl for Ratio<T> {
    open spec fn obeys_sub_spec() -> bool {
        true
    }

    /// The products and the result are held by `T`, and the result can be
    /// reduced.
    open spec fn sub_req(self, rhs: Self) -> bool {
        &&& T::fits(self.num() * rhs.den())
        &&& T::fits(rhs.num() * self.den())
        &&& T::fits(self.den() * rhs.den())
        &&& T::fits(self.num() * rhs.den() - rhs.num() * self.den())
        &&& reducible::<T>(
            self.num() * rhs.den() - rhs.num() * self.den(),
            self.den() * rhs.den(),
        )
    }

    open spec fn sub_spec(self, rhs: Self) -> Self {
        reduction_of::<T>(
            self.num() * rhs.den() - rhs.num() * self.den(),
            self.den() * rhs.den(),
        )
    }
}

impl<T: MachineInt> Mul for Ratio<T> {
    type Output = Self;

    /// The product of the two fractions, in lowest terms.
    fn mul(self, other: Self) -> (r: Self)
        ensures
            r.is_reduction_of(
                self.num() * other.num(),
                self.den() * other.den(),
            ),
            r.lowest_terms(),
    {
        let mut res = Ratio {
            numerator: self.numerator.times(other.numerator),
            denominator: self.denominator.times(other.denominator),
        };
        res.reduce();
        proof {
            let n = self.num() * other.num();
            let d = self.den() * other.den();
            lemma_reduction_unique(res, reduction_of::<T>(n, d), n, d);
        }
        res
    }
}

impl<T: MachineInt> MulSpecImpl for Ratio<T> {
    open spec fn obeys_mul_spec() -> bool {
        true
    }

    /// The products and the result are held by `T`, and the result can be
    /// reduced.
    open spec fn mul_req(self, rhs: Self) -> bool {
        &&& T::fits(self.num() * rhs.num())
        &&& T::fits(self.den() * rhs.den())
        &&& reducible::<T>(
            self.num() * rhs.num(),
            self.den() * rhs.den(),
        )
    }

    open spec fn mul_spec(self, rhs: Self) -> Self {
        reduction_of::<T>(
            self.num() * rhs.num(),
            self.den() * rhs.den(),
        )
    }
}

impl<T: MachineInt> Div for Ratio<T> {
    type Output = Self;

    /// The quotient of the two fractions, in lowest terms.
    fn div(self, other: Self) -> (r: Self)
        ensures
            r.is_reduction_of(
                self.num() * other.den(),
                self.den() * other.num(),
            ),
            r.lowest_terms(),
    {
        let mut res = Ratio {
            numerator: self.numerator.times(other.denominator),
            denominator: self.denominator.times(other.numerator),
        };
        res.reduce();
        proof {
            let n = self.num() * other.den();
            let d = self.den() * other.num();
            lemma_reduction_unique(res, reduction_of::<T>(n, d), n, d);
        }
        res
    }
}

impl<T: MachineInt> DivSpecImpl for Ratio<T> {
    open spec fn obeys_div_spec() -> bool {
        true
    }

    /// The products and the result are held by `T`, and the result can be
    /// reduced.
    open spec fn div_req(self, rhs: Self) -> bool {
        &&& T::fits(self.num() * rhs.den())
        &&& T::fits(self.den() * rhs.num())
        &&& reducible::<T>(
            self.num() * rhs.den(),
            self.den() * rhs.num(),
        )
    }

    open spec fn div_spec(self, rhs: Self) -> Self {
        reduction_of::<T>(
            self.num() * rhs.den(),
            self.den() * rhs.num(),
        )
    }
}

} // verus!
