//! How the arithmetic of doubles keeps the order of the numbers.

use crate::arithmetic::{signed, size};
use crate::double::{
    lemma_magnitude_monotone,
    lemma_one,
    magnitude_value,
    Double,
    FRACTIONS,
    INFINITE,
    ONE_BITS,
};
use crate::rounding::{
    distance,
    lemma_nearest,
    lemma_nearest_error,
    lemma_nearest_exact,
    lemma_nearest_monotone,
    nearest,
};
use vstd::arithmetic::power2::{lemma_pow2_pos, pow2};
use vstd::prelude::*;

verus! {

/// The value of the double nearest to `num / den`.
pub open spec fn rounded(num: int, den: int) -> int {
    if num < 0 {
        -magnitude_value(nearest(-num, den))
    } else {
        magnitude_value(nearest(num, den))
    }
}

impl Double {
    /// Whether this is a number, and not infinite.
    pub open spec fn finite(self) -> bool {
        self.magnitude() < INFINITE
    }
}

/// Rounding keeps the order.
pub proof fn lemma_rounded_monotone(a: int, b: int, den: int)
    requires
        0 < den,
        a <= b,
    ensures
        rounded(a, den) <= rounded(b, den),
{
    if 0 <= a {
        lemma_nearest_monotone(a, b, den);
        lemma_nearest(a, den);
        lemma_magnitude_monotone(nearest(a, den), nearest(b, den));
    } else if b < 0 {
        lemma_nearest_monotone(-b, -a, den);
        lemma_nearest(-b, den);
        lemma_magnitude_monotone(nearest(-b, den), nearest(-a, den));
    } else {
        lemma_nearest(-a, den);
        lemma_nearest(b, den);
        lemma_magnitude_monotone(0, nearest(-a, den));
        lemma_magnitude_monotone(0, nearest(b, den));
    }
}

/// A number that is a double rounds to itself.
pub proof fn lemma_rounded_exact(x: Double, den: int)
    requires
        0 < den,
        !x.nan(),
    ensures
        rounded(x.value() * den, den) == x.value(),
{
    let m = x.magnitude();
    let v = magnitude_value(m);
    lemma_nearest_exact(m, den);
    lemma_magnitude_monotone(0, m);
    assert((-v) * den == -(v * den) && 0 <= v * den && (v * den == 0 <==> v == 0)) by (nonlinear_arith)
        requires
            0 <= v,
            0 < den,
    ;
}

/// How far a rounded number is off at most: by one part in `2^53`, or by half of
/// the smallest unit. Whole units are off by one part in `2^53` at most.
pub proof fn lemma_rounded_error(num: int, den: int)
    requires
        0 < den,
        -magnitude_value(INFINITE as int) < rounded(num, den) < magnitude_value(INFINITE as int),
    ensures
        2 * FRACTIONS * size(rounded(num, den) * den - num) <= size(num) + FRACTIONS * den,
        den == 1 ==> 2 * FRACTIONS * size(rounded(num, den) * den - num) <= size(num),
{
    let a = size(num);
    lemma_nearest(a, den);
    lemma_nearest_error(a, den);
    let v = magnitude_value(nearest(a, den));
    assert((-v) * den == -(v * den)) by (nonlinear_arith);
}

/// No double is nearer to a whole number of units than the rounded one.
pub proof fn lemma_rounded_nearest(num: int, y: Double)
    requires
        !y.nan(),
    ensures
        size(rounded(num, 1) - num) <= size(y.value() - num),
{
    let a = size(num);
    let n = nearest(a, 1);
    lemma_nearest(a, 1);
    lemma_magnitude_monotone(0, 0);
    lemma_magnitude_monotone(0, n);
    lemma_magnitude_monotone(0, y.magnitude());
    assert(n != 0 ==> distance(n, a, 1) <= distance(0, a, 1));
    assert(n != y.magnitude() ==> distance(n, a, 1) <= distance(y.magnitude(), a, 1));
}

/// What was added and is taken away again comes back but for the rounding of the
/// sum: at most twice what the sum is off by.
pub proof fn lemma_return(a: int, v: Double, sum: Double)
    requires
        v.finite(),
        sum.finite(),
        sum.value() == rounded(a + v.value(), 1),
    ensures
        size(rounded(a - sum.value(), 1) + v.value()) <= 2 * size(
            sum.value() - (a + v.value()),
        ),
        FRACTIONS * size(rounded(a - sum.value(), 1) + v.value()) <= size(a + v.value()),
{
    lemma_negated(v);
    lemma_rounded_nearest(a - sum.value(), v.negated());
    lemma_finite_value(sum);
    lemma_rounded_error(a + v.value(), 1);
}

/// A number between the infinities is finite.
pub proof fn lemma_finite(x: Double)
    requires
        !x.nan(),
        -magnitude_value(INFINITE as int) < x.value() < magnitude_value(INFINITE as int),
    ensures
        x.finite(),
{
}

/// A finite number is between the infinities.
pub proof fn lemma_finite_value(x: Double)
    requires
        x.finite(),
    ensures
        -magnitude_value(INFINITE as int) < x.value() < magnitude_value(INFINITE as int),
{
    lemma_magnitude_monotone(0, x.magnitude());
    lemma_magnitude_monotone(x.magnitude(), INFINITE as int);
}

/// A number between zero and one is finite, and one is as many units as fit in
/// it.
pub proof fn lemma_unit(x: Double)
    requires
        x.in_unit(),
    ensures
        x.finite(),
        (Double { bits: ONE_BITS }).finite(),
        (Double { bits: ONE_BITS }).value() == pow2(1074),
{
    lemma_one();
    lemma_finite_value(Double { bits: ONE_BITS });
    lemma_finite(x);
}

/// The value of a double that is put together.
pub proof fn lemma_signed(negative: bool, m: int)
    requires
        0 <= m <= INFINITE,
    ensures
        signed(negative, m).magnitude() == m,
        signed(negative, m).negative() == negative,
        signed(negative, m).value() == if negative {
            -magnitude_value(m)
        } else {
            magnitude_value(m)
        },
{
}

/// What the sum of two finite doubles is.
pub proof fn lemma_plus(x: Double, y: Double)
    requires
        x.finite(),
        y.finite(),
    ensures
        !x.plus(y).nan(),
        x.plus(y).value() == rounded(x.value() + y.value(), 1),
{
    let sum = x.value() + y.value();
    lemma_nearest(size(sum), 1);
    lemma_signed(sum < 0, nearest(size(sum), 1));
    lemma_signed(x.negative() && y.negative(), 0);
    lemma_nearest_exact(0, 1);
    lemma_magnitude_monotone(0, 0);
}

/// What the negative of a double is.
pub proof fn lemma_negated(x: Double)
    ensures
        x.negated().magnitude() == x.magnitude(),
        x.negated().value() == -x.value(),
        x.negated().negative() != x.negative(),
{
}

/// What the difference of two finite doubles is.
pub proof fn lemma_minus(x: Double, y: Double)
    requires
        x.finite(),
        y.finite(),
    ensures
        !x.minus(y).nan(),
        x.minus(y).value() == rounded(x.value() - y.value(), 1),
{
    lemma_negated(y);
    lemma_plus(x, y.negated());
}

/// What the difference of a finite and an infinite double is.
proof fn lemma_infinite_minus(x: Double, c: Double)
    requires
        x.infinite(),
        c.finite(),
    ensures
        x.minus(c) == x,
        c.minus(x) == x.negated(),
{
    lemma_negated(c);
    lemma_negated(x);
}

/// Taking a finite double away keeps the order, and being taken away from it
/// reverses the order.
pub proof fn lemma_minus_order(x: Double, y: Double, c: Double)
    requires
        x.up_to(y),
        c.finite(),
    ensures
        x.minus(c).up_to(y.minus(c)),
        c.minus(y).up_to(c.minus(x)),
{
    lemma_minus_value(x, c);
    lemma_minus_value(y, c);
    if x.finite() && y.finite() {
        lemma_rounded_monotone(x.value() - c.value(), y.value() - c.value(), 1);
        lemma_rounded_monotone(c.value() - y.value(), c.value() - x.value(), 1);
    } else {
        lemma_any_value(x);
        lemma_any_value(y);
        lemma_any_value(x.minus(c));
        lemma_any_value(y.minus(c));
        lemma_any_value(c.minus(x));
        lemma_any_value(c.minus(y));
    }
}

/// A number is not beyond the infinities.
proof fn lemma_any_value(x: Double)
    requires
        !x.nan(),
    ensures
        -magnitude_value(INFINITE as int) <= x.value() <= magnitude_value(INFINITE as int),
        x.infinite() <==> size(x.value()) == magnitude_value(INFINITE as int),
{
    lemma_magnitude_monotone(0, x.magnitude());
    lemma_magnitude_monotone(x.magnitude(), INFINITE as int);
}

/// What the differences with a finite double are.
proof fn lemma_minus_value(x: Double, c: Double)
    requires
        !x.nan(),
        c.finite(),
    ensures
        !x.minus(c).nan(),
        !c.minus(x).nan(),
        x.finite() ==> x.minus(c).value() == rounded(x.value() - c.value(), 1),
        x.finite() ==> c.minus(x).value() == rounded(c.value() - x.value(), 1),
        x.infinite() ==> x.minus(c).value() == x.value() && c.minus(x).value() == -x.value(),
{
    if x.finite() {
        lemma_minus(x, c);
        lemma_minus(c, x);
    } else {
        lemma_infinite_minus(x, c);
        lemma_negated(x);
    }
}

/// What the product of two finite doubles is.
pub proof fn lemma_times(x: Double, y: Double)
    requires
        x.finite(),
        y.finite(),
    ensures
        !x.times(y).nan(),
        x.times(y).value() == rounded(x.value() * y.value(), pow2(1074) as int),
{
    let den = pow2(1074) as int;
    lemma_pow2_pos(1074);
    lemma_magnitude_monotone(0, x.magnitude());
    lemma_magnitude_monotone(0, y.magnitude());
    let (a, b) = (x.value(), y.value());
    let num = size(a) * size(b);
    assert(0 <= num && (a * b == num || a * b == -num) && ((a < 0) != (b < 0) && a != 0 && b != 0
        ==> a * b == -num) && ((a < 0) == (b < 0) ==> a * b == num) && (a == 0 || b == 0 ==> num
        == 0) && (num == 0 ==> a == 0 || b == 0)) by (nonlinear_arith)
        requires
            num == (if a < 0 {
                -a
            } else {
                a
            }) * (if b < 0 {
                -b
            } else {
                b
            }),
    ;
    lemma_nearest(num, den);
    lemma_signed(x.negative() != y.negative(), nearest(num, den));
    lemma_nearest_exact(0, den);
    lemma_magnitude_monotone(0, 0);
    assert(0 * den == 0) by (nonlinear_arith);
}

/// What the quotient of two finite doubles is.
pub proof fn lemma_over(x: Double, y: Double)
    requires
        x.finite(),
        y.finite(),
        0 < y.value(),
    ensures
        !x.over(y).nan(),
        x.over(y).value() == rounded(x.value() * pow2(1074), y.value()),
{
    let w = pow2(1074) as int;
    lemma_pow2_pos(1074);
    lemma_magnitude_monotone(0, x.magnitude());
    lemma_magnitude_monotone(0, y.magnitude());
    let a = x.value();
    assert((-a) * w == -(a * w) && (a < 0 ==> a * w < 0) && (0 <= a ==> 0 <= a * w) && (a == 0
        ==> a * w == 0)) by (nonlinear_arith)
        requires
            0 < w,
    ;
    lemma_nearest(size(a) * w, y.value());
    lemma_signed(x.negative() != y.negative(), nearest(size(a) * w, y.value()));
    lemma_nearest_exact(0, y.value());
    lemma_magnitude_monotone(0, 0);
    assert(0 * y.value() == 0) by (nonlinear_arith);
    lemma_signed(x.negative() != y.negative(), 0);
}

} // verus!
