//! How near the results of the arithmetic of doubles are to the exact ones.
//!
//! Values count units of `2^-1074`, so that `2^1074` units are one: a product of
//! values counts `2^1074` times as many units as the product, and so on. No clause
//! here speaks of how a result is found, only of what it is near to.

use crate::arithmetic::size;
use crate::double::{
    lemma_magnitude_monotone,
    lemma_magnitude_parts,
    lemma_magnitude_split,
    magnitude_value,
    Double,
    FRACTIONS,
    INFINITE,
};
use crate::order::{
    lemma_finite_value,
    lemma_negated,
    lemma_over,
    lemma_plus,
    lemma_rounded_error,
    lemma_rounded_exact,
    lemma_signed,
    lemma_times,
    rounded,
};
use crate::root::{is_nearest_root, lemma_nearest_root, nearest_root};
use crate::rounding::{distance, lemma_nearest, lemma_nearest_exact, nearest};
use vstd::arithmetic::power2::{lemma_pow2_adds, lemma_pow2_pos, lemma_pow2_unfold, pow2};
use vstd::prelude::*;

verus! {

/// Whether `r` is `a + b` but for one part in `2^53`.
pub open spec fn near_sum(r: int, a: int, b: int) -> bool {
    2 * FRACTIONS * size(r - (a + b)) <= size(a + b)
}

/// Whether `r` is the product of `x` and `y` but for one part in `2^53`, or half a
/// unit.
pub open spec fn near_product(r: int, x: int, y: int) -> bool {
    2 * FRACTIONS * size(r * pow2(1074) - x * y) <= size(x * y) + FRACTIONS * pow2(1074)
}

/// Whether `r` is the quotient of `x` and `y` but for one part in `2^53`, or half a
/// unit.
pub open spec fn near_quotient(r: int, x: int, y: int) -> bool {
    2 * FRACTIONS * size(r * y - x * pow2(1074)) <= size(x * pow2(1074)) + FRACTIONS * size(y)
}

/// Whether `r` is the square root of `x` but for one part in `2^53`.
pub open spec fn near_root(r: int, x: int) -> bool {
    let f = FRACTIONS as int;
    &&& 0 <= r
    &&& (2 * f - 1) * (2 * f - 1) * (r * r) <= (2 * f) * (2 * f) * (x * pow2(1074))
    &&& (2 * f) * (2 * f) * (x * pow2(1074)) <= (2 * f + 1) * (2 * f + 1) * (r * r)
}

/// No double is nearer to a quotient than the rounded one.
pub proof fn lemma_nearest_of_all(num: int, den: int, z: Double)
    requires
        0 < den,
        !z.nan(),
    ensures
        size(rounded(num, den) * den - num) <= size(z.value() * den - num),
{
    let a = size(num);
    let (n, k) = (nearest(a, den), z.magnitude());
    lemma_nearest(a, den);
    lemma_magnitude_monotone(0, 0);
    lemma_magnitude_monotone(0, n);
    lemma_magnitude_monotone(0, k);
    let (v, u) = (magnitude_value(n), magnitude_value(k));
    assert((-v) * den == -(v * den) && (-u) * den == -(u * den) && 0 * den == 0 && 0 <= u * den)
        by (nonlinear_arith)
        requires
            0 <= u,
            0 < den,
    ;
    assert(n != 0 ==> distance(n, a, den) <= distance(0, a, den));
    assert(n != k ==> distance(n, a, den) <= distance(k, a, den));
}

/// The sum of two finite numbers is a number, and no other number is nearer to the
/// exact sum. If it is finite, it is the sum but for one part in `2^53`.
pub proof fn law_sum(x: Double, y: Double, z: Double)
    requires
        x.finite(),
        y.finite(),
        !z.nan(),
    ensures
        ({
            let (r, sum) = (x.plus(y), x.value() + y.value());
            &&& !r.nan()
            &&& size(r.value() - sum) <= size(z.value() - sum)
            &&& r.finite() ==> near_sum(r.value(), x.value(), y.value())
        }),
{
    lemma_plus(x, y);
    lemma_nearest_of_all(x.value() + y.value(), 1, z);
    if x.plus(y).finite() {
        lemma_finite_value(x.plus(y));
        lemma_rounded_error(x.value() + y.value(), 1);
    }
}

/// The difference of two finite numbers, likewise.
pub proof fn law_difference(x: Double, y: Double, z: Double)
    requires
        x.finite(),
        y.finite(),
        !z.nan(),
    ensures
        ({
            let (r, difference) = (x.minus(y), x.value() - y.value());
            &&& !r.nan()
            &&& size(r.value() - difference) <= size(z.value() - difference)
            &&& r.finite() ==> near_sum(r.value(), x.value(), -y.value())
        }),
{
    lemma_negated(y);
    law_sum(x, y.negated(), z);
}

/// The product of two finite numbers is a number, and no other number is nearer to
/// the exact product.
pub proof fn law_product(x: Double, y: Double, z: Double)
    requires
        x.finite(),
        y.finite(),
        !z.nan(),
    ensures
        ({
            let (r, w) = (x.times(y), pow2(1074) as int);
            &&& !r.nan()
            &&& size(r.value() * w - x.value() * y.value()) <= size(
                z.value() * w - x.value() * y.value(),
            )
            &&& r.finite() ==> near_product(r.value(), x.value(), y.value())
            &&& r.negative() <==> x.negative() != y.negative()
        }),
{
    let w = pow2(1074) as int;
    lemma_pow2_pos(1074);
    lemma_times(x, y);
    lemma_nearest_of_all(x.value() * y.value(), w, z);
    let (a, b) = (size(x.value()), size(y.value()));
    assert(0 <= a * b) by (nonlinear_arith)
        requires
            0 <= a,
            0 <= b,
    ;
    lemma_nearest(a * b, w);
    lemma_signed(x.negative() != y.negative(), nearest(a * b, w));
    if x.times(y).finite() {
        lemma_finite_value(x.times(y));
        lemma_rounded_error(x.value() * y.value(), w);
    }
}

/// What a quotient by a number below zero is.
proof fn lemma_over_negative(x: Double, y: Double)
    requires
        x.finite(),
        y.finite(),
        y.value() < 0,
    ensures
        !x.over(y).nan(),
        x.over(y).value() == rounded(-(x.value() * pow2(1074)), -y.value()),
{
    let w = pow2(1074) as int;
    lemma_pow2_pos(1074);
    lemma_magnitude_monotone(0, x.magnitude());
    lemma_magnitude_monotone(0, y.magnitude());
    let (a, d) = (x.value(), -y.value());
    assert((-a) * w == -(a * w) && (a < 0 ==> a * w < 0) && (0 < a ==> 0 < a * w) && (a == 0 ==> a
        * w == 0)) by (nonlinear_arith)
        requires
            0 < w,
    ;
    lemma_nearest(size(a) * w, d);
    lemma_signed(x.negative() != y.negative(), nearest(size(a) * w, d));
    lemma_nearest_exact(0, d);
    lemma_magnitude_monotone(0, 0);
    assert(0 * d == 0) by (nonlinear_arith);
    lemma_signed(x.negative() != y.negative(), 0);
}

/// The quotient of two finite numbers, of which the second is not zero, is a
/// number, and no other number is nearer to the exact quotient.
pub proof fn law_quotient(x: Double, y: Double, z: Double)
    requires
        x.finite(),
        y.finite(),
        y.value() != 0,
        !z.nan(),
    ensures
        ({
            let (r, w) = (x.over(y), pow2(1074) as int);
            &&& !r.nan()
            &&& size(r.value() * y.value() - x.value() * w) <= size(
                z.value() * y.value() - x.value() * w,
            )
            &&& r.finite() ==> near_quotient(r.value(), x.value(), y.value())
        }),
{
    let (w, r) = (pow2(1074) as int, x.over(y));
    let (a, b) = (x.value() * w, y.value());
    lemma_pow2_pos(1074);
    if 0 < b {
        lemma_over(x, y);
        lemma_nearest_of_all(a, b, z);
        if r.finite() {
            lemma_finite_value(r);
            lemma_rounded_error(a, b);
        }
    } else {
        lemma_over_negative(x, y);
        lemma_nearest_of_all(-a, -b, z);
        let (u, v) = (r.value(), z.value());
        assert(u * (-b) == -(u * b) && v * (-b) == -(v * b)) by (nonlinear_arith);
        if r.finite() {
            lemma_finite_value(r);
            lemma_rounded_error(-a, -b);
        }
    }
}

/// The square root of a finite number above zero is a finite number, the root but
/// for one part in `2^53`.
pub proof fn law_root(x: Double)
    requires
        x.finite(),
        0 < x.value(),
    ensures
        x.root().finite(),
        0 < x.root().value(),
        near_root(x.root().value(), x.value()),
{
    let w = pow2(1074) as int;
    let n = x.value() * w;
    lemma_pow2_pos(1074);
    lemma_magnitude_monotone(0, x.magnitude());
    assert(0 <= n) by (nonlinear_arith)
        requires
            n == x.value() * w,
            0 < x.value(),
            0 < w,
    ;
    lemma_nearest_root(n);
    lemma_root_error(x, nearest_root(n));
}

/// No other number is nearer to the square root: the root is not beyond the middle to
/// any other one.
pub proof fn law_root_is_nearest(x: Double, z: Double)
    requires
        x.finite(),
        0 < x.value(),
        !z.nan(),
        0 <= z.value(),
    ensures
        ({
            let (r, v) = (x.root().value(), z.value());
            &&& v < r ==> (v + r) * (v + r) <= 4 * (x.value() * pow2(1074))
            &&& r < v ==> 4 * (x.value() * pow2(1074)) <= (v + r) * (v + r)
        }),
{
    let w = pow2(1074) as int;
    let n = x.value() * w;
    lemma_pow2_pos(1074);
    lemma_magnitude_monotone(0, x.magnitude());
    lemma_magnitude_monotone(0, 0);
    assert(0 <= n) by (nonlinear_arith)
        requires
            n == x.value() * w,
            0 < x.value(),
            0 < w,
    ;
    lemma_nearest_root(n);
    let (m, k) = (nearest_root(n), z.magnitude());
    lemma_signed(false, m);
    lemma_magnitude_monotone(0, k);
    assert(magnitude_value(k) == z.value());
    if k < m {
        lemma_magnitude_monotone(k, m);
    } else if m < k {
        lemma_magnitude_monotone(m, k);
    }
}

/// How far the nearest root is off.
proof fn lemma_root_error(x: Double, m: int)
    requires
        x.finite(),
        0 < x.value(),
        is_nearest_root(x.value() * pow2(1074), m),
        x.root() == crate::arithmetic::signed(false, m),
    ensures
        x.root().finite(),
        0 < x.root().value(),
        near_root(x.root().value(), x.value()),
{
    let w = pow2(1074) as int;
    let f = FRACTIONS as int;
    let n = x.value() * w;
    let v = magnitude_value(m);
    lemma_pow2_pos(1074);
    lemma_signed(false, m);
    // It is neither very small nor infinite.
    let low = 485 * f + f;
    let high = 1600 * f + f;
    assert(low <= m < high) by {
        lemma_root_range(x, m);
    }
    let (q, t) = lemma_magnitude_split(m);
    let u = pow2(t) as int;
    lemma_pow2_pos(t);
    assert(t > 0) by {
        if t == 0 {
            assert(m == q);
        }
    }
    lemma_magnitude_parts(t as int, q + 1);
    let (next, before) = (magnitude_value(m + 1), magnitude_value(m - 1));
    assert(next == v + u) by (nonlinear_arith)
        requires
            next == (q + 1) * u,
            v == q * u,
    ;
    assert(v - u <= before < v) by {
        lemma_magnitude_monotone(m - 1, m);
        if q > f {
            lemma_magnitude_parts(t as int, q - 1);
            assert((q - 1) * u == q * u - u) by (nonlinear_arith);
        } else {
            lemma_pow2_unfold(t);
            let h = pow2((t - 1) as nat) as int;
            lemma_magnitude_parts(t - 1, 2 * f - 1);
            assert(m - 1 == (t - 1) * f + (2 * f - 1)) by (nonlinear_arith)
                requires
                    m == t * f + q,
                    q == f,
            ;
            assert((2 * f - 1) * h == f * (2 * h) - h) by (nonlinear_arith);
            assert(f * (2 * h) == q * u);
        }
    }
    assert(f * u <= v) by (nonlinear_arith)
        requires
            v == q * u,
            f <= q,
            0 < u,
    ;
    let (a, b) = (v + before, v + next);
    assert(a * a <= 4 * n && 4 * n <= b * b) by {
        assert(before + v == a && next + v == b);
    }
    lemma_root_bounds(n, v, u, a, b);
}

proof fn lemma_root_bounds(n: int, v: int, u: int, a: int, b: int)
    requires
        a * a <= 4 * n <= b * b,
        2 * v - u <= a,
        b == 2 * v + u,
        FRACTIONS * u <= v,
        0 < u,
    ensures
        ({
            let f = FRACTIONS as int;
            &&& (2 * f - 1) * (2 * f - 1) * (v * v) <= (2 * f) * (2 * f) * n
            &&& (2 * f) * (2 * f) * n <= (2 * f + 1) * (2 * f + 1) * (v * v)
        }),
{
    let f = FRACTIONS as int;
    let (c, d) = (2 * v - u, 2 * v + u);
    assert(0 <= c) by {
        assert(u <= f * u) by (nonlinear_arith)
            requires
                1 <= f,
                0 < u,
        ;
    }
    assert(c * c <= a * a) by (nonlinear_arith)
        requires
            0 <= c <= a,
    ;
    // `f` times these are at least, and at most, odd multiples of `v`.
    let (g, h) = ((2 * f - 1) * v, (2 * f + 1) * v);
    assert(g <= f * c && f * d <= h) by (nonlinear_arith)
        requires
            c == 2 * v - u,
            d == 2 * v + u,
            g == (2 * f - 1) * v,
            h == (2 * f + 1) * v,
            f * u <= v,
    ;
    assert(0 <= g) by (nonlinear_arith)
        requires
            g == (2 * f - 1) * v,
            1 <= f,
            0 <= v,
    ;
    lemma_square_order(g, f * c);
    lemma_square_order(f * d, h);
    assert((f * c) * (f * c) == (f * f) * (c * c) && (f * d) * (f * d) == (f * f) * (d * d))
        by (nonlinear_arith);
    assert(g * g == (2 * f - 1) * (2 * f - 1) * (v * v)) by (nonlinear_arith)
        requires
            g == (2 * f - 1) * v,
    ;
    assert(h * h == (2 * f + 1) * (2 * f + 1) * (v * v)) by (nonlinear_arith)
        requires
            h == (2 * f + 1) * v,
    ;
    let ff = f * f;
    assert(ff * (c * c) <= ff * (4 * n) && ff * (4 * n) <= ff * (d * d)) by (nonlinear_arith)
        requires
            c * c <= 4 * n,
            4 * n <= d * d,
            0 <= ff,
    ;
    assert(ff * (4 * n) == (2 * f) * (2 * f) * n) by (nonlinear_arith)
        requires
            ff == f * f,
    ;
}

proof fn lemma_square_order(x: int, y: int)
    requires
        0 <= x <= y,
    ensures
        x * x <= y * y,
{
    assert(x * x <= y * y) by (nonlinear_arith)
        requires
            0 <= x <= y,
    ;
}

/// A square root is neither very small nor very large.
proof fn lemma_root_range(x: Double, m: int)
    requires
        x.finite(),
        0 < x.value(),
        is_nearest_root(x.value() * pow2(1074), m),
    ensures
        485 * FRACTIONS + FRACTIONS <= m < 1600 * FRACTIONS + FRACTIONS,
{
    let f = FRACTIONS as int;
    let w = pow2(1074) as int;
    let n = x.value() * w;
    let (low, high) = (485 * f + f, 1600 * f + f);
    lemma_pow2_pos(1074);
    vstd::arithmetic::power2::lemma2_to64();
    vstd::arithmetic::power2::lemma2_to64_rest();
    lemma_pow2_pos(537);
    lemma_pow2_adds(537, 537);
    lemma_pow2_adds(52, 484);
    lemma_pow2_adds(52, 485);
    lemma_pow2_unfold(537);
    lemma_pow2_adds(536, 1);
    lemma_magnitude_parts(484, f);
    lemma_magnitude_parts(485, f);
    lemma_magnitude_parts(485, f + 1);
    // low is the root of one unit.
    let p = pow2(537) as int;
    assert(p * p == w && magnitude_value(low) == p);
    assert(w <= n) by (nonlinear_arith)
        requires
            n == x.value() * w,
            0 < x.value(),
            0 < w,
    ;
    lemma_magnitude_monotone(0, low);
    assert(low <= m) by {
        lemma_low_root(n, m, low, p);
    }
    // high is above the root of the largest.
    lemma_finite_value(x);
    lemma_magnitude_parts(2046, f);
    assert(2046 * f + f == INFINITE);
    lemma_magnitude_parts(1600, f);
    lemma_pow2_adds(52, 1600);
    lemma_pow2_adds(52, 2046);
    lemma_pow2_adds(2098, 1074);
    let r = pow2(1652) as int;
    lemma_pow2_adds(1586, 1586);
    lemma_pow2_adds(1586, 66);
    lemma_pow2_pos(1586);
    lemma_pow2_adds(64, 2);
    let s = pow2(1586) as int;
    assert(magnitude_value(high) == r);
    assert(4 * s <= r) by (nonlinear_arith)
        requires
            r == s * pow2(66),
            4 <= pow2(66),
            0 < s,
    ;
    assert(n <= s * s) by (nonlinear_arith)
        requires
            n == x.value() * w,
            x.value() < pow2(2098),
            pow2(2098) * w == s * s,
            0 < w,
    ;
    assert(m < high) by {
        lemma_high_root(n, m, high, s, r);
    }
}

proof fn lemma_low_root(n: int, m: int, low: int, p: int)
    requires
        is_nearest_root(n, m),
        0 <= low < INFINITE,
        magnitude_value(low) == p,
        p * p <= n,
    ensures
        low <= m,
{
    if m < low {
        lemma_magnitude_monotone(m, low);
        lemma_magnitude_monotone(0, m);
        let twice = magnitude_value(low) + magnitude_value(m);
        assert(twice * twice < 4 * (p * p)) by (nonlinear_arith)
            requires
                0 <= twice < 2 * p,
        ;
    }
}

proof fn lemma_high_root(n: int, m: int, high: int, s: int, r: int)
    requires
        is_nearest_root(n, m),
        0 <= high < INFINITE,
        magnitude_value(high) == r,
        0 < s,
        4 * s <= r,
        n <= s * s,
    ensures
        m < high,
{
    if high <= m {
        lemma_magnitude_monotone(0, 0);
        lemma_magnitude_monotone(high, m);
        let twice = magnitude_value(0) + magnitude_value(m);
        assert(4 * (s * s) < twice * twice) by (nonlinear_arith)
            requires
                4 * s <= twice,
                0 < s,
        ;
    }
}

/// Of two doubles that are equally near to a quotient, the rounded one is even.
proof fn lemma_even_of_two(num: int, den: int, r: Double, z: Double)
    requires
        0 < den,
        !r.nan(),
        !z.nan(),
        r.value() == rounded(num, den),
        z.value() != r.value(),
        size(z.value() * den - num) == size(r.value() * den - num),
    ensures
        r.magnitude() % 2 == 0,
{
    let a = size(num);
    let (n, k, m) = (nearest(a, den), z.magnitude(), r.magnitude());
    lemma_nearest(a, den);
    lemma_magnitude_monotone(0, 0);
    lemma_magnitude_monotone(0, n);
    lemma_magnitude_monotone(0, k);
    lemma_magnitude_monotone(0, m);
    let (v, u) = (magnitude_value(n), magnitude_value(k));
    assert((-v) * den == -(v * den) && (-u) * den == -(u * den) && 0 * den == 0 && 0 <= u * den
        && (0 < u ==> 0 < u * den)) by (nonlinear_arith)
        requires
            0 <= u,
            0 < den,
    ;
    assert(n != 0 ==> distance(n, a, den) <= distance(0, a, den));
    assert(n != k ==> distance(n, a, den) <= distance(k, a, den));
    assert(m == n) by {
        if m < n {
            lemma_magnitude_monotone(m, n);
        } else if n < m {
            lemma_magnitude_monotone(n, m);
        }
    }
    assert(n != k ==> distance(n, a, den) < distance(k, a, den) || n % 2 == 0);
}

/// Where another number is just as near to the exact result of an operation, the result
/// is the even one of the two.
pub proof fn law_ties(x: Double, y: Double, z: Double)
    requires
        x.finite(),
        y.finite(),
        !z.nan(),
    ensures
        ({
            let (r, sum) = (x.plus(y), x.value() + y.value());
            z.value() != r.value() && size(z.value() - sum) == size(r.value() - sum)
                ==> r.magnitude() % 2 == 0
        }),
        ({
            let (r, w, product) = (x.times(y), pow2(1074), x.value() * y.value());
            z.value() != r.value() && size(z.value() * w - product) == size(r.value() * w - product)
                ==> r.magnitude() % 2 == 0
        }),
        ({
            let (r, a, b) = (x.over(y), x.value() * pow2(1074), y.value());
            b != 0 && z.value() != r.value() && size(z.value() * b - a) == size(r.value() * b - a)
                ==> r.magnitude() % 2 == 0
        }),
{
    let w = pow2(1074) as int;
    let (a, b) = (x.value() * w, y.value());
    lemma_pow2_pos(1074);
    lemma_plus(x, y);
    let (r, sum) = (x.plus(y), x.value() + y.value());
    if z.value() != r.value() && size(z.value() - sum) == size(r.value() - sum) {
        lemma_even_of_two(sum, 1, r, z);
    }
    lemma_times(x, y);
    let (r, product) = (x.times(y), x.value() * y.value());
    if z.value() != r.value() && size(z.value() * w - product) == size(r.value() * w - product) {
        lemma_even_of_two(product, w, r, z);
    }
    let r = x.over(y);
    if b != 0 && z.value() != r.value() && size(z.value() * b - a) == size(r.value() * b - a) {
        if 0 < b {
            lemma_over(x, y);
            lemma_even_of_two(a, b, r, z);
        } else {
            lemma_over_negative(x, y);
            let (u, v) = (r.value(), z.value());
            assert(u * (-b) == -(u * b) && v * (-b) == -(v * b)) by (nonlinear_arith);
            lemma_even_of_two(-a, -b, r, z);
        }
    }
}

/// Flipping the sign gives the opposite number, and flipping it again the same number.
/// The absolute value is the number without its sign.
pub proof fn law_sign(x: Double)
    ensures
        x.negated().nan() == x.nan(),
        x.negated().value() == -x.value(),
        x.negated().negative() != x.negative(),
        x.negated().negated() == x,
        x.absolute().nan() == x.nan(),
        !x.nan() ==> x.absolute().value() == size(x.value()),
        !x.absolute().negative(),
{
    lemma_negated(x);
    lemma_negated(x.negated());
    if !x.nan() {
        lemma_magnitude_monotone(0, 0);
        lemma_magnitude_monotone(0, x.magnitude());
    }
}

/// Of two numbers one is the smaller, or they are equal, and never two of these. What is
/// not a number is neither.
pub proof fn law_order(x: Double, y: Double)
    ensures
        !x.nan() && !y.nan() ==> x.below(y) || x.equals(y) || y.below(x),
        x.nan() || y.nan() ==> !x.below(y) && !x.equals(y) && !x.up_to(y),
        !(x.below(y) && x.equals(y)) && !(x.below(y) && y.below(x)),
        x.up_to(y) <==> x.below(y) || x.equals(y),
        x.equals(y) <==> y.equals(x),
        x.finite() && y.finite() ==> {
            &&& x.below(y) <==> x.value() < y.value()
            &&& x.equals(y) <==> x.value() == y.value()
        },
{
}

/// An operation has no result where one of its operands is not a number, and besides
/// only these: the difference of two infinities, the product of an infinity and zero,
/// the quotient of two infinities or of two zeros, and the root of a number below zero.
pub proof fn law_without_result(x: Double, y: Double)
    ensures
        x.plus(y).nan() <==> x.nan() || y.nan() || (x.infinite() && y.infinite() && x.negative()
            != y.negative()),
        x.times(y).nan() <==> x.nan() || y.nan() || (x.infinite() && y.is_zero()) || (x.is_zero()
            && y.infinite()),
        x.over(y).nan() <==> x.nan() || y.nan() || (x.infinite() && y.infinite()) || (x.is_zero()
            && y.is_zero()),
        x.root().nan() <==> x.nan() || (x.negative() && !x.is_zero()),
{
    lemma_magnitude_monotone(0, 0);
    lemma_signed(true, INFINITE as int);
    lemma_signed(false, INFINITE as int);
    lemma_signed(true, 0);
    lemma_signed(false, 0);
    if x.finite() && y.finite() {
        law_sum(x, y, x);
        law_product(x, y, x);
        if !y.is_zero() {
            lemma_magnitude_monotone(0, y.magnitude());
            law_quotient(x, y, x);
        }
    }
    if x.finite() && !x.negative() && !x.is_zero() {
        lemma_magnitude_monotone(0, x.magnitude());
        law_root(x);
    }
}

/// An infinity stays one when something finite is done to it, and is reached by dividing
/// by zero. What is divided by an infinity is zero.
pub proof fn law_infinite(x: Double, y: Double)
    requires
        x.infinite(),
        y.finite(),
    ensures
        x.plus(y) == x,
        y.plus(x) == x,
        x.minus(y) == x,
        y.minus(x) == x.negated(),
        !y.is_zero() ==> {
            &&& x.times(y).infinite() && x.times(y).negative() == (x.negative() != y.negative())
            &&& y.times(x) == x.times(y)
        },
        x.over(y).infinite() && x.over(y).negative() == (x.negative() != y.negative()),
        y.over(x).is_zero() && y.over(x).negative() == (x.negative() != y.negative()),
        !x.negative() ==> x.root() == x,
{
    lemma_negated(x);
    lemma_negated(y);
    lemma_signed(true, INFINITE as int);
    lemma_signed(false, INFINITE as int);
    lemma_signed(true, 0);
    lemma_signed(false, 0);
}

/// What zeros do: a number less itself is zero, and so is a number times zero; the root
/// of a zero is that zero, and any other number divided by zero is infinite.
pub proof fn law_zero(x: Double, zero: Double)
    requires
        x.finite(),
        zero.is_zero(),
    ensures
        x.minus(x).bits == 0,
        x.plus(zero).equals(x),
        x.times(zero).is_zero(),
        zero.root() == zero,
        !x.is_zero() ==> x.over(zero).infinite(),
        !x.is_zero() ==> x.over(zero).negative() == (x.negative() != zero.negative()),
        !x.is_zero() ==> zero.over(x).is_zero(),
{
    let w = pow2(1074) as int;
    lemma_magnitude_monotone(0, 0);
    lemma_negated(x);
    lemma_negated(zero);
    lemma_signed(true, INFINITE as int);
    lemma_signed(false, INFINITE as int);
    lemma_signed(true, 0);
    lemma_signed(false, 0);
    lemma_pow2_pos(1074);
    lemma_plus(x, zero);
    lemma_rounded_exact(x, 1);
    let a = size(x.value());
    assert(a * 0 == 0) by (nonlinear_arith);
    assert(0 * w == 0) by (nonlinear_arith);
    lemma_nearest_exact(0, w);
}

} // verus!
