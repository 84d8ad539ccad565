//! How the curves and the ranges follow their formulas, but for rounding.

use crate::accuracy::{
    law_difference,
    law_product,
    law_quotient,
    law_sum,
    near_product,
    near_quotient,
    near_sum,
};
use crate::animation_laws::{lemma_scale_order, lemma_size_product};
use crate::arithmetic::size;
use crate::double::{
    lemma_half,
    lemma_magnitude_monotone,
    lemma_one,
    Double,
    FRACTIONS,
    HALF_BITS,
    INFINITE,
    ONE_BITS,
    TWO_BITS,
};
use crate::easing::{
    in_out_input,
    in_out_output,
    law_in_out_stays_in_range,
    law_powi_stays_in_range,
    lemma_halved,
    lemma_two,
};
use crate::order::{
    lemma_finite,
    lemma_finite_value,
    lemma_rounded_exact,
    lemma_signed,
    lemma_times,
    lemma_unit,
};
use crate::percentage::{between, law_invert_stays_in_range, Percentage};
use crate::power::{lemma_raised, raised};
use vstd::arithmetic::power::{
    lemma_pow0,
    lemma_pow1,
    lemma_pow_adds,
    lemma_pow_distributes,
    lemma_pow_positive,
    pow,
};
use vstd::arithmetic::power2::{lemma_pow2_adds, lemma_pow2_pos, pow2};
use vstd::prelude::*;

verus! {

/// What is missing of a finite percentage to one is `1 - p`, and no other number is
/// nearer to that.
pub proof fn law_inverted(p: Percentage, z: Double)
    requires
        p.0.finite(),
        !z.nan(),
    ensures
        ({
            let (r, rest) = (p.inverted().0, pow2(1074) - p.0.value());
            &&& !r.nan()
            &&& size(r.value() - rest) <= size(z.value() - rest)
            &&& r.finite() ==> near_sum(r.value(), pow2(1074) as int, -p.0.value())
        }),
{
    lemma_one();
    law_difference(Double { bits: ONE_BITS }, p.0, z);
}

/// `r` is `low + p * (high - low)`, by way of these results.
pub open spec fn is_between(r: int, p: int, low: int, high: int, way: int, part: int) -> bool {
    &&& near_sum(way, high, -low)
    &&& near_product(part, p, way)
    &&& near_sum(r, low, part)
}

/// A part of the way from `low` to `high` is found at `low + p * (high - low)`, but for
/// the rounding of each operation.
pub proof fn law_between(p: Double, low: Double, high: Double)
    requires
        p.finite(),
        low.finite(),
        high.finite(),
        high.minus(low).finite(),
        p.times(high.minus(low)).finite(),
    ensures
        !between(p, low, high).nan(),
        between(p, low, high).finite() ==> exists|way: int, part: int|
            is_between(
                between(p, low, high).value(),
                p.value(),
                low.value(),
                high.value(),
                way,
                part,
            ),
{
    let zero = Double { bits: 0 };
    let way = high.minus(low);
    let part = p.times(way);
    let r = between(p, low, high);
    lemma_magnitude_monotone(0, 0);
    law_difference(high, low, zero);
    law_product(p, way, zero);
    law_sum(low, part, zero);
    if r.finite() {
        assert(is_between(
            r.value(),
            p.value(),
            low.value(),
            high.value(),
            way.value(),
            part.value(),
        ));
    }
}

/// Past the middle, a curve is asked for twice the rest of `p` to one, and half of its
/// answer `y` is missing to one, by way of these results.
pub open spec fn comes_back(
    p: int,
    y: int,
    asked: int,
    given: int,
    rest: int,
    half: int,
) -> bool {
    let one = pow2(1074) as int;
    &&& near_sum(rest, one, -p)
    &&& near_product(asked, rest, 2 * one)
    &&& near_quotient(half, y, 2 * one)
    &&& near_sum(given, one, -half)
}

/// A curve that eases in and out goes, up to one half, over the curve that it is made
/// of at twice the pace, and half as far. From there on it is what that curve makes of
/// twice the rest to one, half as far, less than one.
pub proof fn law_in_out(p: Percentage, y: Percentage)
    requires
        p.0.in_unit(),
        y.0.in_unit(),
    ensures
        2 * p.0.value() <= pow2(1074) ==> near_product(
            in_out_input(p).0.value(),
            p.0.value(),
            2 * pow2(1074) as int,
        ) && near_quotient(in_out_output(p, y).0.value(), y.0.value(), 2 * pow2(1074) as int),
        2 * p.0.value() > pow2(1074) ==> exists|rest: int, half: int|
            comes_back(
                p.0.value(),
                y.0.value(),
                in_out_input(p).0.value(),
                in_out_output(p, y).0.value(),
                rest,
                half,
            ),
{
    let half = Double { bits: HALF_BITS };
    lemma_one();
    lemma_half();
    lemma_unit(p.0);
    assert(half.finite());
    if p.0.up_to(half) {
        assert(2 * p.0.value() <= pow2(1074));
        lemma_in_out_first(p, y);
    } else {
        assert(2 * p.0.value() > pow2(1074));
        lemma_in_out_second(p, y);
    }
}

/// The first half of a curve that eases in and out.
proof fn lemma_in_out_first(p: Percentage, y: Percentage)
    requires
        p.0.in_unit(),
        y.0.in_unit(),
        p.0.up_to(Double { bits: HALF_BITS }),
    ensures
        near_product(in_out_input(p).0.value(), p.0.value(), 2 * pow2(1074) as int),
        near_quotient(in_out_output(p, y).0.value(), y.0.value(), 2 * pow2(1074) as int),
{
    law_in_out_stays_in_range(p, y);
    lemma_near_twice(p.0);
    lemma_near_half(y.0);
}

/// The second half of a curve that eases in and out.
proof fn lemma_in_out_second(p: Percentage, y: Percentage)
    requires
        p.0.in_unit(),
        y.0.in_unit(),
        !p.0.up_to(Double { bits: HALF_BITS }),
    ensures
        ({
            let (asked, given) = (in_out_input(p).0.value(), in_out_output(p, y).0.value());
            exists|rest: int, half: int|
                comes_back(p.0.value(), y.0.value(), asked, given, rest, half)
        }),
{
    let two = Double { bits: TWO_BITS };
    let (rest, part) = (p.inverted(), Percentage(y.0.over(two)));
    law_in_out_stays_in_range(p, y);
    assert(in_out_input(p).0 == rest.0.times(two));
    assert(in_out_output(p, y) == part.inverted());
    lemma_near_rest(p);
    lemma_near_twice(rest.0);
    lemma_near_half(y.0);
    lemma_near_missing(part);
    let (a, b) = (rest.0.value(), part.0.value());
    let (asked, given) = (in_out_input(p).0.value(), in_out_output(p, y).0.value());
    assert(comes_back(p.0.value(), y.0.value(), asked, given, a, b));
}

/// Whether `rest` is what is missing of `p` to one.
pub open spec fn is_rest(rest: Percentage, p: Percentage) -> bool {
    near_sum(rest.0.value(), pow2(1074) as int, -p.0.value())
}

/// The rest of a percentage to one.
pub proof fn lemma_near_rest(p: Percentage)
    requires
        p.0.in_unit(),
    ensures
        p.inverted().0.in_unit(),
        is_rest(p.inverted(), p),
{
    law_invert_stays_in_range(p);
    lemma_unit(p.0);
    lemma_unit(p.inverted().0);
    law_inverted(p, p.0);
}

/// What is missing of a number to one.
proof fn lemma_near_missing(p: Percentage)
    requires
        p.0.finite(),
        p.inverted().0.in_unit(),
    ensures
        near_sum(p.inverted().0.value(), pow2(1074) as int, -p.0.value()),
{
    lemma_unit(p.inverted().0);
    law_inverted(p, p.0);
}

/// Twice a number between zero and one.
proof fn lemma_near_twice(x: Double)
    requires
        x.in_unit(),
        x.times(Double { bits: TWO_BITS }).in_unit(),
    ensures
        near_product(
            x.times(Double { bits: TWO_BITS }).value(),
            x.value(),
            2 * pow2(1074) as int,
        ),
{
    lemma_one();
    lemma_two();
    lemma_unit(x);
    lemma_unit(x.times(Double { bits: TWO_BITS }));
    law_product(x, Double { bits: TWO_BITS }, x);
}

/// Half of a number between zero and one.
proof fn lemma_near_half(x: Double)
    requires
        x.in_unit(),
    ensures
        x.over(Double { bits: TWO_BITS }).finite(),
        near_quotient(
            x.over(Double { bits: TWO_BITS }).value(),
            x.value(),
            2 * pow2(1074) as int,
        ),
{
    lemma_one();
    lemma_two();
    lemma_pow2_pos(1074);
    lemma_unit(x);
    lemma_halved(x);
    law_quotient(x, Double { bits: TWO_BITS }, x);
}

/// Powers of numbers that differ by little differ by little.
proof fn lemma_gap(a: int, b: int, c: int, m: nat)
    requires
        0 <= a <= c,
        0 <= b <= c,
    ensures
        c * size(pow(a, m) - pow(b, m)) <= m * (size(a - b) * pow(c, m)),
        0 <= pow(a, m) <= pow(c, m),
        0 <= pow(b, m) <= pow(c, m),
    decreases m,
{
    lemma_pow0(a);
    lemma_pow0(b);
    lemma_pow0(c);
    if m > 0 {
        let k = (m - 1) as nat;
        lemma_gap(a, b, c, k);
        lemma_pow_adds(a, 1, k);
        lemma_pow_adds(b, 1, k);
        lemma_pow_adds(c, 1, k);
        lemma_pow1(a);
        lemma_pow1(b);
        lemma_pow1(c);
        let (p, q, r) = (pow(a, k), pow(b, k), pow(c, k));
        let (d, e) = (size(a - b), size(p - q));
        assert(0 <= a * p <= c * r && 0 <= b * q <= c * r) by (nonlinear_arith)
            requires
                0 <= a <= c,
                0 <= b <= c,
                0 <= p <= r,
                0 <= q <= r,
        ;
        assert(a * p - b * q == a * (p - q) + (a - b) * q) by (nonlinear_arith);
        lemma_size_product(a, p - q);
        lemma_size_product(a - b, q);
        let (x, y) = (a * e, d * q);
        assert(size(a * p - b * q) <= x + y);
        lemma_scale_order(size(a * p - b * q), x + y, c);
        // The first part,
        let bound = k * (d * r);
        assert(c * x <= c * bound) by {
            assert(c * (a * e) == a * (c * e)) by (nonlinear_arith);
            lemma_scale_order(c * e, bound, a);
            assert(0 <= bound) by (nonlinear_arith)
                requires
                    bound == k * (d * r),
                    0 <= d,
                    0 <= r,
                    0 <= k,
            ;
            lemma_scale_order(a, c, bound);
        }
        // and the second.
        assert(c * y <= c * (d * r)) by {
            lemma_scale_order(q, r, d);
            lemma_scale_order(y, d * r, c);
        }
        let s = size(a * p - b * q);
        assert(c * s <= c * x + c * y) by {
            assert(c * (x + y) == c * x + c * y) by (nonlinear_arith);
            assert(c * s == s * c && c * (x + y) == (x + y) * c) by (nonlinear_arith);
        }
        assert(c * bound + c * (d * r) == m * (d * (c * r))) by (nonlinear_arith)
            requires
                bound == k * (d * r),
                m == k + 1,
        ;
    } else {
        assert(c * 0 == 0 && 0 * (size(a - b) * pow(c, 0)) == 0) by (nonlinear_arith);
    }
}

/// A product of numbers between zero and one, and how far it is off.
proof fn lemma_unit_product(x: Double, y: Double)
    requires
        x.in_unit(),
        y.in_unit(),
    ensures
        x.times(y).in_unit(),
        ({
            let w = pow2(1074) as int;
            FRACTIONS * size(x.times(y).value() * w - x.value() * y.value()) <= w * w
        }),
{
    let (f, w) = (FRACTIONS as int, pow2(1074) as int);
    let (a, b) = (x.value(), y.value());
    lemma_pow2_pos(1074);
    lemma_raised(x, y, 1);
    assert(raised(x, y, 1) == x.times(y)) by {
        assert(raised(x.times(y), y.times(y), 0) == x.times(y));
    }
    lemma_unit(x);
    lemma_unit(y);
    lemma_unit(x.times(y));
    lemma_magnitude_monotone(0, 0);
    law_product(x, y, Double { bits: 0 });
    vstd::arithmetic::power2::lemma2_to64_rest();
    lemma_pow2_adds(52, 1022);
    lemma_pow2_pos(1022);
    assert(f <= w) by (nonlinear_arith)
        requires
            w == pow2(52) * pow2(1022),
            pow2(52) == f,
            1 <= pow2(1022),
            0 < f,
    ;
    assert(0 <= a * b <= w * w && f * w <= w * w) by (nonlinear_arith)
        requires
            0 <= a <= w,
            0 <= b <= w,
            0 <= f <= w,
    ;
    let gap = size(x.times(y).value() * w - a * b);
    assert(2 * FRACTIONS * gap <= a * b + f * w);
    assert(f * gap <= w * w) by (nonlinear_arith)
        requires
            2 * f * gap <= a * b + f * w,
            a * b <= w * w,
            f * w <= w * w,
    ;
}

/// Repeated squaring gives the power, with an error that the squares add up.
proof fn lemma_raised_near(r: Double, x: Double, n: nat)
    requires
        r.in_unit(),
        x.in_unit(),
    ensures
        ({
            let w = pow2(1074) as int;
            FRACTIONS * size(
                raised(r, x, n).value() * pow(w, n) - r.value() * pow(x.value(), n),
            ) <= n * pow(w, n + 1)
        }),
    decreases n,
{
    let (f, w) = (FRACTIONS as int, pow2(1074) as int);
    let (s0, v) = (r.value(), x.value());
    lemma_pow2_pos(1074);
    if n == 0 {
        lemma_pow0(w);
        lemma_pow0(v);
        assert(raised(r, x, n) == r);
        assert(s0 * 1 - s0 * 1 == 0 && 0 * pow(w, 1) == 0) by (nonlinear_arith);
    } else {
        let m = n / 2;
        let square = x.times(x);
        let start = if n % 2 == 1 {
            r.times(x)
        } else {
            r
        };
        lemma_unit_product(x, x);
        lemma_unit_product(r, x);
        lemma_unit(r);
        lemma_unit(x);
        lemma_unit(square);
        lemma_unit(start);
        lemma_raised_near(start, square, m);
        let (y, s, out) = (square.value(), start.value(), raised(start, square, m).value());
        assert(raised(r, x, n) == raised(start, square, m));
        // The powers of the square.
        let (a, b, c) = (y * w, v * v, w * w);
        assert(0 <= a <= c && 0 <= b <= c && 0 < c) by (nonlinear_arith)
            requires
                a == y * w,
                b == v * v,
                c == w * w,
                0 <= y <= w,
                0 <= v <= w,
                0 < w,
        ;
        lemma_gap(a, b, c, m);
        lemma_pow_distributes(y, w, m);
        lemma_pow_distributes(v, v, m);
        lemma_pow_distributes(w, w, m);
        let (yy, vv, ww) = (pow(y, m), pow(v, m), pow(w, m));
        let (aa, bb, cc) = (pow(a, m), pow(b, m), pow(c, m));
        lemma_pow_positive(w, m);
        assert(f * size(aa - bb) <= m * cc) by {
            lemma_divided(f, c, size(aa - bb), m as int, size(a - b), cc);
        }
        lemma_pow_adds(w, m, m);
        lemma_pow_adds(v, m, m);
        lemma_pow_adds(w, m, 1);
        lemma_pow1(w);
        lemma_pow1(v);
        if n % 2 == 0 {
            assert(n == m + m);
            lemma_pow_adds(w, n, 1);
            lemma_even_step(f, out, s0, yy, ww, w, aa, bb, m as int);
            assert(f * size(out * pow(w, n) - s0 * pow(v, n)) <= n * pow(w, n + 1));
        } else {
            assert(n == m + m + 1);
            lemma_pow_adds(w, m + m, 1);
            lemma_pow_adds(v, m + m, 1);
            lemma_pow_adds(w, n, 1);
            lemma_odd_step(f, out, s0, s, v, yy, ww, w, aa, bb, m as int);
            assert(f * size(out * pow(w, n) - s0 * pow(v, n)) <= n * pow(w, n + 1));
        }
    }
}

/// A common factor can be taken out of a bound.
proof fn lemma_divided(f: int, c: int, gap: int, m: int, d: int, cc: int)
    requires
        0 < c,
        0 <= m,
        0 <= cc,
        0 <= f,
        f * d <= c,
        c * gap <= m * (d * cc),
    ensures
        f * gap <= m * cc,
{
    let bound = m * cc;
    assert(m * (d * cc) == d * bound) by (nonlinear_arith)
        requires
            bound == m * cc,
    ;
    assert(0 <= bound) by (nonlinear_arith)
        requires
            bound == m * cc,
            0 <= m,
            0 <= cc,
    ;
    lemma_scale_order(c * gap, d * bound, f);
    lemma_scale_order(f * d, c, bound);
    assert((c * gap) * f == c * (f * gap) && (d * bound) * f == (f * d) * bound)
        by (nonlinear_arith);
    let x = f * gap;
    assert(x <= bound) by (nonlinear_arith)
        requires
            c * x <= c * bound,
            0 < c,
    ;
}

/// The step of repeated squaring for an even exponent.
proof fn lemma_even_step(
    f: int,
    out: int,
    s: int,
    yy: int,
    ww: int,
    w: int,
    aa: int,
    bb: int,
    m: int,
)
    requires
        0 <= f,
        0 <= s <= w,
        0 < ww,
        0 <= m,
        aa == yy * ww,
        f * size(out * ww - s * yy) <= m * (ww * w),
        f * size(aa - bb) <= m * (ww * ww),
    ensures
        f * size(out * (ww * ww) - s * bb) <= (m + m) * ((ww * ww) * w),
{
    let (g, h) = (out * ww - s * yy, aa - bb);
    assert(out * (ww * ww) - s * bb == ww * g + s * h) by {
        let (t, u) = (out * ww, s * yy);
        assert(ww * (t - u) == ww * t - ww * u) by (nonlinear_arith);
        assert(ww * (out * ww) == out * (ww * ww)) by (nonlinear_arith);
        assert(ww * (s * yy) == s * (yy * ww)) by (nonlinear_arith);
        assert(s * (aa - bb) == s * aa - s * bb) by (nonlinear_arith);
    }
    lemma_size_product(ww, g);
    lemma_size_product(s, h);
    let total = size(ww * g + s * h);
    lemma_scale_order(total, ww * size(g) + s * size(h), f);
    lemma_term(f, ww, size(g), m * (ww * w), ww);
    lemma_term(f, s, size(h), m * (ww * ww), w);
    let (x, y) = (ww * size(g), s * size(h));
    assert((x + y) * f == f * x + f * y && total * f == f * total) by (nonlinear_arith);
    assert(ww * (m * (ww * w)) + w * (m * (ww * ww)) == (m + m) * ((ww * ww) * w)) by {
        assert(ww * (m * (ww * w)) == m * ((ww * ww) * w)) by (nonlinear_arith);
        assert(w * (m * (ww * ww)) == m * ((ww * ww) * w)) by (nonlinear_arith);
        let q = (ww * ww) * w;
        assert(m * q + m * q == (m + m) * q) by (nonlinear_arith);
    }
}

/// The step of repeated squaring for an odd exponent.
proof fn lemma_odd_step(
    f: int,
    out: int,
    r: int,
    s: int,
    v: int,
    yy: int,
    ww: int,
    w: int,
    aa: int,
    bb: int,
    m: int,
)
    requires
        0 <= f,
        0 < w,
        0 <= r <= w,
        0 <= v <= w,
        0 < ww,
        0 <= m,
        aa == yy * ww,
        0 <= aa <= ww * ww,
        f * size(out * ww - s * yy) <= m * (ww * w),
        f * size(aa - bb) <= m * (ww * ww),
        f * size(s * w - r * v) <= w * w,
    ensures
        f * size(out * ((ww * ww) * w) - r * (bb * v)) <= (m + m + 1) * (((ww * ww) * w) * w),
{
    let (g, h, e) = (out * ww - s * yy, aa - bb, s * w - r * v);
    let (j, k) = (w * ww, r * v);
    assert(0 <= j && 0 <= k <= w * w) by (nonlinear_arith)
        requires
            j == w * ww,
            k == r * v,
            0 < w,
            0 < ww,
            0 <= r <= w,
            0 <= v <= w,
    ;
    assert(out * ((ww * ww) * w) - r * (bb * v) == j * g + aa * e + k * h) by {
        let (t, u) = (out * ww, s * yy);
        assert(j * (t - u) == j * t - j * u) by (nonlinear_arith);
        assert((w * ww) * (out * ww) == out * ((ww * ww) * w)) by (nonlinear_arith);
        assert((w * ww) * (s * yy) == (s * w) * (yy * ww)) by (nonlinear_arith);
        assert(aa * e == (s * w) * aa - k * aa) by (nonlinear_arith)
            requires
                e == s * w - k,
        ;
        assert(k * h == k * aa - k * bb) by (nonlinear_arith)
            requires
                h == aa - bb,
        ;
        assert(k * bb == r * (bb * v)) by (nonlinear_arith)
            requires
                k == r * v,
        ;
    }
    lemma_size_product(j, g);
    lemma_size_product(aa, e);
    lemma_size_product(k, h);
    let (x, y, z) = (j * size(g), aa * size(e), k * size(h));
    let total = size(j * g + aa * e + k * h);
    lemma_scale_order(total, x + y + z, f);
    lemma_term(f, j, size(g), m * (ww * w), j);
    lemma_term(f, aa, size(e), w * w, ww * ww);
    lemma_term(f, k, size(h), m * (ww * ww), w * w);
    assert((x + y + z) * f == f * x + f * y + f * z && total * f == f * total) by (nonlinear_arith);
    let q = ((ww * ww) * w) * w;
    assert(j * (m * (ww * w)) == m * q) by (nonlinear_arith)
        requires
            j == w * ww,
            q == ((ww * ww) * w) * w,
    ;
    assert((ww * ww) * (w * w) == q) by (nonlinear_arith)
        requires
            q == ((ww * ww) * w) * w,
    ;
    assert((w * w) * (m * (ww * ww)) == m * q) by (nonlinear_arith)
        requires
            q == ((ww * ww) * w) * w,
    ;
    assert(m * q + q + m * q == (m + m + 1) * q) by (nonlinear_arith);
}

/// What a factor makes of a bound.
proof fn lemma_term(f: int, k: int, g: int, bound: int, limit: int)
    requires
        0 <= k <= limit,
        0 <= f,
        0 <= g,
        f * g <= bound,
    ensures
        f * (k * g) <= limit * bound,
{
    assert(0 <= f * g) by (nonlinear_arith)
        requires
            0 <= f,
            0 <= g,
    ;
    lemma_scale_order(f * g, bound, k);
    lemma_scale_order(k, limit, bound);
    assert((f * g) * k == f * (k * g) && bound * k == k * bound) by (nonlinear_arith);
}

/// The power of a percentage is the percentage times itself as often as the exponent
/// says, but for one part in `2^52` of the whole for each time.
pub proof fn law_powi(p: Percentage, n: nat)
    requires
        p.0.in_unit(),
    ensures
        ({
            let w = pow2(1074) as int;
            FRACTIONS * size(
                p.0.power(n as int).value() * pow(w, n) - w * pow(p.0.value(), n),
            ) <= n * pow(w, n + 1)
        }),
{
    lemma_one();
    lemma_pow2_pos(1074);
    lemma_raised_near(Double { bits: ONE_BITS }, p.0, n);
}

/// One times a number is the number.
proof fn lemma_once(x: Double)
    requires
        x.finite(),
    ensures
        (Double { bits: ONE_BITS }).times(x).finite(),
        (Double { bits: ONE_BITS }).times(x).value() == x.value(),
{
    let one = Double { bits: ONE_BITS };
    let (w, v) = (pow2(1074) as int, x.value());
    lemma_one();
    lemma_pow2_pos(1074);
    lemma_times(one, x);
    assert(w * v == v * w) by (nonlinear_arith);
    lemma_rounded_exact(x, w);
    lemma_finite_value(x);
    lemma_finite(one.times(x));
}

/// The first powers of any finite number: one, the number, its square and its cube,
/// each product rounded once.
pub proof fn law_first_powers(x: Double)
    requires
        x.finite(),
    ensures
        x.power(0) == (Double { bits: ONE_BITS }),
        x.power(1).equals(x),
        x.power(2).finite() ==> near_product(x.power(2).value(), x.value(), x.value()),
        x.power(2).finite() && x.power(3).finite() ==> near_product(
            x.power(3).value(),
            x.value(),
            x.power(2).value(),
        ),
{
    let (zero, one) = (Double { bits: 0 }, Double { bits: ONE_BITS });
    let (first, square) = (one.times(x), x.times(x));
    lemma_magnitude_monotone(0, 0);
    lemma_one();
    assert(x.power(0) == one);
    assert(raised(first, square, 0) == first);
    assert(x.power(1) == first);
    lemma_once(x);
    lemma_finite_value(x);
    assert(raised(one.times(square), square.times(square), 0) == one.times(square));
    assert(raised(one, square, 1) == one.times(square));
    assert(x.power(2) == one.times(square));
    law_product(x, x, zero);
    assert(raised(first.times(square), square.times(square), 0) == first.times(square));
    assert(raised(first, square, 1) == first.times(square));
    assert(x.power(3) == first.times(square));
    if x.power(2).finite() {
        lemma_infinite_square(square);
        lemma_once(square);
        law_product(first, square, zero);
    }
}

/// The third power of a percentage.
pub proof fn lemma_cube(p: Percentage)
    requires
        p.0.in_unit(),
    ensures
        exists|square: int|
            #[trigger] near_product(square, p.0.value(), p.0.value()) && near_product(
                p.0.power(3).value(),
                p.0.value(),
                square,
            ),
{
    law_powi_stays_in_range(p, 2);
    law_powi_stays_in_range(p, 3);
    lemma_unit(p.0);
    lemma_unit(p.0.power(2));
    lemma_unit(p.0.power(3));
    law_first_powers(p.0);
    assert(near_product(p.0.power(2).value(), p.0.value(), p.0.value()));
}

/// What is finite once was finite.
proof fn lemma_infinite_square(square: Double)
    requires
        !square.nan(),
        (Double { bits: ONE_BITS }).times(square).finite(),
    ensures
        square.finite(),
{
    lemma_one();
    if !square.finite() {
        lemma_signed(square.negative(), INFINITE as int);
    }
}

/// The power with an even exponent is that of the square with half the exponent.
pub proof fn law_powi_of_the_square(x: Double, n: nat)
    ensures
        x.power(2 * n as int) == x.times(x).power(n as int),
{
    if n > 0 {
        assert((2 * n) % 2 == 0 && (2 * n) / 2 == n);
    }
}

/// The power with a negative exponent is one over the power with the opposite one.
pub proof fn law_powi_reciprocal(x: Double, n: nat)
    requires
        0 < n,
        x.power(n as int).finite(),
        x.power(n as int).value() != 0,
    ensures
        !x.power(-n).nan(),
        x.power(-n).finite() ==> near_quotient(
            x.power(-n).value(),
            pow2(1074) as int,
            x.power(n as int).value(),
        ),
{
    let one = Double { bits: ONE_BITS };
    lemma_one();
    lemma_magnitude_monotone(0, 0);
    law_quotient(one, x.power(n as int), Double { bits: 0 });
}

} // verus!
