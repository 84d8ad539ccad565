//! Rounding to the nearest double.

use crate::double::{
    lemma_magnitude_monotone,
    lemma_magnitude_parts,
    lemma_magnitude_split,
    magnitude_value,
    FRACTIONS,
    INFINITE,
};
use vstd::arithmetic::power2::{lemma_pow2_adds, lemma_pow2_pos, lemma_pow2_unfold, pow2};
use vstd::prelude::*;

verus! {

/// How far the value of a magnitude is from `num / den`, times `den`.
pub open spec fn distance(magnitude: int, num: int, den: int) -> int {
    let d = magnitude_value(magnitude) * den - num;
    if d < 0 {
        -d
    } else {
        d
    }
}

/// Whether `magnitude` is that of the double nearest to `num / den`; of two
/// that are equally near, it is the even one.
pub open spec fn is_nearest(num: int, den: int, magnitude: int) -> bool {
    &&& 0 <= magnitude <= INFINITE
    &&& forall|k: int| #![trigger magnitude_value(k)]
        0 <= k <= INFINITE && k != magnitude ==> {
            ||| distance(magnitude, num, den) < distance(k, num, den)
            ||| distance(magnitude, num, den) == distance(k, num, den) && magnitude % 2 == 0
        }
}

/// The magnitude of the double nearest to `num / den`.
pub open spec fn nearest(num: int, den: int) -> int {
    choose|magnitude: int| is_nearest(num, den, magnitude)
}

/// There is only one nearest double.
pub proof fn lemma_nearest_unique(num: int, den: int, m: int)
    requires
        0 < den,
        is_nearest(num, den, m),
    ensures
        nearest(num, den) == m,
{
    let n = nearest(num, den);
    if m != n {
        let (low, high) = if m < n {
            (m, n)
        } else {
            (n, m)
        };
        let next = magnitude_value(low + 1);
        assert(low + 1 < high) by {
            assert(distance(m, num, den) == distance(n, num, den)) by {
                assert(magnitude_value(n) == magnitude_value(n));
                assert(magnitude_value(m) == magnitude_value(m));
            }
        }
        lemma_magnitude_monotone(low, low + 1);
        lemma_magnitude_monotone(low + 1, high);
        let (a, b, c) = (magnitude_value(low) * den, next * den, magnitude_value(high) * den);
        assert(a < b && b < c) by (nonlinear_arith)
            requires
                a == magnitude_value(low) * den,
                b == next * den,
                c == magnitude_value(high) * den,
                magnitude_value(low) < next,
                next < magnitude_value(high),
                0 < den,
        ;
        assert(distance(low + 1, num, den) < distance(low, num, den));
    }
}

/// Between two neighbours, the nearer one is the nearest of all.
proof fn lemma_between(num: int, den: int, m: int, up: bool)
    requires
        0 < den,
        0 <= m < INFINITE,
        magnitude_value(m) * den <= num < magnitude_value(m + 1) * den,
        up ==> (magnitude_value(m) + magnitude_value(m + 1)) * den < 2 * num || (
        magnitude_value(m) + magnitude_value(m + 1)) * den == 2 * num && m % 2 == 1,
        !up ==> 2 * num < (magnitude_value(m) + magnitude_value(m + 1)) * den || (
        magnitude_value(m) + magnitude_value(m + 1)) * den == 2 * num && m % 2 == 0,
    ensures
        is_nearest(
            num,
            den,
            if up {
                m + 1
            } else {
                m
            },
        ),
{
    let r = if up {
        m + 1
    } else {
        m
    };
    let (a, b) = (magnitude_value(m), magnitude_value(m + 1));
    assert((a + b) * den == a * den + b * den) by (nonlinear_arith);
    assert forall|k: int| #![trigger magnitude_value(k)]
        0 <= k <= INFINITE && k != r implies {
        ||| distance(r, num, den) < distance(k, num, den)
        ||| distance(r, num, den) == distance(k, num, den) && r % 2 == 0
    } by {
        let c = magnitude_value(k);
        if k < m {
            lemma_magnitude_monotone(k, m);
            assert(c * den < a * den) by (nonlinear_arith)
                requires
                    c < a,
                    0 < den,
            ;
        } else if k > m + 1 {
            lemma_magnitude_monotone(m + 1, k);
            assert(b * den < c * den) by (nonlinear_arith)
                requires
                    b < c,
                    0 < den,
            ;
        }
    }
}

/// Nothing is nearer to a number beyond all doubles than infinity.
proof fn lemma_beyond(num: int, den: int)
    requires
        0 < den,
        magnitude_value(INFINITE as int) * den <= num,
    ensures
        is_nearest(num, den, INFINITE as int),
{
    let a = magnitude_value(INFINITE as int);
    assert forall|k: int| #![trigger magnitude_value(k)]
        0 <= k <= INFINITE && k != INFINITE implies distance(INFINITE as int, num, den) < distance(
        k,
        num,
        den,
    ) by {
        let c = magnitude_value(k);
        lemma_magnitude_monotone(k, INFINITE as int);
        assert(c * den < a * den) by (nonlinear_arith)
            requires
                c < a,
                0 < den,
        ;
    }
}

/// Every number has a nearest double.
pub proof fn lemma_nearest(num: int, den: int)
    requires
        0 < den,
        0 <= num,
    ensures
        is_nearest(num, den, nearest(num, den)),
{
    lemma_magnitude_monotone(0, 0);
    assert(0 * den == 0) by (nonlinear_arith);
    lemma_nearest_from(num, den, 0);
}

proof fn lemma_nearest_from(num: int, den: int, m: int)
    requires
        0 < den,
        0 <= m <= INFINITE,
        magnitude_value(m) * den <= num,
    ensures
        is_nearest(num, den, nearest(num, den)),
    decreases INFINITE - m,
{
    if m == INFINITE {
        lemma_beyond(num, den);
        lemma_nearest_unique(num, den, m);
    } else if num < magnitude_value(m + 1) * den {
        let twice = (magnitude_value(m) + magnitude_value(m + 1)) * den;
        let up = twice < 2 * num || twice == 2 * num && m % 2 == 1;
        lemma_between(num, den, m, up);
        lemma_nearest_unique(
            num,
            den,
            if up {
                m + 1
            } else {
                m
            },
        );
    } else {
        lemma_nearest_from(num, den, m + 1);
    }
}

/// Rounding keeps the order.
pub proof fn lemma_nearest_monotone(a: int, b: int, den: int)
    requires
        0 < den,
        0 <= a <= b,
    ensures
        nearest(a, den) <= nearest(b, den),
{
    lemma_nearest(a, den);
    lemma_nearest(b, den);
    let (m, n) = (nearest(a, den), nearest(b, den));
    if n < m {
        lemma_magnitude_monotone(n, m);
        let (x, y) = (magnitude_value(n), magnitude_value(m));
        assert(x * den < y * den) by (nonlinear_arith)
            requires
                x < y,
                0 < den,
        ;
        assert(distance(m, a, den) <= distance(n, a, den));
        assert(distance(n, b, den) <= distance(m, b, den));
        assert(a == b);
    }
}

/// A number that is a double rounds to itself.
pub proof fn lemma_nearest_exact(m: int, den: int)
    requires
        0 < den,
        0 <= m <= INFINITE,
    ensures
        nearest(magnitude_value(m) * den, den) == m,
{
    let num = magnitude_value(m) * den;
    assert forall|k: int| #![trigger magnitude_value(k)]
        0 <= k <= INFINITE && k != m implies distance(m, num, den) < distance(k, num, den) by {
        if k < m {
            lemma_magnitude_monotone(k, m);
        } else {
            lemma_magnitude_monotone(m, k);
        }
        let (x, y) = (magnitude_value(k), magnitude_value(m));
        assert(x * den != y * den) by (nonlinear_arith)
            requires
                x != y,
                0 < den,
        ;
    }
    lemma_nearest_unique(num, den, m);
}

/// How far the nearest double is at most: by one part in `2^53`, or by half of
/// the smallest unit. Whole units are off by one part in `2^53` at most.
pub proof fn lemma_nearest_error(num: int, den: int)
    requires
        0 < den,
        0 <= num,
        nearest(num, den) < INFINITE,
    ensures
        2 * FRACTIONS * distance(nearest(num, den), num, den) <= num + FRACTIONS * den,
        den == 1 ==> 2 * FRACTIONS * distance(nearest(num, den), num, den) <= num,
{
    let n = nearest(num, den);
    let f = FRACTIONS as int;
    lemma_nearest(num, den);
    lemma_magnitude_monotone(0, n);
    let (q, t) = lemma_magnitude_split(n);
    let u = pow2(t) as int;
    let v = magnitude_value(n);
    lemma_pow2_pos(t);
    vstd::arithmetic::power2::lemma2_to64();
    if v * den <= num {
        let next = magnitude_value(n + 1);
        lemma_magnitude_parts(t as int, q + 1);
        if next * den <= num {
            lemma_nearest_monotone_from(n + 1, num, den);
        }
        assert(distance(n, num, den) <= distance(n + 1, num, den));
        assert(next * den == v * den + u * den) by (nonlinear_arith)
            requires
                next == (q + 1) * u,
                v == q * u,
        ;
        lemma_gap(v, u, num - v * den, num, den, q, t);
        assert(u * 1 == u);
    } else {
        assert(0 < n) by {
            if n == 0 {
                assert(0 * den == 0) by (nonlinear_arith);
            }
        }
        let before = magnitude_value(n - 1);
        lemma_magnitude_monotone(0, n - 1);
        if num <= before * den {
            lemma_nearest_monotone(num, before * den, den);
            lemma_nearest_exact(n - 1, den);
        }
        assert(distance(n, num, den) <= distance(n - 1, num, den));
        if t > 0 && q == f {
            let h = pow2((t - 1) as nat) as int;
            lemma_pow2_unfold(t);
            lemma_pow2_pos((t - 1) as nat);
            lemma_magnitude_parts(t - 1, 2 * f - 1);
            assert(n - 1 == (t - 1) * f + (2 * f - 1)) by (nonlinear_arith)
                requires
                    n == t * f + q,
                    q == f,
            ;
            assert(before * den == v * den - h * den && f * (h * den) <= before * den)
                by (nonlinear_arith)
                requires
                    before == (2 * f - 1) * h,
                    v == f * (2 * h),
                    0 < h,
                    1 <= f,
                    0 < den,
            ;
        } else {
            lemma_magnitude_parts(t as int, q - 1);
            assert(before * den == v * den - u * den && (f < q ==> f * (u * den) <= before * den))
                by (nonlinear_arith)
                requires
                    before == (q - 1) * u,
                    v == q * u,
                    0 < u,
                    0 < den,
            ;
            if t == 0 {
                assert(u * den == den) by (nonlinear_arith)
                    requires
                        u == 1,
                ;
            }
        }
    }
}

/// What is left below the next double is at most half of the gap to it.
proof fn lemma_gap(v: int, u: int, rest: int, num: int, den: int, q: int, t: nat)
    requires
        0 < den,
        0 < u,
        v == q * u,
        u == pow2(t),
        t == 0 || FRACTIONS <= q,
        0 <= rest,
        v * den <= num,
        0 <= num,
        2 * rest <= u * den,
        t == 0 ==> u == 1,
    ensures
        2 * FRACTIONS * rest <= num + FRACTIONS * den,
        den == 1 && rest < u ==> 2 * FRACTIONS * rest <= num,
{
    let f = FRACTIONS as int;
    assert(2 * f * rest <= f * (u * den)) by (nonlinear_arith)
        requires
            2 * rest <= u * den,
            0 < f,
    ;
    if t == 0 {
        assert(u * den == den) by (nonlinear_arith)
            requires
                u == 1,
        ;
        if rest < u {
            assert(2 * f * rest == 0) by (nonlinear_arith)
                requires
                    rest == 0,
            ;
        }
    } else {
        assert(f * (u * den) <= v * den) by (nonlinear_arith)
            requires
                v == q * u,
                f <= q,
                0 < u,
                0 < den,
        ;
    }
}

/// A number that is not below a double does not round to a smaller one.
proof fn lemma_nearest_monotone_from(m: int, num: int, den: int)
    requires
        0 < den,
        0 <= m <= INFINITE,
        magnitude_value(m) * den <= num,
    ensures
        m <= nearest(num, den),
{
    lemma_magnitude_monotone(0, m);
    assert(0 <= magnitude_value(m) * den) by (nonlinear_arith)
        requires
            0 <= magnitude_value(m),
            0 < den,
    ;
    lemma_nearest_monotone(magnitude_value(m) * den, num, den);
    lemma_nearest_exact(m, den);
}

/// The exponents that rounding works with are counted from here.
pub const BIAS: i32 = 1200;

/// `2^t`, with `t` counted from `-BIAS`.
pub open spec fn scale(t: int) -> int {
    pow2((t + BIAS) as nat) as int
}

/// Whether `q` units of `2^t` are what `num / den` is, rounded down, and
/// `inexact` says whether anything was lost.
pub open spec fn truncates(num: int, den: int, q: int, inexact: bool, t: int) -> bool {
    &&& q * (scale(t) * den) <= num * scale(0) < (q + 1) * (scale(t) * den)
    &&& inexact == (q * (scale(t) * den) != num * scale(0))
}

/// Whether `q` units of `2^t`, and half a unit if `half`, are what `num / den`
/// is, rounded down to half units, and `rest` says whether anything was lost.
spec fn halves(num: int, den: int, q: int, half: bool, rest: bool, t: int) -> bool {
    let h = 2 * q + if half {
        1int
    } else {
        0
    };
    &&& h * (scale(t) * den) <= 2 * (num * scale(0)) < (h + 1) * (scale(t) * den)
    &&& rest == (h * (scale(t) * den) != 2 * (num * scale(0)))
}

proof fn lemma_scale(t: int, den: int)
    requires
        0 <= t + BIAS,
        0 < den,
    ensures
        0 < scale(t) * den,
        scale(t + 1) * den == 2 * (scale(t) * den),
{
    lemma_pow2_pos((t + BIAS) as nat);
    lemma_pow2_unfold((t + 1 + BIAS) as nat);
    let p = scale(t);
    assert(0 < p * den && (2 * p) * den == 2 * (p * den)) by (nonlinear_arith)
        requires
            0 < p,
            0 < den,
    ;
}

/// Going over to units of twice the size.
proof fn lemma_halve(num: int, den: int, q: int, half: bool, rest: bool, t: int)
    requires
        0 <= t + BIAS,
        0 < den,
        0 <= q,
        halves(num, den, q, half, rest, t),
    ensures
        halves(num, den, q / 2, q % 2 == 1, rest || half, t + 1),
{
    lemma_scale(t, den);
    let u = scale(t) * den;
    let h = 2 * q + if half {
        1int
    } else {
        0
    };
    assert(q == 2 * (q / 2) + if q % 2 == 1 {
        1int
    } else {
        0
    });
    assert(q * (2 * u) == (2 * q) * u) by (nonlinear_arith);
    assert((q + 1) * (2 * u) == (2 * q) * u + 2 * u) by (nonlinear_arith);
    if half {
        assert(h * u == (2 * q) * u + u) by (nonlinear_arith)
            requires
                h == 2 * q + 1,
        ;
    }
    assert((h + 1) * u == h * u + u) by (nonlinear_arith);
}

/// The same for the first step, from whole units.
proof fn lemma_first_halve(num: int, den: int, q: int, inexact: bool, t: int)
    requires
        0 <= t + BIAS,
        0 < den,
        0 <= q,
        truncates(num, den, q, inexact, t),
    ensures
        halves(num, den, q / 2, q % 2 == 1, inexact, t + 1),
{
    lemma_scale(t, den);
    let u = scale(t) * den;
    assert(q == 2 * (q / 2) + if q % 2 == 1 {
        1int
    } else {
        0
    });
    assert(q * (2 * u) == 2 * (q * u)) by (nonlinear_arith);
    assert((q + 1) * (2 * u) == 2 * ((q + 1) * u)) by (nonlinear_arith);
}

/// Going over to units of half the size, where nothing was lost.
proof fn lemma_double(num: int, den: int, q: int, t: int)
    requires
        0 < t + BIAS,
        0 < den,
        0 <= q,
        halves(num, den, q, false, false, t),
    ensures
        halves(num, den, 2 * q, false, false, t - 1),
{
    lemma_scale(t - 1, den);
    let u = scale(t - 1) * den;
    assert((2 * (2 * q)) * u == (2 * q) * (2 * u)) by (nonlinear_arith);
    assert((2 * (2 * q) + 1) * u == (2 * (2 * q)) * u + u) by (nonlinear_arith);
}

/// The same, with the common factor taken out.
proof fn lemma_unscale(num: int, den: int, q: int, half: bool, rest: bool, t: int)
    requires
        0 <= t,
        0 < den,
        0 <= q,
        halves(num, den, q, half, rest, t),
    ensures
        plain_halves(num, den, q, half, rest, t),
{
    let s = scale(0);
    let p = pow2(t as nat) as int;
    lemma_pow2_adds(t as nat, BIAS as nat);
    lemma_pow2_pos(BIAS as nat);
    let h = 2 * q + if half {
        1int
    } else {
        0
    };
    assert(h * ((p * s) * den) == (h * (p * den)) * s) by (nonlinear_arith);
    assert((h + 1) * ((p * s) * den) == ((h + 1) * (p * den)) * s) by (nonlinear_arith);
    assert(2 * (num * s) == (2 * num) * s) by (nonlinear_arith);
    let (a, b, c) = (h * (p * den), 2 * num, (h + 1) * (p * den));
    assert(a <= b && b < c && (a == b <==> a * s == b * s)) by (nonlinear_arith)
        requires
            0 < s,
            a * s <= b * s,
            b * s < c * s,
    ;
}

/// What `halves` says, without a common factor.
spec fn plain_halves(num: int, den: int, q: int, half: bool, rest: bool, t: int) -> bool {
    let h = 2 * q + if half {
        1int
    } else {
        0
    };
    let unit = pow2(t as nat) * den;
    &&& h * unit <= 2 * num < (h + 1) * unit
    &&& rest == (h * unit != 2 * num)
}

/// No unit of any size is nothing at all.
proof fn lemma_zero(num: int, den: int, t: int)
    requires
        0 < den,
        plain_halves(num, den, 0, false, false, t),
    ensures
        plain_halves(num, den, 0, false, false, 0),
{
    lemma_pow2_pos(0);
    let (u, v) = (pow2(t as nat) * den, pow2(0) * den);
    assert(0 * u == 0 && 0 * v == 0) by (nonlinear_arith);
    assert(0 < 1 * v) by (nonlinear_arith)
        requires
            v == pow2(0) * den,
            0 < pow2(0),
            0 < den,
    ;
}

/// A number of so many units is beyond all doubles.
proof fn lemma_overflow(num: int, den: int, q: int, half: bool, rest: bool, t: int)
    requires
        2046 <= t,
        0 < den,
        FRACTIONS <= q,
        plain_halves(num, den, q, half, rest, t),
    ensures
        is_nearest(num, den, INFINITE as int),
{
    let f = FRACTIONS as int;
    lemma_magnitude_parts(2046, f);
    assert(2046 * FRACTIONS + f == INFINITE);
    lemma_pow2_adds(2046, (t - 2046) as nat);
    lemma_pow2_pos((t - 2046) as nat);
    lemma_pow2_pos(2046);
    let (a, b, c) = (pow2(2046) as int, pow2((t - 2046) as nat) as int, pow2(t as nat) as int);
    assert(f * a * den <= q * (c * den)) by (nonlinear_arith)
        requires
            0 < den,
            0 < a,
            0 < b,
            c == a * b,
            0 < f <= q,
    ;
    let unit = c * den;
    assert(0 < unit) by (nonlinear_arith)
        requires
            0 < den,
            0 < a,
            0 < b,
            c == a * b,
            unit == c * den,
    ;
    assert((2 * q) * unit == 2 * (q * unit)) by (nonlinear_arith);
    assert((2 * q + 1) * unit == (2 * q) * unit + unit) by (nonlinear_arith);
    lemma_beyond(num, den);
}

/// Which of two neighbours the half and the rest tell to choose.
proof fn lemma_choice(num: int, den: int, q: int, half: bool, rest: bool, t: int)
    requires
        0 <= t < 2046,
        0 < den,
        0 <= q < 2 * FRACTIONS,
        t == 0 || FRACTIONS <= q,
        plain_halves(num, den, q, half, rest, t),
    ensures
        ({
            let m = t * FRACTIONS + q;
            is_nearest(
                num,
                den,
                if half && (rest || q % 2 == 1) {
                    m + 1
                } else {
                    m
                },
            )
        }),
{
    let m = t * FRACTIONS + q;
    let p = pow2(t as nat) as int;
    lemma_pow2_pos(t as nat);
    lemma_magnitude_parts(t, q);
    lemma_magnitude_parts(t, q + 1);
    let unit = p * den;
    assert(0 < unit) by (nonlinear_arith)
        requires
            0 < den,
            0 < p,
            unit == p * den,
    ;
    assert((q * p) * den == q * unit) by (nonlinear_arith)
        requires
            unit == p * den,
    ;
    assert(((q + 1) * p) * den == q * unit + unit) by (nonlinear_arith)
        requires
            unit == p * den,
    ;
    assert((q * p + (q + 1) * p) * den == 2 * (q * unit) + unit) by (nonlinear_arith)
        requires
            unit == p * den,
    ;
    assert((2 * q) * unit == 2 * (q * unit)) by (nonlinear_arith);
    assert((2 * q + 1) * unit == 2 * (q * unit) + unit) by (nonlinear_arith);
    assert((2 * q + 2) * unit == 2 * (q * unit) + 2 * unit) by (nonlinear_arith);
    assert(m % 2 == q % 2) by (nonlinear_arith)
        requires
            m == t * 0x10_0000_0000_0000 + q,
    ;
    assert(m + 1 <= INFINITE);
    lemma_between(num, den, m, half && (rest || q % 2 == 1));
}

/// The magnitude of the double nearest to a positive number that `q` units of
/// `2^t` truncate. Where something was lost, `q` has two more bits than a
/// double.
pub(crate) fn round(
    q: u128,
    inexact: bool,
    t: i32,
    Ghost(num): Ghost<int>,
    Ghost(den): Ghost<int>,
) -> (r: u64)
    requires
        0 < den,
        -BIAS <= t <= 4000,
        truncates(num, den, q as int, inexact, t as int),
        inexact ==> 4 * FRACTIONS <= q,
    ensures
        r == nearest(num, den),
        r <= INFINITE,
        is_nearest(num, den, r as int),
{
    let mut q: u128 = q;
    let mut half = false;
    let mut rest = inexact;
    let mut t: i32 = t;
    let two: u128 = 2;
    let least: u128 = FRACTIONS as u128;
    if inexact {
        proof {
            lemma_first_halve(num, den, q as int, inexact, t as int);
        }
        half = q % two == 1;
        q = q / two;
        t = t + 1;
    } else {
        proof {
            lemma_scale(t as int, den);
            let u = scale(t as int) * den;
            assert((2 * q) * u == 2 * (q * u)) by (nonlinear_arith);
            assert((2 * q + 1) * u == (2 * q) * u + u) by (nonlinear_arith);
        }
    }
    while (q >= two * least && t < 2046) || t < 0
        invariant
            0 < den,
            two == 2,
            least == FRACTIONS,
            -BIAS <= t <= 4001,
            halves(num, den, q as int, half, rest, t as int),
            (half || rest) ==> least <= q || t <= 0,
        decreases q + if t < 0 {
                -t
            } else {
                0
            },
    {
        proof {
            lemma_halve(num, den, q as int, half, rest, t as int);
        }
        rest = rest || half;
        half = q % two == 1;
        q = q / two;
        t = t + 1;
    }
    while q < least && t > 0 && q > 0
        invariant
            0 < den,
            two == 2,
            least == FRACTIONS,
            0 <= t <= 4001,
            q >= two * least ==> t >= 2046,
            halves(num, den, q as int, half, rest, t as int),
            (half || rest) ==> least <= q || t <= 0,
        decreases t,
    {
        proof {
            lemma_double(num, den, q as int, t as int);
        }
        q = q * two;
        t = t - 1;
    }
    proof {
        lemma_unscale(num, den, q as int, half, rest, t as int);
    }
    if q == 0 && t > 0 {
        proof {
            lemma_zero(num, den, t as int);
            lemma_choice(num, den, 0, false, false, 0);
            lemma_nearest_unique(num, den, 0);
        }
        return 0;
    }
    if t >= 2046 {
        proof {
            lemma_overflow(num, den, q as int, half, rest, t as int);
            lemma_nearest_unique(num, den, INFINITE as int);
        }
        return INFINITE;
    }
    let magnitude: u64 = t as u64 * FRACTIONS + q as u64;
    let up = half && (rest || q % two == 1);
    proof {
        lemma_choice(num, den, q as int, half, rest, t as int);
        lemma_nearest_unique(
            num,
            den,
            if up {
                magnitude + 1
            } else {
                magnitude as int
            },
        );
    }
    if up {
        magnitude + 1
    } else {
        magnitude
    }
}

} // verus!
