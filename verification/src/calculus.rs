//! Derivatives of functions of a real number.

use vstd::prelude::*;

verus! {

/// The absolute value.
pub open spec fn absolute(x: real) -> real {
    if x < 0real {
        -x
    } else {
        x
    }
}

/// How far `f` is, `h` beyond `x`, from the line through `x` with this slope.
pub open spec fn deviation(f: spec_fn(real) -> real, x: real, slope: real, h: real) -> real {
    f(x + h) - f(x) - slope * h
}

/// Whether `f`, up to `delta` from `x` on both sides, deviates from the line with
/// this slope by no more than `part` of the distance.
pub open spec fn hugs(
    f: spec_fn(real) -> real,
    x: real,
    slope: real,
    part: real,
    delta: real,
) -> bool {
    &&& 0real < delta
    &&& forall|h: real|
        absolute(h) < delta ==> absolute(#[trigger] deviation(f, x, slope, h)) <= part * absolute(h)
}

/// Whether there is such a `delta`.
pub open spec fn hugs_nearby(f: spec_fn(real) -> real, x: real, slope: real, part: real) -> bool {
    exists|delta: real| hugs(f, x, slope, part, delta)
}

/// Whether `slope` is the derivative of `f` at `x`: near `x`, `f` deviates from the
/// line with this slope by no more than any part of the distance.
pub open spec fn has_derivative(f: spec_fn(real) -> real, x: real, slope: real) -> bool {
    forall|part: real| 0real < part ==> #[trigger] hugs_nearby(f, x, slope, part)
}

/// Products of real numbers can be taken in any order.
pub proof fn lemma_order(x: real, y: real, z: real)
    ensures
        x * y == y * x,
        x * (y * z) == y * (x * z),
        (x * y) * z == x * (y * z),
{
    assert(x * y == y * x) by (nonlinear_arith);
    assert(x * (y * z) == y * (x * z)) by (nonlinear_arith);
    assert((x * y) * z == x * (y * z)) by (nonlinear_arith);
}

/// A product with a sum, and with a negative.
pub proof fn lemma_terms(x: real, y: real, z: real)
    ensures
        x * (y + z) == x * y + x * z,
        (y + z) * x == y * x + z * x,
        x * (-y) == -(x * y),
        (-y) * x == -(y * x),
{
    assert(x * (y + z) == x * y + x * z) by (nonlinear_arith);
    assert((y + z) * x == y * x + z * x) by (nonlinear_arith);
    assert(x * (-y) == -(x * y)) by (nonlinear_arith);
    assert((-y) * x == -(y * x)) by (nonlinear_arith);
}

/// A quotient is what gives the dividend again.
pub proof fn lemma_quotient(x: real, y: real)
    requires
        y != 0real,
    ensures
        (x / y) * y == x,
{
    assert((x / y) * y == x) by (nonlinear_arith)
        requires
            y != 0real,
    ;
}

/// A common factor can be taken out of an equation.
pub proof fn lemma_cancel(x: real, y: real, z: real)
    requires
        x * z == y * z,
        z != 0real,
    ensures
        x == y,
{
    assert(x == y) by (nonlinear_arith)
        requires
            x * z == y * z,
            z != 0real,
    ;
}

/// The product of two numbers that are not negative is not negative.
proof fn lemma_nonnegative(x: real, y: real)
    requires
        0real <= x,
        0real <= y,
    ensures
        0real <= x * y,
{
    assert(0real <= x * y) by (nonlinear_arith)
        requires
            0real <= x,
            0real <= y,
    ;
}

/// A factor that is not negative keeps the order.
proof fn lemma_larger(x: real, y: real, z: real)
    requires
        x <= y,
        0real <= z,
    ensures
        x * z <= y * z,
        z * x <= z * y,
{
    lemma_nonnegative(y - x, z);
    lemma_terms(z, y, -x);
    lemma_terms(z, x, 0real);
    lemma_order(z, x, 0real);
    lemma_order(z, y, 0real);
}

/// The absolute value of a product.
proof fn lemma_absolute(x: real, y: real)
    ensures
        absolute(x * y) == absolute(x) * absolute(y),
        0real <= absolute(x) * absolute(y),
{
    lemma_nonnegative(absolute(x), absolute(y));
    lemma_terms(x, y, 0real);
    lemma_terms(y, x, 0real);
    lemma_order(x, y, 0real);
    lemma_terms(-x, y, 0real);
}

/// The same function has the same derivative.
pub proof fn lemma_same(
    f: spec_fn(real) -> real,
    g: spec_fn(real) -> real,
    x: real,
    a: real,
    b: real,
)
    requires
        has_derivative(f, x, a),
        forall|u: real| #[trigger] g(u) == f(u),
        a == b,
    ensures
        has_derivative(g, x, b),
{
    assert forall|part: real| 0real < part implies #[trigger] hugs_nearby(g, x, b, part) by {
        assert(hugs_nearby(f, x, a, part));
        let delta = choose|delta: real| hugs(f, x, a, part, delta);
        assert forall|h: real| absolute(h) < delta implies absolute(
            #[trigger] deviation(g, x, b, h),
        ) <= part * absolute(h) by {
            assert(absolute(deviation(f, x, a, h)) <= part * absolute(h));
        }
        assert(hugs(g, x, b, part, delta));
    }
}

/// A line deviates from itself by nothing.
proof fn lemma_line(f: spec_fn(real) -> real, x: real, slope: real)
    requires
        forall|h: real| #[trigger] deviation(f, x, slope, h) == 0real,
    ensures
        has_derivative(f, x, slope),
{
    assert forall|part: real| 0real < part implies #[trigger] hugs_nearby(f, x, slope, part) by {
        assert forall|h: real| absolute(h) < 1real implies absolute(
            #[trigger] deviation(f, x, slope, h),
        ) <= part * absolute(h) by {
            lemma_nonnegative(part, absolute(h));
        }
        assert(hugs(f, x, slope, part, 1real));
    }
}

/// A constant does not change.
pub proof fn lemma_constant(c: real, x: real)
    ensures
        has_derivative(|u: real| c, x, 0real),
{
    lemma_line(|u: real| c, x, 0real);
}

/// A number changes as it does.
pub proof fn lemma_identity(x: real)
    ensures
        has_derivative(|u: real| u, x, 1real),
{
    lemma_line(|u: real| u, x, 1real);
}

/// The derivative of a sum is the sum of the derivatives.
pub proof fn lemma_sum(
    f: spec_fn(real) -> real,
    g: spec_fn(real) -> real,
    x: real,
    a: real,
    b: real,
)
    requires
        has_derivative(f, x, a),
        has_derivative(g, x, b),
    ensures
        has_derivative(|u: real| f(u) + g(u), x, a + b),
{
    let k = |u: real| f(u) + g(u);
    assert forall|part: real| 0real < part implies #[trigger] hugs_nearby(k, x, a + b, part) by {
        let half = part / 2real;
        assert(hugs_nearby(f, x, a, half));
        assert(hugs_nearby(g, x, b, half));
        let d = choose|d: real| hugs(f, x, a, half, d);
        let e = choose|e: real| hugs(g, x, b, half, e);
        let delta = if d < e {
            d
        } else {
            e
        };
        assert forall|h: real| absolute(h) < delta implies absolute(
            #[trigger] deviation(k, x, a + b, h),
        ) <= part * absolute(h) by {
            assert(absolute(deviation(f, x, a, h)) <= half * absolute(h));
            assert(absolute(deviation(g, x, b, h)) <= half * absolute(h));
            lemma_terms(h, a, b);
            lemma_terms(absolute(h), half, half);
        }
        assert(hugs(k, x, a + b, part, delta));
    }
}

/// What a product of two numbers changes by beyond its slope.
proof fn lemma_change(y: real, z: real, a: real, b: real, h: real, p: real, q: real)
    ensures
        (y + a * h + p) * (z + b * h + q) - y * z - (a * z + y * b) * h == p * z + y * q + (a * h
            + p) * (b * h + q),
{
    let (i, j) = (a * h + p, b * h + q);
    lemma_terms(y + i, z, j);
    lemma_terms(z, y, i);
    lemma_terms(j, y, i);
    lemma_terms(z, a * h, p);
    lemma_terms(y, b * h, q);
    lemma_terms(h, a * z, y * b);
    lemma_order(a, h, z);
    lemma_order(a, z, h);
    lemma_order(z, h, 0real);
    lemma_order(y, b, h);
}

/// A product of two small changes is smaller still.
proof fn lemma_small(i: real, j: real, m: real, n: real, s: real, e: real)
    requires
        absolute(i) <= m * s,
        absolute(j) <= n * s,
        0real <= s <= e,
        0real <= m,
        0real <= n,
    ensures
        absolute(i * j) <= (m * n) * (e * s),
{
    let (u, v) = (absolute(i), absolute(j));
    lemma_absolute(i, j);
    lemma_nonnegative(m, s);
    lemma_nonnegative(m, n);
    lemma_larger(u, m * s, v);
    lemma_larger(v, n * s, m * s);
    lemma_order(m, s, n * s);
    lemma_order(s, n, s);
    lemma_order(m, n, s * s);
    lemma_larger(s, e, s);
    lemma_larger(s * s, e * s, m * n);
}

/// The bound on what a product changes by beyond its slope.
proof fn lemma_bound(
    y: real,
    z: real,
    a: real,
    b: real,
    h: real,
    p: real,
    q: real,
    e: real,
    part: real,
)
    requires
        absolute(p) <= e * absolute(h),
        absolute(q) <= e * absolute(h),
        absolute(h) <= e,
        0real < e <= 1real,
        e * (absolute(y) + absolute(z) + (absolute(a) + 1real) * (absolute(b) + 1real)) <= part,
    ensures
        absolute(p * z + y * q + (a * h + p) * (b * h + q)) <= part * absolute(h),
{
    let s = absolute(h);
    let (m, n) = (absolute(a) + 1real, absolute(b) + 1real);
    let (i, j) = (a * h + p, b * h + q);
    lemma_larger(e, 1real, s);
    lemma_absolute(a, h);
    lemma_absolute(b, h);
    lemma_terms(s, absolute(a), 1real);
    lemma_terms(s, absolute(b), 1real);
    assert(absolute(i) <= m * s);
    assert(absolute(j) <= n * s);
    lemma_small(i, j, m, n, s, e);
    lemma_absolute(p, z);
    lemma_absolute(y, q);
    let t = e * s;
    lemma_larger(absolute(p), t, absolute(z));
    lemma_larger(absolute(q), t, absolute(y));
    lemma_order(t, absolute(z), 0real);
    let c = absolute(y) + absolute(z) + m * n;
    lemma_terms(t, absolute(y) + absolute(z), m * n);
    lemma_terms(t, absolute(y), absolute(z));
    lemma_order(absolute(y), t, 0real);
    assert(absolute(p * z + y * q + i * j) <= c * t);
    lemma_order(c, e, s);
    lemma_order(e, c, s);
    lemma_larger(e * c, part, s);
}

/// The derivative of a product.
pub proof fn lemma_product(
    f: spec_fn(real) -> real,
    g: spec_fn(real) -> real,
    x: real,
    a: real,
    b: real,
)
    requires
        has_derivative(f, x, a),
        has_derivative(g, x, b),
    ensures
        has_derivative(|u: real| f(u) * g(u), x, a * g(x) + f(x) * b),
{
    let k = |u: real| f(u) * g(u);
    let slope = a * g(x) + f(x) * b;
    let (m, n) = (absolute(a) + 1real, absolute(b) + 1real);
    let c = absolute(f(x)) + absolute(g(x)) + m * n;
    assert(1real <= c) by {
        lemma_larger(1real, m, n);
    }
    assert forall|part: real| 0real < part implies #[trigger] hugs_nearby(k, x, slope, part) by {
        let least = part / c;
        lemma_quotient(part, c);
        assert(0real < least) by {
            if least <= 0real {
                lemma_larger(least, 0real, c);
            }
        }
        let e = if least < 1real {
            least
        } else {
            1real
        };
        lemma_larger(e, least, c);
        assert(hugs_nearby(f, x, a, e));
        assert(hugs_nearby(g, x, b, e));
        let d1 = choose|d: real| hugs(f, x, a, e, d);
        let d2 = choose|d: real| hugs(g, x, b, e, d);
        let d = if d1 < d2 {
            d1
        } else {
            d2
        };
        let delta = if d < e {
            d
        } else {
            e
        };
        assert forall|h: real| absolute(h) < delta implies absolute(
            #[trigger] deviation(k, x, slope, h),
        ) <= part * absolute(h) by {
            let (p, q) = (deviation(f, x, a, h), deviation(g, x, b, h));
            assert(absolute(p) <= e * absolute(h));
            assert(absolute(q) <= e * absolute(h));
            lemma_bound(f(x), g(x), a, b, h, p, q, e, part);
            lemma_change(f(x), g(x), a, b, h, p, q);
            assert(f(x + h) == f(x) + a * h + p && g(x + h) == g(x) + b * h + q);
        }
        assert(hugs(k, x, slope, part, delta));
    }
}

} // verus!
