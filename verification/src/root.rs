//! The square root of a double, rounded to the nearest double.

use crate::arithmetic::{normalize, parts, shift_left, signed, NAN_BITS};
use crate::double::{
    lemma_magnitude_monotone,
    lemma_magnitude_parts,
    lemma_magnitude_split,
    magnitude_value,
    Double,
    FRACTIONS,
    INFINITE,
    SIGN,
};
use crate::rounding::{distance, is_nearest, round, truncates, BIAS};
use vstd::arithmetic::power2::{lemma_pow2_adds, lemma_pow2_pos, lemma_pow2_unfold, pow2};
use vstd::prelude::*;

verus! {

/// Whether `magnitude` is that of the double nearest to the square root of
/// `square`: the root is not beyond the middle to any other double. Of two that
/// are equally near, it is the even one.
pub open spec fn is_nearest_root(square: int, magnitude: int) -> bool {
    &&& 0 <= magnitude <= INFINITE
    &&& forall|k: int| #![trigger magnitude_value(k)]
        0 <= k <= INFINITE && k != magnitude ==> {
            let twice = magnitude_value(k) + magnitude_value(magnitude);
            ||| k < magnitude && twice * twice < 4 * square
            ||| k > magnitude && 4 * square < twice * twice
            ||| twice * twice == 4 * square && magnitude % 2 == 0
        }
}

/// The magnitude of the double nearest to the square root of `square`.
pub open spec fn nearest_root(square: int) -> int {
    choose|magnitude: int| is_nearest_root(square, magnitude)
}

impl Double {
    /// The double nearest to the square root. The root of a zero is that zero,
    /// and other negative numbers have none.
    pub open spec fn root(self) -> Double {
        if self.is_zero() {
            self
        } else if self.nan() || self.negative() {
            Double { bits: NAN_BITS }
        } else if self.infinite() {
            self
        } else {
            signed(false, nearest_root(self.value() * pow2(1074)))
        }
    }
}

impl Double {
    /// The square root.
    pub fn sqrt(self) -> (r: Double)
        ensures
            r == self.root(),
    {
        let x: u64 = self.abs().bits;
        if x == 0 {
            return self;
        }
        if x > INFINITE || self.bits >= SIGN {
            return Double { bits: NAN_BITS };
        }
        if x == INFINITE {
            return self;
        }
        let (s1, e1) = parts(x);
        let (s, j) = normalize(s1);
        let c: u32 = if (e1 - j as i32) % 2 == 0 {
            72
        } else {
            73
        };
        proof {
            lemma_radicand(s as int, c as nat);
        }
        let n: u128 = shift_left(s as u128, c);
        let q: u64 = integer_root(n);
        let lost = q as u128 * q as u128 != n;
        let t: i32 = (e1 - j as i32 + 1074 - c as i32) / 2;
        let ghost num = (2 * q + if lost {
            1int
        } else {
            0
        }) * pow2(t as nat);
        proof {
            lemma_many_bits(n as int, q as int);
            lemma_half_units(q as int, lost, t as nat);
        }
        let magnitude: u64 = round(q as u128, lost, t, Ghost(num), Ghost(2));
        proof {
            lemma_root_choice(n as int, q as int, t as nat, magnitude as int);
            lemma_radicand_value(s1 as int, e1 as nat, j as nat, c as nat, t as nat);
            assert(self.value() == magnitude_value(x as int));
            lemma_root_unique(n * (pow2(t as nat) * pow2(t as nat)), magnitude as int);
        }
        Double { bits: magnitude }
    }
}

/// A normal number, shifted by that many bits, fits, and is large.
proof fn lemma_radicand(s: int, c: nat)
    requires
        FRACTIONS <= s < 2 * FRACTIONS,
        c == 72 || c == 73,
    ensures
        0x1000_0000_0000_0000_0000_0000_0000_0000 <= s * pow2(c)
            <= 0x4000_0000_0000_0000_0000_0000_0000_0000,
{
    lemma_pow2_adds(64, 8);
    lemma_pow2_adds(64, 9);
    vstd::arithmetic::power2::lemma2_to64();
    vstd::arithmetic::power2::lemma2_to64_rest();
    let (n, p) = (s * pow2(c), pow2(c) as int);
    assert(0x10_0000_0000_0000 * 0x100_0000_0000_0000_0000 <= n <= 0x20_0000_0000_0000
        * 0x200_0000_0000_0000_0000) by (nonlinear_arith)
        requires
            n == s * p,
            p == 0x100_0000_0000_0000_0000 || p == 0x200_0000_0000_0000_0000,
            0x10_0000_0000_0000 <= s < 0x20_0000_0000_0000,
    ;
}

/// The root of a large number is large.
proof fn lemma_many_bits(n: int, q: int)
    requires
        0x1000_0000_0000_0000_0000_0000_0000_0000 <= n,
        0 <= q,
        n < (q + 1) * (q + 1),
    ensures
        0x4000_0000_0000_0000 <= q,
{
    if q < 0x4000_0000_0000_0000 {
        assert((q + 1) * (q + 1) <= 0x4000_0000_0000_0000 * 0x4000_0000_0000_0000)
            by (nonlinear_arith)
            requires
                0 <= q < 0x4000_0000_0000_0000,
        ;
    }
}

/// `q` units truncate themselves, and half a unit more.
proof fn lemma_half_units(q: int, lost: bool, t: nat)
    requires
        0 <= q,
    ensures
        truncates(
            (2 * q + if lost {
                1int
            } else {
                0
            }) * pow2(t),
            2,
            q,
            lost,
            t as int,
        ),
{
    lemma_pow2_adds(t, BIAS as nat);
    lemma_pow2_pos(t + BIAS as nat);
    let (p, g, u) = (pow2(t) as int, pow2(BIAS as nat) as int, pow2(t + BIAS as nat) as int);
    let h = 2 * q + if lost {
        1int
    } else {
        0
    };
    assert((h * p) * g == h * u) by (nonlinear_arith)
        requires
            u == p * g,
    ;
    assert(q * (u * 2) == (2 * q) * u && (q + 1) * (u * 2) == (2 * q) * u + 2 * u && (2 * q + 1)
        * u == (2 * q) * u + u) by (nonlinear_arith);
}

/// The radicand in units of its root.
proof fn lemma_radicand_value(s: int, e: nat, j: nat, c: nat, t: nat)
    requires
        j + c <= e + 1074,
        e + 1074 == j + c + 2 * t,
    ensures
        ((s * pow2(j)) * pow2(c)) * (pow2(t) * pow2(t)) == (s * pow2(e)) * pow2(1074),
{
    lemma_pow2_adds(e, 1074);
    lemma_pow2_adds(t, t);
    lemma_pow2_adds(j, c);
    lemma_pow2_adds(j + c, t + t);
    let (a, b, d, w) = (pow2(j) as int, pow2(c) as int, pow2(t) as int, pow2(e) as int);
    let z = pow2(1074) as int;
    assert(((s * a) * b) * (d * d) == (s * w) * z) by (nonlinear_arith)
        requires
            (a * b) * (d * d) == w * z,
    ;
}

/// There is only one nearest root.
proof fn lemma_root_unique(square: int, m: int)
    requires
        0 <= square,
        is_nearest_root(square, m),
    ensures
        nearest_root(square) == m,
{
    let n = nearest_root(square);
    if m != n {
        let (low, high) = if m < n {
            (m, n)
        } else {
            (n, m)
        };
        let (a, b, c) = (
            magnitude_value(low),
            magnitude_value(low + 1),
            magnitude_value(high),
        );
        lemma_magnitude_monotone(0, low);
        lemma_magnitude_monotone(low, low + 1);
        lemma_magnitude_monotone(low + 1, high);
        assert((a + c) * (a + c) == 4 * square && low + 1 < high);
        assert((a + b) * (a + b) < (a + c) * (a + c)) by (nonlinear_arith)
            requires
                0 <= a < b < c,
        ;
    }
}

/// Every number has a nearest root.
pub proof fn lemma_nearest_root(square: int)
    requires
        0 <= square,
    ensures
        is_nearest_root(square, nearest_root(square)),
{
    lemma_magnitude_monotone(0, 0);
    lemma_nearest_root_from(square, 0);
}

proof fn lemma_nearest_root_from(square: int, m: int)
    requires
        0 <= square,
        0 <= m <= INFINITE,
        magnitude_value(m) * magnitude_value(m) <= square,
    ensures
        is_nearest_root(square, nearest_root(square)),
    decreases INFINITE - m,
{
    let (a, b) = (magnitude_value(m), magnitude_value(m + 1));
    lemma_magnitude_monotone(0, m);
    lemma_magnitude_monotone(m, m + 1);
    if m == INFINITE || square < b * b {
        let middle = (a + b) * (a + b);
        let up = m < INFINITE && (middle < 4 * square || middle == 4 * square && m % 2 == 1);
        let r = if up {
            m + 1
        } else {
            m
        };
        assert forall|k: int| #![trigger magnitude_value(k)]
            0 <= k <= INFINITE && k != r implies {
            let twice = magnitude_value(k) + magnitude_value(r);
            ||| k < r && twice * twice < 4 * square
            ||| k > r && 4 * square < twice * twice
            ||| twice * twice == 4 * square && r % 2 == 0
        } by {
            let twice = magnitude_value(k) + magnitude_value(r);
            lemma_magnitude_monotone(0, k);
            if k < m {
                lemma_magnitude_monotone(k, m);
                lemma_squares(twice, a + b);
                lemma_squares(twice, 2 * a);
            } else if k > m + 1 {
                lemma_magnitude_monotone(m + 1, k);
                lemma_squares(a + b, twice);
                lemma_squares(2 * b, twice);
            }
            assert((2 * a) * (2 * a) == 4 * (a * a) && (2 * b) * (2 * b) == 4 * (b * b))
                by (nonlinear_arith);
        }
        lemma_root_unique(square, r);
    } else {
        lemma_nearest_root_from(square, m + 1);
    }
}

/// The root of `n`, rounded down.
fn integer_root(n: u128) -> (r: u64)
    ensures
        r * r <= n < (r + 1) * (r + 1),
{
    let mut low: u128 = 0;
    let mut high: u128 = 0x1_0000_0000_0000_0000;
    proof {
        assert(0x1_0000_0000_0000_0000int * 0x1_0000_0000_0000_0000int > n) by (nonlinear_arith)
            requires
                n <= u128::MAX,
        ;
    }
    while low + 1 < high
        invariant
            low < high <= 0x1_0000_0000_0000_0000,
            low * low <= n < high * high,
        decreases high - low,
    {
        let middle: u128 = low + (high - low) / 2;
        proof {
            assert(middle * middle <= 0xffff_ffff_ffff_ffffint * 0xffff_ffff_ffff_ffffint)
                by (nonlinear_arith)
                requires
                    0 <= middle <= 0xffff_ffff_ffff_ffff,
            ;
        }
        if middle * middle <= n {
            low = middle;
        } else {
            high = middle;
        }
    }
    low as u64
}

/// A double that is large enough is a multiple of a power of two.
proof fn lemma_multiple(k: int, x: nat)
    requires
        0 <= k <= INFINITE,
        2 * FRACTIONS * pow2(x) <= magnitude_value(k),
    ensures
        magnitude_value(k) % (pow2(x) as int) == 0,
{
    let (s, e) = lemma_magnitude_split(k);
    lemma_pow2_pos(x);
    lemma_pow2_pos(e);
    if e < x {
        lemma_pow2_adds(e, (x - e) as nat);
        lemma_pow2_pos((x - e) as nat);
        let (p, q, r) = (pow2(e) as int, pow2((x - e) as nat) as int, pow2(x) as int);
        assert(s * p < 2 * FRACTIONS * r) by (nonlinear_arith)
            requires
                0 <= s < 2 * FRACTIONS,
                0 < p,
                0 < q,
                r == p * q,
        ;
        assert(false);
    }
    lemma_pow2_adds(x, (e - x) as nat);
    let (p, q) = (pow2(x) as int, pow2((e - x) as nat) as int);
    assert(s * (p * q) == (s * q) * p) by (nonlinear_arith);
    vstd::arithmetic::div_mod::lemma_mod_multiples_basic(s * q, p);
}

/// Of two doubles, the one that is nearest to `num / 2` is on the side of the
/// middle where `num / 2` is.
proof fn lemma_middle(num: int, m: int, k: int)
    requires
        is_nearest(num, 2, m),
        0 <= k <= INFINITE,
        k != m,
    ensures
        ({
            let twice = magnitude_value(k) + magnitude_value(m);
            &&& k < m ==> twice <= num
            &&& m < k ==> num <= twice
            &&& twice == num ==> m % 2 == 0
        }),
{
    if k < m {
        lemma_magnitude_monotone(k, m);
    } else {
        lemma_magnitude_monotone(m, k);
    }
    assert(distance(m, num, 2) <= distance(k, num, 2));
}

/// Multiples of `2u` below an odd multiple of `u` are below the even one before
/// it, and those above it are above the even one after it.
proof fn lemma_even_multiple(w: int, q: int, u: int)
    requires
        0 < u,
        w % (2 * u) == 0,
    ensures
        w <= (2 * q + 1) * u ==> w <= (2 * q) * u,
        (2 * q + 1) * u <= w ==> (2 * q + 2) * u <= w,
{
    let d = w / (2 * u);
    vstd::arithmetic::div_mod::lemma_fundamental_div_mod(w, 2 * u);
    assert(w == (2 * d) * u) by (nonlinear_arith)
        requires
            w == (2 * u) * d,
    ;
    assert((2 * d) * u <= (2 * q + 1) * u ==> 2 * d <= 2 * q + 1) by (nonlinear_arith)
        requires
            0 < u,
    ;
    assert((2 * q + 1) * u <= (2 * d) * u ==> 2 * q + 1 <= 2 * d) by (nonlinear_arith)
        requires
            0 < u,
    ;
    assert(d <= q ==> (2 * d) * u <= (2 * q) * u) by (nonlinear_arith)
        requires
            0 < u,
    ;
    assert(q + 1 <= d ==> (2 * q + 2) * u <= (2 * d) * u) by (nonlinear_arith)
        requires
            0 < u,
    ;
}

/// Squares of numbers that are not negative compare as the numbers do.
proof fn lemma_squares(x: int, y: int)
    requires
        0 <= x,
        0 <= y,
    ensures
        x <= y <==> x * x <= y * y,
        x < y <==> x * x < y * y,
        x == y <==> x * x == y * y,
{
    assert((x <= y ==> x * x <= y * y) && (x < y ==> x * x < y * y)) by (nonlinear_arith)
        requires
            0 <= x,
            0 <= y,
    ;
    assert((y < x ==> y * y < x * x)) by (nonlinear_arith)
        requires
            0 <= x,
            0 <= y,
    ;
}

/// The doubles around a root of so many bits are even multiples of its unit.
proof fn lemma_around(num: int, q: int, t: nat, m: int)
    requires
        0x4000_0000_0000_0000 <= q,
        2 * q * pow2(t) <= num,
        t <= 2000,
        is_nearest(num, 2, m),
    ensures
        0 < m,
        magnitude_value(m - 1) % (2 * pow2(t) as int) == 0,
        magnitude_value(m) % (2 * pow2(t) as int) == 0,
        m < INFINITE ==> magnitude_value(m + 1) % (2 * pow2(t) as int) == 0,
{
    let f = FRACTIONS as int;
    let least = (t + 10) * f + f;
    lemma_magnitude_parts((t + 10) as int, f);
    lemma_magnitude_parts((t + 9) as int, 2 * f - 1);
    lemma_pow2_adds(t, 10);
    lemma_pow2_adds(t, 9);
    lemma_pow2_unfold(t + 1);
    lemma_pow2_pos(t);
    vstd::arithmetic::power2::lemma2_to64();
    let u = pow2(t) as int;
    assert(least - 1 == (t + 9) * f + (2 * f - 1)) by (nonlinear_arith)
        requires
            least == (t + 10) * f + f,
    ;
    assert(0 <= least <= INFINITE) by (nonlinear_arith)
        requires
            least == (t + 10) * f + f,
            f == 0x10_0000_0000_0000,
            0 <= t <= 2000,
    ;
    assert(2 * magnitude_value(least) <= num) by (nonlinear_arith)
        requires
            magnitude_value(least) == f * (u * 1024),
            f == 0x10_0000_0000_0000,
            0x4000_0000_0000_0000 <= q,
            2 * q * u <= num,
            0 < u,
    ;
    if m < least {
        lemma_magnitude_monotone(m, least);
        lemma_middle(num, m, least);
        assert(false);
    }
    assert(2 * FRACTIONS * pow2(t + 1) <= magnitude_value(least - 1)) by (nonlinear_arith)
        requires
            magnitude_value(least - 1) == (2 * f - 1) * (u * 512),
            f == 0x10_0000_0000_0000,
            FRACTIONS == f,
            pow2(t + 1) == 2 * u,
            0 < u,
    ;
    lemma_magnitude_monotone(least - 1, m - 1);
    lemma_multiple(m - 1, t + 1);
    lemma_magnitude_monotone(m - 1, m);
    lemma_multiple(m, t + 1);
    if m < INFINITE {
        lemma_magnitude_monotone(m, m + 1);
        lemma_multiple(m + 1, t + 1);
    }
}

/// The double nearest to a root of so many bits, of which only is known whether
/// it is exact, is the one nearest to the true root.
proof fn lemma_root_choice(n: int, q: int, t: nat, m: int)
    requires
        q * q <= n < (q + 1) * (q + 1),
        0x4000_0000_0000_0000 <= q,
        t <= 2000,
        is_nearest(
            (2 * q + if q * q == n {
                0int
            } else {
                1
            }) * pow2(t),
            2,
            m,
        ),
    ensures
        is_nearest_root(n * (pow2(t) * pow2(t)), m),
{
    let u = pow2(t) as int;
    let square = n * (u * u);
    let lost = q * q != n;
    let num = (2 * q + if lost {
        1int
    } else {
        0
    }) * u;
    lemma_pow2_pos(t);
    assert((2 * q) * u <= num && 2 * q * u == (2 * q) * u) by (nonlinear_arith)
        requires
            0 < u,
            num == (2 * q) * u || num == (2 * q + 1) * u,
    ;
    lemma_around(num, q, t, m);
    let (low, high) = ((2 * q) * u, (2 * q + 2) * u);
    assert(low * low == 4 * ((q * q) * (u * u))) by (nonlinear_arith)
        requires
            low == (2 * q) * u,
    ;
    assert(high * high == 4 * (((q + 1) * (q + 1)) * (u * u))) by (nonlinear_arith)
        requires
            high == (2 * q + 2) * u,
    ;
    assert((q * q) * (u * u) <= square && square < ((q + 1) * (q + 1)) * (u * u) && (q * q < n
        ==> (q * q) * (u * u) < square)) by (nonlinear_arith)
        requires
            square == n * (u * u),
            q * q <= n,
            n < (q + 1) * (q + 1),
            0 < u,
    ;
    assert(0 <= low && 0 <= high) by (nonlinear_arith)
        requires
            low == (2 * q) * u,
            high == (2 * q + 2) * u,
            0 <= q,
            0 < u,
    ;
    assert forall|k: int| #![trigger magnitude_value(k)]
        0 <= k <= INFINITE && k != m implies {
        let twice = magnitude_value(k) + magnitude_value(m);
        ||| k < m && twice * twice < 4 * square
        ||| k > m && 4 * square < twice * twice
        ||| twice * twice == 4 * square && m % 2 == 0
    } by {
        let twice = magnitude_value(k) + magnitude_value(m);
        lemma_magnitude_monotone(0, k);
        lemma_magnitude_monotone(0, m);
        lemma_middle(num, m, k);
        if !lost {
            lemma_squares(twice, low);
        } else if k < m {
            let next = magnitude_value(m - 1) + magnitude_value(m);
            lemma_magnitude_monotone(k, m - 1);
            lemma_middle(num, m, m - 1);
            vstd::arithmetic::div_mod::lemma_mod_adds(
                magnitude_value(m - 1),
                magnitude_value(m),
                2 * u,
            );
            lemma_even_multiple(next, q, u);
            lemma_squares(twice, low);
        } else {
            let next = magnitude_value(m + 1) + magnitude_value(m);
            lemma_magnitude_monotone(m + 1, k);
            lemma_middle(num, m, m + 1);
            vstd::arithmetic::div_mod::lemma_mod_adds(
                magnitude_value(m + 1),
                magnitude_value(m),
                2 * u,
            );
            lemma_even_multiple(next, q, u);
            lemma_squares(high, twice);
        }
    }
}

} // verus!
