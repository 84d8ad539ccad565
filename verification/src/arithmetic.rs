//! Addition, subtraction, multiplication and division of doubles, each rounded
//! to the nearest double.

use crate::double::{
    lemma_magnitude_monotone,
    magnitude_value,
    Double,
    FRACTIONS,
    INFINITE,
    SIGN,
};
use crate::rounding::{nearest, round, scale, truncates, BIAS};
use vstd::arithmetic::power2::{lemma_pow2_adds, lemma_pow2_pos, lemma_pow2_unfold, pow2};
use vstd::prelude::*;

verus! {

/// The bit pattern of the NaN that an operation without a result gives.
pub const NAN_BITS: u64 = 0x7ff8_0000_0000_0000;

/// The double with this sign and this magnitude.
pub open spec fn signed(negative: bool, magnitude: int) -> Double {
    Double {
        bits: if negative {
            (magnitude + SIGN) as u64
        } else {
            magnitude as u64
        },
    }
}

/// The absolute value of an integer.
pub open spec fn size(x: int) -> int {
    if x < 0 {
        -x
    } else {
        x
    }
}

impl Double {
    /// Whether this is an infinity.
    pub open spec fn infinite(self) -> bool {
        self.magnitude() == INFINITE
    }

    /// Whether this is a zero.
    pub open spec fn is_zero(self) -> bool {
        self.magnitude() == 0
    }

    /// `self + other`: the double nearest to the sum. A sum of zero is negative
    /// only where both terms are.
    pub open spec fn plus(self, other: Double) -> Double {
        let sum = self.value() + other.value();
        if self.nan() || other.nan() || self.infinite() && other.infinite() && self.negative()
            != other.negative() {
            Double { bits: NAN_BITS }
        } else if self.infinite() {
            self
        } else if other.infinite() {
            other
        } else if sum == 0 {
            signed(self.negative() && other.negative(), 0)
        } else {
            signed(sum < 0, nearest(size(sum), 1))
        }
    }

    /// `self - other`
    pub open spec fn minus(self, other: Double) -> Double {
        self.plus(other.negated())
    }

    /// `self * other`: the double nearest to the product.
    pub open spec fn times(self, other: Double) -> Double {
        let negative = self.negative() != other.negative();
        if self.nan() || other.nan() || self.infinite() && other.is_zero() || self.is_zero()
            && other.infinite() {
            Double { bits: NAN_BITS }
        } else if self.infinite() || other.infinite() {
            signed(negative, INFINITE as int)
        } else {
            signed(
                negative,
                nearest(size(self.value()) * size(other.value()), pow2(1074) as int),
            )
        }
    }

    /// `self / other`: the double nearest to the quotient.
    pub open spec fn over(self, other: Double) -> Double {
        let negative = self.negative() != other.negative();
        if self.nan() || other.nan() || self.infinite() && other.infinite() || self.is_zero()
            && other.is_zero() {
            Double { bits: NAN_BITS }
        } else if self.infinite() || other.is_zero() {
            signed(negative, INFINITE as int)
        } else if self.is_zero() || other.infinite() {
            signed(negative, 0)
        } else {
            signed(negative, nearest(size(self.value()) * pow2(1074), size(other.value())))
        }
    }
}

impl Double {
    /// `self + other`
    pub fn add(self, other: Double) -> (r: Double)
        ensures
            r == self.plus(other),
    {
        let x: u64 = self.abs().bits;
        let y: u64 = other.abs().bits;
        let m = self.bits >= SIGN;
        let n = other.bits >= SIGN;
        if x > INFINITE || y > INFINITE || (x == INFINITE && y == INFINITE && m != n) {
            return Double { bits: NAN_BITS };
        }
        if x == INFINITE {
            return self;
        }
        if y == INFINITE {
            return other;
        }
        proof {
            lemma_magnitude_monotone(0, x as int);
            lemma_magnitude_monotone(0, y as int);
            if x <= y {
                lemma_magnitude_monotone(x as int, y as int);
            } else {
                lemma_magnitude_monotone(y as int, x as int);
            }
        }
        if x == y && (m != n || x == 0) {
            return make(m && n, 0);
        }
        let (s1, e1) = parts(x);
        let (s2, e2) = parts(y);
        if e1 >= e2 {
            sum_parts(m, s1, e1, n, s2, e2)
        } else {
            sum_parts(n, s2, e2, m, s1, e1)
        }
    }

    /// `self - other`
    pub fn sub(self, other: Double) -> (r: Double)
        ensures
            r == self.minus(other),
    {
        self.add(other.negate())
    }

    /// `self * other`
    pub fn mul(self, other: Double) -> (r: Double)
        ensures
            r == self.times(other),
    {
        let x: u64 = self.abs().bits;
        let y: u64 = other.abs().bits;
        let negative = (self.bits >= SIGN) != (other.bits >= SIGN);
        if x > INFINITE || y > INFINITE || (x == INFINITE && y == 0) || (x == 0 && y == INFINITE) {
            return Double { bits: NAN_BITS };
        }
        if x == INFINITE || y == INFINITE {
            return make(negative, INFINITE);
        }
        let (s1, e1) = parts(x);
        let (s2, e2) = parts(y);
        let ghost num = size(self.value()) * size(other.value());
        let ghost den = pow2(1074) as int;
        proof {
            lemma_magnitude_monotone(0, x as int);
            lemma_magnitude_monotone(0, y as int);
            assert(s1 * s2 <= 0x20_0000_0000_0000 * 0x20_0000_0000_0000) by (nonlinear_arith)
                requires
                    0 <= s1 < 0x20_0000_0000_0000,
                    0 <= s2 < 0x20_0000_0000_0000,
            ;
            lemma_product(s1 as int, e1 as nat, s2 as int, e2 as nat);
        }
        make(
            negative,
            round(s1 as u128 * s2 as u128, false, e1 + e2 - 1074, Ghost(num), Ghost(den)),
        )
    }

    /// `self / other`
    pub fn div(self, other: Double) -> (r: Double)
        ensures
            r == self.over(other),
    {
        let x: u64 = self.abs().bits;
        let y: u64 = other.abs().bits;
        let negative = (self.bits >= SIGN) != (other.bits >= SIGN);
        if x > INFINITE || y > INFINITE || (x == INFINITE && y == INFINITE) || (x == 0 && y == 0) {
            return Double { bits: NAN_BITS };
        }
        if x == INFINITE || y == 0 {
            return make(negative, INFINITE);
        }
        if x == 0 || y == INFINITE {
            return make(negative, 0);
        }
        let (s1, e1) = parts(x);
        let (s2, e2) = parts(y);
        let ghost num = size(self.value()) * pow2(1074);
        let ghost den = size(other.value());
        let (s, j) = normalize(s1);
        proof {
            lemma_magnitude_monotone(0, x as int);
            lemma_magnitude_monotone(0, y as int);
            lemma_dividend(s as int);
        }
        let n: u128 = shift_left(s as u128, 74);
        let q: u128 = n / s2 as u128;
        let lost = n % s2 as u128 != 0;
        let t: i32 = e1 - j as i32 - 74 - e2 + 1074;
        proof {
            lemma_quotient(
                s1 as int,
                e1 as nat,
                j as nat,
                n as int,
                s2 as int,
                e2 as nat,
                q as int,
                lost,
            );
        }
        make(negative, round(q, lost, t, Ghost(num), Ghost(den)))
    }
}

/// As many units as make a normal number, of the size `2^-j`.
pub(crate) fn normalize(s: u64) -> (r: (u64, u32))
    requires
        0 < s < 2 * FRACTIONS,
    ensures
        FRACTIONS <= r.0 < 2 * FRACTIONS,
        r.0 == s * pow2(r.1 as nat),
        r.1 <= 52,
{
    let mut q: u64 = s;
    let mut j: u32 = 0;
    proof {
        vstd::arithmetic::power2::lemma2_to64();
        vstd::arithmetic::power2::lemma2_to64_rest();
        assert(s * pow2(0) == s) by (nonlinear_arith)
            requires
                pow2(0) == 1,
        ;
    }
    while q < FRACTIONS
        invariant
            0 < s,
            0 < q < 2 * FRACTIONS,
            q == s * pow2(j as nat),
            j <= 52,
            pow2(52) == FRACTIONS,
        decreases 2 * FRACTIONS - q,
    {
        proof {
            lemma_pow2_unfold((j + 1) as nat);
            let (a, b) = (pow2(j as nat) as int, pow2((j + 1) as nat) as int);
            assert(2 * (s * a) == s * b && a <= s * a) by (nonlinear_arith)
                requires
                    b == 2 * a,
                    0 < s,
                    0 <= a,
            ;
        }
        q = q * 2;
        j += 1;
    }
    (q, j)
}

/// The product of the parts is the product of the numbers.
proof fn lemma_product(s1: int, e1: nat, s2: int, e2: nat)
    requires
        0 <= s1,
        0 <= s2,
    ensures
        truncates(
            (s1 * pow2(e1)) * (s2 * pow2(e2)),
            pow2(1074) as int,
            s1 * s2,
            false,
            e1 + e2 - 1074,
        ),
        0 < pow2(1074),
        0 <= s1 * s2,
{
    let t = e1 + e2 - 1074;
    let n = s1 * s2;
    lemma_pow2_pos(1074);
    lemma_pow2_pos((t + BIAS) as nat);
    lemma_pow2_adds((t + BIAS) as nat, 1074);
    lemma_pow2_adds(e1, e2);
    lemma_pow2_adds(e1 + e2, BIAS as nat);
    let (a, b, g) = (pow2(e1) as int, pow2(e2) as int, pow2(BIAS as nat) as int);
    let (u, w) = (scale(t), pow2(1074) as int);
    assert((t + BIAS) as nat + 1074 == e1 + e2 + BIAS as nat);
    assert(u * w == (a * b) * g);
    assert(0 <= n) by (nonlinear_arith)
        requires
            n == s1 * s2,
            0 <= s1,
            0 <= s2,
    ;
    assert(n * (u * w) == ((s1 * a) * (s2 * b)) * g) by (nonlinear_arith)
        requires
            u * w == (a * b) * g,
            n == s1 * s2,
    ;
    assert((n + 1) * (u * w) == n * (u * w) + u * w && 0 < u * w) by (nonlinear_arith)
        requires
            0 < u,
            0 < w,
    ;
}

/// A normal number, shifted by 74 bits, fits, and is much larger than any other
/// number.
proof fn lemma_dividend(s: int)
    requires
        FRACTIONS <= s < 2 * FRACTIONS,
    ensures
        0x4000_0000_0000_0000_0000_0000_0000_0000 <= s * pow2(74)
            <= 0x8000_0000_0000_0000_0000_0000_0000_0000,
{
    lemma_pow2_adds(64, 10);
    vstd::arithmetic::power2::lemma2_to64();
    vstd::arithmetic::power2::lemma2_to64_rest();
    let n = s * pow2(74);
    assert(0x10_0000_0000_0000 * 0x400_0000_0000_0000_0000 <= n <= 0x20_0000_0000_0000
        * 0x400_0000_0000_0000_0000) by (nonlinear_arith)
        requires
            n == s * 0x400_0000_0000_0000_0000,
            0x10_0000_0000_0000 <= s < 0x20_0000_0000_0000,
    ;
}

/// The quotient of the parts truncates the quotient of the numbers.
proof fn lemma_quotient(
    s1: int,
    e1: nat,
    j: nat,
    n: int,
    s2: int,
    e2: nat,
    q: int,
    lost: bool,
)
    requires
        0 < s1,
        0 < s2 < 2 * FRACTIONS,
        e1 <= 2045,
        e2 <= 2045,
        j <= 52,
        n == (s1 * pow2(j)) * pow2(74),
        0x4000_0000_0000_0000_0000_0000_0000_0000 <= n,
        q == n / s2,
        lost == (n % s2 != 0),
    ensures
        truncates(
            (s1 * pow2(e1)) * pow2(1074),
            s2 * pow2(e2),
            q,
            lost,
            e1 - j - 74 - e2 + 1074,
        ),
        0 < s2 * pow2(e2),
        4 * FRACTIONS <= q,
{
    let t = e1 - j - 74 - e2 + 1074;
    let x = (e1 - j - 74 + 1074 + BIAS) as nat;
    lemma_pow2_pos(x);
    lemma_pow2_pos(e2);
    lemma_pow2_pos((t + BIAS) as nat);
    lemma_pow2_adds((t + BIAS) as nat, e2);
    lemma_pow2_adds(e1, 1074);
    lemma_pow2_adds(e1 + 1074, BIAS as nat);
    lemma_pow2_adds(j, 74);
    lemma_pow2_adds(x, j + 74);
    assert((t + BIAS) as nat + e2 == x);
    assert(x + (j + 74) == e1 + 1074 + BIAS as nat);
    let (a, w, g) = (pow2(e1) as int, pow2(1074) as int, pow2(BIAS as nat) as int);
    let (p, r, u) = (pow2(x) as int, pow2(e2) as int, scale(t));
    let c = pow2(j + 74) as int;
    let (b, d) = (pow2(j) as int, pow2(74) as int);
    let num = (s1 * a) * w;
    let den = s2 * r;
    assert(u * r == p && (a * w) * g == p * c && c == b * d);
    assert(n == s1 * c) by (nonlinear_arith)
        requires
            n == (s1 * b) * d,
            c == b * d,
    ;
    assert(num * g == n * p) by (nonlinear_arith)
        requires
            num == (s1 * a) * w,
            (a * w) * g == p * c,
            n == s1 * c,
    ;
    assert(q * (u * den) == (q * s2) * p && (q + 1) * (u * den) == ((q + 1) * s2) * p)
        by (nonlinear_arith)
        requires
            den == s2 * r,
            u * r == p,
    ;
    assert(q * s2 <= n < (q + 1) * s2 && (n % s2 == 0 <==> q * s2 == n)) by (nonlinear_arith)
        requires
            q == n / s2,
            0 < s2,
    ;
    assert((q * s2) * p <= n * p && n * p < ((q + 1) * s2) * p && (q * s2 == n <==> (q * s2) * p
        == n * p)) by (nonlinear_arith)
        requires
            0 < p,
            q * s2 <= n,
            n < (q + 1) * s2,
    ;
    assert(0 < den) by (nonlinear_arith)
        requires
            den == s2 * r,
            0 < s2,
            0 < r,
    ;
    assert(0x40_0000_0000_0000 <= q) by (nonlinear_arith)
        requires
            n < (q + 1) * s2,
            0 < s2 < 0x20_0000_0000_0000,
            0x4000_0000_0000_0000_0000_0000_0000_0000 <= n,
    ;
}

/// A finite magnitude as `parts.0` units of `2^parts.1`.
pub(crate) fn parts(magnitude: u64) -> (r: (u64, i32))
    requires
        magnitude < INFINITE,
    ensures
        magnitude_value(magnitude as int) == r.0 * pow2(r.1 as nat),
        r.0 < 2 * FRACTIONS,
        0 <= r.1 <= 2045,
        r.1 == 0 || FRACTIONS <= r.0,
        r.0 == 0 <==> magnitude == 0,
{
    let exponent: u64 = magnitude / FRACTIONS;
    let fraction: u64 = magnitude % FRACTIONS;
    if exponent == 0 {
        proof {
            vstd::arithmetic::power2::lemma2_to64();
            assert(fraction * pow2(0) == fraction) by (nonlinear_arith)
                requires
                    pow2(0) == 1,
            ;
        }
        (fraction, 0)
    } else {
        (FRACTIONS + fraction, (exponent - 1) as i32)
    }
}

/// `x * 2^k`
pub(crate) fn shift_left(x: u128, k: u32) -> (r: u128)
    requires
        x * pow2(k as nat) <= u128::MAX,
    ensures
        r == x * pow2(k as nat),
{
    let mut r: u128 = x;
    let mut i: u32 = 0;
    proof {
        vstd::arithmetic::power2::lemma2_to64();
        assert(x * pow2(0) == x) by (nonlinear_arith)
            requires
                pow2(0) == 1,
        ;
    }
    while i < k
        invariant
            i <= k,
            r == x * pow2(i as nat),
            x * pow2(k as nat) <= u128::MAX,
        decreases k - i,
    {
        proof {
            lemma_pow2_unfold((i + 1) as nat);
            lemma_pow2_adds((i + 1) as nat, (k - i - 1) as nat);
            lemma_pow2_pos((k - i - 1) as nat);
            let (a, b, c) = (
                pow2(i as nat) as int,
                pow2((i + 1) as nat) as int,
                pow2((k - i - 1) as nat) as int,
            );
            assert(2 * (x * a) == x * b) by (nonlinear_arith)
                requires
                    b == 2 * a,
            ;
            assert(x * b <= x * (b * c)) by (nonlinear_arith)
                requires
                    0 < c,
                    0 <= b,
                    0 <= x,
            ;
        }
        r = r * 2;
        i += 1;
    }
    r
}

/// `x / 2^k`, rounded down, and whether anything was lost.
fn shift_right(x: u64, k: u32) -> (r: (u64, bool))
    ensures
        r.0 * pow2(k as nat) <= x < (r.0 + 1) * pow2(k as nat),
        r.1 == (r.0 * pow2(k as nat) != x),
        r.0 <= x,
{
    let mut q: u64 = x;
    let mut lost = false;
    let mut i: u32 = 0;
    proof {
        vstd::arithmetic::power2::lemma2_to64();
        assert(x * pow2(0) == x && (x + 1) * pow2(0) == x + 1) by (nonlinear_arith)
            requires
                pow2(0) == 1,
        ;
    }
    while i < k
        invariant
            i <= k,
            q <= x,
            q * pow2(i as nat) <= x < (q + 1) * pow2(i as nat),
            lost == (q * pow2(i as nat) != x),
        decreases k - i,
    {
        proof {
            lemma_pow2_unfold((i + 1) as nat);
            lemma_pow2_pos(i as nat);
            let (a, b) = (pow2(i as nat) as int, pow2((i + 1) as nat) as int);
            let (h, odd) = (q as int / 2, q as int % 2);
            assert(q * a == h * b + odd * a && (q + 1) * a == h * b + odd * a + a && (h + 1) * b
                == h * b + 2 * a) by (nonlinear_arith)
                requires
                    b == 2 * a,
                    q == 2 * h + odd,
            ;
            assert(0 * a == 0 && 1 * a == a) by (nonlinear_arith);
            assert(odd == 0 || odd == 1);
        }
        lost = lost || q % 2 == 1;
        q = q / 2;
        i += 1;
    }
    (q, lost)
}

/// The double with this sign and this magnitude.
fn make(negative: bool, magnitude: u64) -> (r: Double)
    requires
        magnitude <= INFINITE,
    ensures
        r == signed(negative, magnitude as int),
{
    if negative {
        Double { bits: magnitude + SIGN }
    } else {
        Double { bits: magnitude }
    }
}

/// The magnitude and the sign of a sum of two finite doubles that is not zero,
/// given by sign, units and exponent, the one with the larger exponent first.
fn sum_parts(n1: bool, s1: u64, e1: i32, n2: bool, s2: u64, e2: i32) -> (r: Double)
    requires
        0 <= e2 <= e1 <= 2045,
        s1 < 2 * FRACTIONS,
        s2 < 2 * FRACTIONS,
        e1 == 0 || FRACTIONS <= s1,
    ensures
        ({
            let a = s1 * pow2(e1 as nat);
            let b = s2 * pow2(e2 as nat);
            let sum = (if n1 {
                -a
            } else {
                a as int
            }) + (if n2 {
                -b
            } else {
                b as int
            });
            sum != 0 ==> r == signed(sum < 0, nearest(size(sum), 1))
        }),
{
    let ghost a = s1 * pow2(e1 as nat);
    let ghost b = s2 * pow2(e2 as nat);
    let d: i32 = e1 - e2;
    if d <= 70 {
        proof {
            lemma_pow2_adds(e2 as nat, d as nat);
            lemma_align(s1 as int, d as nat, e2 as nat);
        }
        let n: u128 = shift_left(s1 as u128, d as u32);
        let m: u128 = s2 as u128;
        if n1 == n2 {
            proof {
                lemma_exact((n + m) as int, e2 as nat);
                lemma_unit_add(n as int, m as int, e2 as nat);
            }
            make(n1, round(n + m, false, e2, Ghost(a + b), Ghost(1)))
        } else if m <= n {
            proof {
                lemma_exact((n - m) as int, e2 as nat);
                lemma_unit_add(n - m, m as int, e2 as nat);
            }
            make(n1, round(n - m, false, e2, Ghost(a - b), Ghost(1)))
        } else {
            proof {
                lemma_exact((m - n) as int, e2 as nat);
                lemma_unit_add(m - n, n as int, e2 as nat);
            }
            make(n2, round(m - n, false, e2, Ghost(b - a), Ghost(1)))
        }
    } else {
        let t: i32 = e1 - 70;
        let k: i32 = d - 70;
        proof {
            lemma_align(s1 as int, 70, t as nat);
        }
        let n: u128 = shift_left(s1 as u128, 70);
        let (m, lost) = shift_right(s2, k as u32);
        proof {
            lemma_large(s1 as int, n as int);
            lemma_far(n as int, m as int, s2 as int, lost, k as nat, e2 as nat);
        }
        if n1 == n2 {
            make(n1, round(n + m as u128, lost, t, Ghost(a + b), Ghost(1)))
        } else if lost {
            make(n1, round(n - m as u128 - 1, true, t, Ghost(a - b), Ghost(1)))
        } else {
            make(n1, round(n - m as u128, false, t, Ghost(a - b), Ghost(1)))
        }
    }
}

/// A normal number, shifted by 70 bits, is much larger than any other number.
proof fn lemma_large(s: int, n: int)
    requires
        FRACTIONS <= s < 2 * FRACTIONS,
        n == s * pow2(70),
    ensures
        0x400_0000_0000_0000_0000_0000_0000_0000 <= n
            <= 0x800_0000_0000_0000_0000_0000_0000_0000,
{
    lemma_pow2_adds(64, 6);
    vstd::arithmetic::power2::lemma2_to64();
    assert(0x10_0000_0000_0000 * 0x40_0000_0000_0000_0000 <= n <= 0x20_0000_0000_0000
        * 0x40_0000_0000_0000_0000) by (nonlinear_arith)
        requires
            n == s * 0x40_0000_0000_0000_0000,
            0x10_0000_0000_0000 <= s < 0x20_0000_0000_0000,
    ;
}

/// `n` units of `2^(e + k)`, and `s` units of `2^e` more or less.
proof fn lemma_far(n: int, m: int, s: int, lost: bool, k: nat, e: nat)
    requires
        0 <= m < n,
        0 <= s,
        m * pow2(k) <= s < (m + 1) * pow2(k),
        lost == (m * pow2(k) != s),
    ensures
        ({
            let (a, b) = (n * pow2(e + k), s * pow2(e));
            &&& 0 <= b < a
            &&& truncates(a + b, 1, n + m, lost, (e + k) as int)
            &&& lost ==> truncates(a - b, 1, n - m - 1, true, (e + k) as int)
            &&& !lost ==> truncates(a - b, 1, n - m, false, (e + k) as int)
        }),
{
    lemma_pow2_pos(e);
    lemma_pow2_pos(k);
    lemma_pow2_pos(BIAS as nat);
    lemma_pow2_adds(e, k);
    lemma_pow2_adds(e + k, BIAS as nat);
    let (p, w, g) = (pow2(e) as int, pow2(k) as int, pow2(BIAS as nat) as int);
    let u = pow2(e + k) as int;
    let v = pow2(e + k + BIAS as nat) as int;
    let (a, b) = (n * u, s * p);
    assert(u == p * w && v == u * g);
    assert(m * u <= b < (m + 1) * u && (m * u == b <==> m * w == s) && 0 <= b) by (nonlinear_arith)
        requires
            0 < p,
            0 < w,
            u == p * w,
            b == s * p,
            m * w <= s < (m + 1) * w,
            0 <= s,
    ;
    assert((m + 1) * u <= n * u && 0 < u) by (nonlinear_arith)
        requires
            m < n,
            0 < p,
            0 < w,
            u == p * w,
    ;
    lemma_scaled(n + m, u, g, a + b);
    lemma_scaled(n - m - 1, u, g, a - b);
    lemma_scaled(n - m, u, g, a - b);
    lemma_distribute(n, m, u);
    assert((n + m + 1) * u == n * u + (m + 1) * u) by (nonlinear_arith);
    assert((n - m - 1) * u == n * u - (m + 1) * u) by (nonlinear_arith);
    assert((n - m + 1) * u == (n - m) * u + u) by (nonlinear_arith);
    assert((n - m - 1 + 1) * u == (n - m) * u);
    assert(scale((e + k) as int) == v && scale(0) == g);
}

proof fn lemma_distribute(n: int, m: int, u: int)
    ensures
        (n + m) * u == n * u + m * u,
        (n - m) * u == n * u - m * u,
{
    assert((n + m) * u == n * u + m * u) by (nonlinear_arith);
    assert((n - m) * u == n * u - m * u) by (nonlinear_arith);
}

/// Comparing with a multiple is the same with a common factor.
proof fn lemma_scaled(q: int, u: int, g: int, x: int)
    requires
        0 < g,
    ensures
        q * u <= x <==> q * ((u * g) * 1) <= x * g,
        q * u == x <==> q * ((u * g) * 1) == x * g,
        x < (q + 1) * u <==> x * g < (q + 1) * ((u * g) * 1),
{
    assert(q * ((u * g) * 1) == (q * u) * g) by (nonlinear_arith);
    assert((q + 1) * ((u * g) * 1) == ((q + 1) * u) * g) by (nonlinear_arith);
    let (a, b) = (q * u, (q + 1) * u);
    assert((a <= x <==> a * g <= x * g) && (a == x <==> a * g == x * g) && (x < b <==> x * g < b
        * g)) by (nonlinear_arith)
        requires
            0 < g,
    ;
}

/// `s * 2^d` fits, and has the exponent `e` where `s` has `d` more.
proof fn lemma_align(s: int, d: nat, e: nat)
    requires
        0 <= s < 2 * FRACTIONS,
        d <= 70,
    ensures
        s * pow2(d) <= 0x8000_0000_0000_0000_0000_0000_0000_0000,
        (s * pow2(d)) * pow2(e) == s * pow2(e + d),
{
    lemma_pow2_adds(e, d);
    lemma_pow2_adds(d, (70 - d) as nat);
    lemma_pow2_adds(64, 6);
    vstd::arithmetic::power2::lemma2_to64();
    lemma_pow2_pos((70 - d) as nat);
    let (p, q, c) = (pow2(d) as int, pow2(e) as int, pow2((70 - d) as nat) as int);
    assert(s * p <= 0x20_0000_0000_0000 * 0x40_0000_0000_0000_0000) by (nonlinear_arith)
        requires
            0 <= s < 0x20_0000_0000_0000,
            0 < c,
            p * c == 0x40_0000_0000_0000_0000,
            0 <= p,
    ;
    assert((s * p) * q == s * (q * p)) by (nonlinear_arith);
}

/// `n` units of `2^e` truncate what they are.
proof fn lemma_exact(n: int, e: nat)
    requires
        0 <= n,
    ensures
        truncates(n * pow2(e), 1, n, false, e as int),
{
    lemma_pow2_adds(e, BIAS as nat);
    lemma_pow2_pos(e + BIAS as nat);
    let (p, s, u) = (pow2(e) as int, pow2(BIAS as nat) as int, pow2(e + BIAS as nat) as int);
    assert(n * (u * 1) == (n * p) * s && (n + 1) * (u * 1) == n * (u * 1) + u) by (nonlinear_arith)
        requires
            u == p * s,
    ;
}

proof fn lemma_unit_add(x: int, y: int, e: nat)
    ensures
        (x + y) * pow2(e) == x * pow2(e) + y * pow2(e),
{
    let p = pow2(e) as int;
    assert((x + y) * p == x * p + y * p) by (nonlinear_arith);
}

} // verus!
