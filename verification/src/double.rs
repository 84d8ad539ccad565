//! Double-precision numbers, held as their IEEE 754 bit patterns.
//!
//! A number is carried as 64 plain bits. What they mean is the exact value of
//! the number, an integer in units of the smallest positive double, and what a
//! comparison or a calculation gives is stated over these integers.

use vstd::arithmetic::power2::{lemma_pow2_adds, lemma_pow2_pos, lemma_pow2_unfold, pow2};
use vstd::prelude::*;

verus! {

/// The sign bit, which is also the number of distinct magnitudes.
pub const SIGN: u64 = 0x8000_0000_0000_0000;

/// The magnitude of infinity; every larger magnitude is a NaN.
pub const INFINITE: u64 = 0x7ff0_0000_0000_0000;

/// The number of fractions that share one exponent.
pub const FRACTIONS: u64 = 0x10_0000_0000_0000;

/// The bit pattern of `0.5`.
pub const HALF_BITS: u64 = 0x3fe0_0000_0000_0000;

/// The bit pattern of `1.0`.
pub const ONE_BITS: u64 = 0x3ff0_0000_0000_0000;

/// The bit pattern of `2.0`.
pub const TWO_BITS: u64 = 0x4000_0000_0000_0000;

/// A double-precision number.
#[derive(Clone, Copy, Debug)]
pub struct Double {
    pub bits: u64,
}

/// The value of the double with the given magnitude and a clear sign bit,
/// counted in units of the smallest positive double, `2^-1074`. Infinity
/// counts as the number that would follow the largest finite one.
pub open spec fn magnitude_value(magnitude: int) -> int
    recommends
        0 <= magnitude <= INFINITE,
{
    let exponent = magnitude / FRACTIONS as int;
    let fraction = magnitude % FRACTIONS as int;
    if exponent == 0 {
        fraction
    } else {
        (FRACTIONS + fraction) * pow2((exponent - 1) as nat)
    }
}

impl Double {
    /// The bit pattern without its sign.
    pub open spec fn magnitude(self) -> int {
        self.bits as int % SIGN as int
    }

    /// Whether the sign bit is set.
    pub open spec fn negative(self) -> bool {
        self.bits >= SIGN
    }

    /// Whether this is not a number.
    pub open spec fn nan(self) -> bool {
        self.magnitude() > INFINITE
    }

    /// The exact value, in units of `2^-1074`; meaningless for a NaN.
    pub open spec fn value(self) -> int {
        if self.negative() {
            -magnitude_value(self.magnitude())
        } else {
            magnitude_value(self.magnitude())
        }
    }

    /// `self == other`: both are numbers and have the same value, so that the
    /// two zeros are equal and a NaN equals nothing.
    pub open spec fn equals(self, other: Double) -> bool {
        !self.nan() && !other.nan() && self.value() == other.value()
    }

    /// `self < other`: both are numbers, and the first is the smaller one.
    pub open spec fn below(self, other: Double) -> bool {
        !self.nan() && !other.nan() && self.value() < other.value()
    }

    /// `self <= other`.
    pub open spec fn up_to(self, other: Double) -> bool {
        !self.nan() && !other.nan() && self.value() <= other.value()
    }

    /// `0.0 <= self`
    pub open spec fn nonnegative(self) -> bool {
        (Double { bits: 0 }).up_to(self)
    }

    /// `self <= 0.0`
    pub open spec fn nonpositive(self) -> bool {
        self.up_to(Double { bits: 0 })
    }

    /// `0.0 < self`
    pub open spec fn positive(self) -> bool {
        (Double { bits: 0 }).below(self)
    }

    /// `-self`: the number with its sign bit flipped.
    pub open spec fn negated(self) -> Double {
        Double {
            bits: if self.negative() {
                (self.bits - SIGN) as u64
            } else {
                (self.bits + SIGN) as u64
            },
        }
    }

    /// The absolute value: the number with its sign bit cleared.
    pub open spec fn absolute(self) -> Double {
        Double { bits: self.magnitude() as u64 }
    }

    /// Whether the number lies between zero and one, both included.
    pub open spec fn in_unit(self) -> bool {
        !self.nan() && 0 <= self.value() <= (Double { bits: ONE_BITS }).value()
    }

    /// The number with the given bit pattern.
    pub fn from_bits(bits: u64) -> (r: Double)
        ensures
            r.bits == bits,
    {
        Double { bits }
    }

    /// The bit pattern of the number.
    pub fn to_bits(self) -> (r: u64)
        ensures
            r == self.bits,
    {
        self.bits
    }

    /// `0.0`
    pub fn zero() -> (r: Double)
        ensures
            r.bits == 0,
            !r.nan(),
            r.value() == 0,
    {
        Double { bits: 0 }
    }

    /// `0.5`
    pub fn half() -> (r: Double)
        ensures
            r.bits == HALF_BITS,
            !r.nan(),
            2 * r.value() == (Double { bits: ONE_BITS }).value(),
    {
        proof {
            lemma_half();
        }
        Double { bits: HALF_BITS }
    }

    /// `1.0`
    pub fn one() -> (r: Double)
        ensures
            r.bits == ONE_BITS,
            !r.nan(),
            r.value() == pow2(1074),
    {
        proof {
            lemma_one();
        }
        Double { bits: ONE_BITS }
    }

    /// Whether this is not a number.
    pub fn is_nan(self) -> (r: bool)
        ensures
            r == self.nan(),
    {
        self.abs().bits > INFINITE
    }

    /// The number with its sign bit flipped: `-self`.
    pub fn negate(self) -> (r: Double)
        ensures
            r == self.negated(),
            r.nan() == self.nan(),
            r.value() == -self.value(),
    {
        if self.bits >= SIGN {
            Double { bits: self.bits - SIGN }
        } else {
            Double { bits: self.bits + SIGN }
        }
    }

    /// The number with its sign bit cleared: its absolute value.
    pub fn abs(self) -> (r: Double)
        ensures
            r == self.absolute(),
            r.nan() == self.nan(),
            !self.nan() ==> r.value() == if self.value() < 0 {
                -self.value()
            } else {
                self.value()
            },
    {
        proof {
            lemma_magnitude_monotone(0, self.magnitude());
        }
        if self.bits >= SIGN {
            Double { bits: self.bits - SIGN }
        } else {
            self
        }
    }

    /// `self < other`
    pub fn less_than(self, other: Double) -> (r: bool)
        ensures
            r == self.below(other),
    {
        proof {
            lemma_order(self, other);
        }
        if self.is_nan() || other.is_nan() {
            return false;
        }
        let x: u64 = self.abs().bits;
        let y: u64 = other.abs().bits;
        if self.bits >= SIGN {
            if other.bits >= SIGN {
                y < x
            } else {
                x != 0 || y != 0
            }
        } else {
            other.bits < SIGN && x < y
        }
    }

    /// `self <= other`
    pub fn at_most(self, other: Double) -> (r: bool)
        ensures
            r == self.up_to(other),
    {
        self.less_than(other) || self == other
    }
}

impl PartialEq for Double {
    fn eq(&self, other: &Double) -> (r: bool) {
        proof {
            lemma_order(*self, *other);
        }
        if self.is_nan() || other.is_nan() {
            return false;
        }
        self.bits == other.bits || (self.abs().bits == 0 && other.abs().bits == 0)
    }
}

impl vstd::std_specs::cmp::PartialEqSpecImpl for Double {
    open spec fn obeys_eq_spec() -> bool {
        true
    }

    open spec fn eq_spec(&self, other: &Double) -> bool {
        self.equals(*other)
    }
}

/// The magnitude read as a signed number: the order of the finite doubles and
/// the infinities.
spec fn rank(x: Double) -> int {
    if x.negative() {
        -x.magnitude()
    } else {
        x.magnitude()
    }
}

/// Consecutive magnitudes have increasing values.
proof fn lemma_magnitude_step(m: int)
    requires
        0 <= m,
    ensures
        magnitude_value(m) < magnitude_value(m + 1),
{
    let f = FRACTIONS as int;
    let exponent = m / f;
    let fraction = m % f;
    if fraction + 1 < f {
        assert((m + 1) / f == exponent && (m + 1) % f == fraction + 1) by (nonlinear_arith)
            requires
                f == 0x10_0000_0000_0000,
                0 <= m,
                exponent == m / f,
                fraction == m % f,
                fraction + 1 < f,
        ;
        if exponent != 0 {
            let scale = pow2((exponent - 1) as nat) as int;
            lemma_pow2_pos((exponent - 1) as nat);
            assert((f + fraction) * scale < (f + fraction + 1) * scale) by (nonlinear_arith)
                requires
                    scale > 0,
            ;
        }
    } else {
        assert((m + 1) / f == exponent + 1 && (m + 1) % f == 0) by (nonlinear_arith)
            requires
                f == 0x10_0000_0000_0000,
                0 <= m,
                exponent == m / f,
                fraction == m % f,
                fraction + 1 == f,
        ;
        if exponent == 0 {
            vstd::arithmetic::power2::lemma2_to64();
        } else {
            let scale = pow2((exponent - 1) as nat) as int;
            lemma_pow2_pos((exponent - 1) as nat);
            lemma_pow2_unfold(exponent as nat);
            assert((f + fraction) * scale < f * (2 * scale)) by (nonlinear_arith)
                requires
                    scale > 0,
                    fraction + 1 == f,
            ;
        }
    }
}

/// Larger magnitudes have larger values.
pub proof fn lemma_magnitude_monotone(m: int, n: int)
    requires
        0 <= m <= n,
    ensures
        m < n ==> magnitude_value(m) < magnitude_value(n),
        magnitude_value(0) == 0,
        0 <= magnitude_value(m) <= magnitude_value(n),
    decreases n,
{
    if n > 0 {
        lemma_magnitude_monotone(0, n - 1);
        lemma_magnitude_step(n - 1);
        if m < n {
            lemma_magnitude_monotone(m, n - 1);
        }
    }
}

/// The magnitude that stands for `q` units of `2^t`, where `q` has as many bits
/// as a double, or fewer of the smallest units.
pub proof fn lemma_magnitude_parts(t: int, q: int)
    requires
        0 <= t,
        0 <= q <= 2 * FRACTIONS,
        t == 0 || FRACTIONS <= q,
    ensures
        magnitude_value(t * FRACTIONS + q) == q * pow2(t as nat),
{
    let f = FRACTIONS as int;
    let m = t * f + q;
    vstd::arithmetic::power2::lemma2_to64();
    if q < f {
        assert(m / f == 0 && m % f == q);
        assert(q * pow2(0) == q) by (nonlinear_arith)
            requires
                pow2(0) == 1,
        ;
    } else if q < 2 * f {
        assert(m / f == t + 1 && m % f == q - f) by (nonlinear_arith)
            requires
                f == 0x10_0000_0000_0000,
                m == t * f + q,
                f <= q < 2 * f,
        ;
    } else {
        assert(m / f == t + 2 && m % f == 0) by (nonlinear_arith)
            requires
                f == 0x10_0000_0000_0000,
                m == t * f + q,
                q == 2 * f,
        ;
        lemma_pow2_unfold((t + 1) as nat);
        let p = pow2(t as nat) as int;
        assert(f * (2 * p) == (2 * f) * p) by (nonlinear_arith);
    }
}

/// A magnitude stands for some units of some power of two.
pub proof fn lemma_magnitude_split(m: int) -> (r: (int, nat))
    requires
        0 <= m,
    ensures
        0 <= r.0 < 2 * FRACTIONS,
        magnitude_value(m) == r.0 * pow2(r.1),
        m == r.1 * FRACTIONS + r.0,
        r.1 == 0 || FRACTIONS <= r.0,
{
    let f = FRACTIONS as int;
    let exponent = m / f;
    let fraction = m % f;
    if exponent == 0 {
        vstd::arithmetic::power2::lemma2_to64();
        assert(fraction * pow2(0) == fraction) by (nonlinear_arith)
            requires
                pow2(0) == 1,
        ;
        (fraction, 0)
    } else {
        (f + fraction, (exponent - 1) as nat)
    }
}

/// The signed magnitudes of two numbers are ordered as their values are.
proof fn lemma_order(x: Double, y: Double)
    ensures
        x.value() < y.value() <==> rank(x) < rank(y),
        x.value() == y.value() <==> rank(x) == rank(y),
{
    let m = x.magnitude();
    let n = y.magnitude();
    lemma_magnitude_monotone(0, m);
    lemma_magnitude_monotone(0, n);
    if m <= n {
        lemma_magnitude_monotone(m, n);
    } else {
        lemma_magnitude_monotone(n, m);
    }
}

/// The value of one.
pub proof fn lemma_one()
    ensures
        (Double { bits: ONE_BITS }).value() == pow2(1074),
{
    let m = (Double { bits: ONE_BITS }).magnitude();
    assert(m == ONE_BITS && m / FRACTIONS as int == 1023 && m % FRACTIONS as int == 0);
    vstd::arithmetic::power2::lemma2_to64_rest();
    lemma_pow2_adds(52, 1022);
}

/// The value of one half.
pub proof fn lemma_half()
    ensures
        2 * (Double { bits: HALF_BITS }).value() == (Double { bits: ONE_BITS }).value(),
{
    let one = (Double { bits: ONE_BITS }).magnitude();
    let half = (Double { bits: HALF_BITS }).magnitude();
    assert(one == ONE_BITS && one / FRACTIONS as int == 1023 && one % FRACTIONS as int == 0);
    assert(half == HALF_BITS && half / FRACTIONS as int == 1022 && half % FRACTIONS as int == 0);
    lemma_pow2_unfold(1022);
}

} // verus!
