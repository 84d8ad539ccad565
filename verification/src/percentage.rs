//! The position of an animation between its start and its end.

use crate::double::{
    lemma_magnitude_monotone,
    lemma_magnitude_parts,
    lemma_magnitude_split,
    lemma_one,
    magnitude_value,
    Double,
    FRACTIONS,
    ONE_BITS,
};
use crate::order::{
    lemma_finite,
    lemma_finite_value,
    lemma_minus,
    lemma_minus_order,
    lemma_negated,
    lemma_plus,
    lemma_rounded_exact,
    lemma_rounded_monotone,
    lemma_times,
    lemma_unit,
    rounded,
};
use crate::rounding::{
    distance,
    lemma_nearest,
    lemma_nearest_exact,
    lemma_nearest_monotone,
    nearest,
};
use vstd::arithmetic::power2::{lemma_pow2_adds, lemma_pow2_pos, lemma_pow2_unfold, pow2};
use vstd::prelude::*;

verus! {

/// How far an animation has come: `0.0` is its start and `1.0` its end.
#[derive(Clone, Copy, Debug)]
pub struct Percentage(pub Double);

impl Percentage {
    /// `self == other`, as the two numbers compare.
    pub open spec fn equals(self, other: Percentage) -> bool {
        self.0.equals(other.0)
    }

    /// A percentage of `input`, which lies between zero and one.
    pub fn new(input: Double) -> (r: Percentage)
        requires
            input.in_unit(),
        ensures
            r == Percentage(input),
    {
        Percentage::new_unchecked(input)
    }

    /// A percentage of any `input`, in range or not.
    pub fn new_unchecked(input: Double) -> (r: Percentage)
        ensures
            r == Percentage(input),
    {
        Percentage(input)
    }

    /// The percentage that `f` makes of this one; it must lie between zero and
    /// one again.
    pub fn map<F>(self, f: F) -> (r: Percentage) where F: FnOnce(Double) -> Double
        requires
            call_requires(f, (self.0,)),
            forall|x: Double| call_ensures(f, (self.0,), x) ==> x.in_unit(),
        ensures
            call_ensures(f, (self.0,), r.0),
            r.0.in_unit(),
    {
        Percentage::new(f(self.0))
    }

    /// The percentage that `f` makes of this one, in range or not.
    pub fn map_unchecked<F>(self, f: F) -> (r: Percentage) where F: FnOnce(Double) -> Double
        requires
            call_requires(f, (self.0,)),
        ensures
            call_ensures(f, (self.0,), r.0),
    {
        Percentage::new_unchecked(f(self.0))
    }

    /// The percentage seen from the other end: what is missing to one.
    pub open spec fn inverted(self) -> Percentage {
        Percentage((Double { bits: ONE_BITS }).minus(self.0))
    }

    /// The percentage seen from the other end.
    pub fn invert(self) -> (r: Percentage)
        ensures
            r == self.inverted(),
    {
        Percentage::new_unchecked(Double::one().sub(self.0))
    }

    /// The number that lies this far on the way from `low` to `high`.
    pub fn range_inclusive(&self, low: Double, high: Double) -> (r: Double)
        ensures
            r == between(self.0, low, high),
    {
        range_inclusive(self.0, low, high)
    }

    /// The number itself.
    pub fn into_f64(self) -> (r: Double)
        ensures
            r == self.0,
    {
        self.0
    }

    /// Nothing where the percentage equals `percentage`, and itself elsewhere.
    pub fn none_if(self, percentage: Double) -> (r: Option<Percentage>)
        ensures
            r == if self.0.equals(percentage) {
                None
            } else {
                Some(self)
            },
    {
        if self.0 == percentage {
            None
        } else {
            Some(self)
        }
    }
}

/// The number that lies `percentage` of the way from `low` to `high`.
pub open spec fn between(percentage: Double, low: Double, high: Double) -> Double {
    low.plus(percentage.times(high.minus(low)))
}

/// The number that lies `percentage` of the way from `low` to `high`.
pub fn range_inclusive(percentage: Double, low: Double, high: Double) -> (r: Double)
    ensures
        r == between(percentage, low, high),
{
    low.add(percentage.mul(high.sub(low)))
}

/// A number lies between zero and one exactly if its value does, and percentages are
/// equal exactly if they are numbers of the same value.
pub proof fn law_values(p: Percentage, q: Percentage)
    ensures
        p.0.in_unit() <==> !p.0.nan() && 0 <= p.0.value() <= pow2(1074),
        p.equals(q) <==> !p.0.nan() && !q.0.nan() && p.0.value() == q.0.value(),
{
    lemma_one();
}

/// A percentage between zero and one is still so when it is inverted.
pub proof fn law_invert_stays_in_range(p: Percentage)
    requires
        p.0.in_unit(),
    ensures
        p.inverted().0.in_unit(),
{
    let one = Double { bits: ONE_BITS };
    let zero = Double { bits: 0 };
    lemma_unit(p.0);
    lemma_minus(one, p.0);
    lemma_rounded_monotone(0, one.value() - p.0.value(), 1);
    lemma_rounded_monotone(one.value() - p.0.value(), one.value(), 1);
    lemma_rounded_exact(one, 1);
    lemma_rounded_exact(zero, 1);
}

/// The start is the inverse of the end, and the end that of the start.
pub proof fn law_invert_swaps_the_ends()
    ensures
        Percentage(Double { bits: 0 }).inverted() == Percentage(Double { bits: ONE_BITS }),
        Percentage(Double { bits: ONE_BITS }).inverted() == Percentage(Double { bits: 0 }),
{
    let one = Double { bits: ONE_BITS };
    let zero = Double { bits: 0 };
    lemma_one();
    lemma_pow2_pos(1074);
    lemma_negated(zero);
    lemma_negated(one);
    assert(zero.value() == 0 && zero.finite() && one.finite());
    lemma_nearest_exact(ONE_BITS as int, 1);
}

/// The further a percentage is, the less far is its inverse.
pub proof fn law_invert_reverses(p: Percentage, q: Percentage)
    requires
        p.0.up_to(q.0),
    ensures
        q.inverted().0.up_to(p.inverted().0),
{
    lemma_minus_order(p.0, q.0, Double { bits: ONE_BITS });
}

/// What it means to go a part of a way that is finite.
proof fn lemma_part(p: Double, low: Double, high: Double)
    requires
        p.in_unit(),
        low.finite(),
        high.finite(),
        high.minus(low).finite(),
    ensures
        ({
            let way = high.minus(low);
            let part = rounded(p.value() * way.value(), pow2(1074) as int);
            &&& !between(p, low, high).nan()
            &&& between(p, low, high).value() == rounded(low.value() + part, 1)
        }),
{
    let one = Double { bits: ONE_BITS };
    let zero = Double { bits: 0 };
    let way = high.minus(low);
    let w = pow2(1074) as int;
    lemma_unit(p);
    lemma_pow2_pos(1074);
    lemma_times(p, way);
    lemma_finite_value(way);
    lemma_rounded_exact(way, w);
    lemma_rounded_exact(zero, w);
    let (a, b) = (p.value(), way.value());
    assert(0 * w == 0) by (nonlinear_arith);
    if 0 <= b {
        assert(0 <= a * b <= b * w) by (nonlinear_arith)
            requires
                0 <= a <= w,
                0 <= b,
        ;
        lemma_rounded_monotone(0, a * b, w);
        lemma_rounded_monotone(a * b, b * w, w);
    } else {
        assert(b * w <= a * b <= 0) by (nonlinear_arith)
            requires
                0 <= a <= w,
                b < 0,
        ;
        lemma_rounded_monotone(b * w, a * b, w);
        lemma_rounded_monotone(a * b, 0, w);
    }
    lemma_finite(p.times(way));
    lemma_plus(low, p.times(way));
}

/// Who goes a larger part of the way comes at least as far, in the direction of
/// the way.
pub proof fn law_range_is_monotone(p: Double, q: Double, low: Double, high: Double)
    requires
        p.in_unit(),
        q.in_unit(),
        p.up_to(q),
        low.finite(),
        high.finite(),
        high.minus(low).finite(),
    ensures
        low.up_to(high) ==> between(p, low, high).up_to(between(q, low, high)),
        high.up_to(low) ==> between(q, low, high).up_to(between(p, low, high)),
{
    let way = high.minus(low);
    let zero = Double { bits: 0 };
    let w = pow2(1074) as int;
    lemma_pow2_pos(1074);
    lemma_part(p, low, high);
    lemma_part(q, low, high);
    lemma_minus(high, low);
    lemma_rounded_exact(zero, 1);
    let (a, b, d) = (p.value(), q.value(), way.value());
    if low.up_to(high) {
        lemma_rounded_monotone(0, high.value() - low.value(), 1);
        assert(a * d <= b * d) by (nonlinear_arith)
            requires
                a <= b,
                0 <= d,
        ;
        lemma_rounded_monotone(a * d, b * d, w);
        lemma_rounded_monotone(low.value() + rounded(a * d, w), low.value() + rounded(b * d, w), 1);
    }
    if high.up_to(low) {
        lemma_rounded_monotone(high.value() - low.value(), 0, 1);
        assert(b * d <= a * d) by (nonlinear_arith)
            requires
                a <= b,
                d <= 0,
        ;
        lemma_rounded_monotone(b * d, a * d, w);
        lemma_rounded_monotone(low.value() + rounded(b * d, w), low.value() + rounded(a * d, w), 1);
    }
}

/// The largest number below one.
proof fn lemma_below_one(p: Double)
    requires
        p.in_unit(),
        p.below(Double { bits: ONE_BITS }),
    ensures
        p.value() <= pow2(1074) - pow2(1021),
{
    let m = p.magnitude();
    lemma_one();
    lemma_pow2_pos(1074);
    lemma_magnitude_monotone(0, m);
    if ONE_BITS <= m {
        lemma_magnitude_monotone(ONE_BITS as int, m);
    }
    if p.negative() {
        lemma_pow2_adds(1021, 53);
        lemma_pow2_pos(53);
        let (a, b) = (pow2(1021) as int, pow2(53) as int);
        assert(a <= a * b) by (nonlinear_arith)
            requires
                0 <= a,
                1 <= b,
        ;
    } else {
        let f = FRACTIONS as int;
        lemma_magnitude_monotone(m, ONE_BITS - 1);
        lemma_magnitude_parts(1021, 2 * f - 1);
        vstd::arithmetic::power2::lemma2_to64_rest();
        lemma_pow2_adds(1021, 53);
        assert((2 * f - 1) * pow2(1021) == pow2(53) * pow2(1021) - pow2(1021)) by (nonlinear_arith)
            requires
                2 * f == pow2(53),
        ;
        assert(pow2(53) * pow2(1021) == pow2(1021) * pow2(53)) by (nonlinear_arith);
        assert(ONE_BITS - 1 == 1021 * FRACTIONS + (2 * f - 1));
    }
}

/// Less than the whole of a way that was rounded is not more than the way that
/// was not.
proof fn lemma_not_more(p: int, whole: int)
    requires
        0 <= p <= pow2(1074) - pow2(1021),
        0 <= whole,
    ensures
        ({
            let way = magnitude_value(nearest(whole, 1));
            magnitude_value(nearest(p * way, pow2(1074) as int)) <= whole
        }),
{
    let w = pow2(1074) as int;
    let m = nearest(whole, 1);
    let d = magnitude_value(m);
    let f = FRACTIONS as int;
    lemma_pow2_pos(1074);
    lemma_pow2_pos(1021);
    lemma_nearest(whole, 1);
    lemma_magnitude_monotone(0, m);
    assert(0 <= p * d <= d * w) by (nonlinear_arith)
        requires
            0 <= p <= w,
            0 <= d,
    ;
    let n = nearest(p * d, w);
    lemma_nearest(p * d, w);
    lemma_nearest_monotone(p * d, d * w, w);
    lemma_nearest_exact(m, w);
    lemma_magnitude_monotone(n, m);
    if whole < d {
        let (q, t) = lemma_magnitude_split(m);
        vstd::arithmetic::power2::lemma2_to64();
        vstd::arithmetic::power2::lemma2_to64_rest();
        if t == 0 {
            lemma_magnitude_parts(0, whole);
            lemma_nearest_exact(whole, 1);
            assert(q * pow2(0) == q && whole * pow2(0) == whole) by (nonlinear_arith)
                requires
                    pow2(0) == 1,
            ;
            assert(false);
        }
        lemma_pow2_unfold(t);
        lemma_pow2_pos((t - 1) as nat);
        lemma_pow2_adds(1021, 53);
        let (u, h, g) = (pow2(t) as int, pow2((t - 1) as nat) as int, pow2(1021) as int);
        assert(w == g * (2 * f));
        // The part falls short of the way by half a unit, or more.
        assert(p * d <= (d - h) * w && (f < q ==> p * d < (d - h) * w)) by (nonlinear_arith)
            requires
                d == q * u,
                u == 2 * h,
                0 < h,
                f <= q,
                w == g * (2 * f),
                0 < g,
                0 < f,
                0 <= p <= w - g,
        ;
        let before = magnitude_value(m - 1);
        if q == f {
            lemma_magnitude_parts(t - 1, 2 * f - 1);
            assert(m - 1 == (t - 1) * f + (2 * f - 1)) by (nonlinear_arith)
                requires
                    m == t * f + q,
                    q == f,
            ;
            assert((2 * f - 1) * h == d - h) by (nonlinear_arith)
                requires
                    d == f * (2 * h),
            ;
            lemma_nearest_monotone(p * d, before * w, w);
            lemma_nearest_exact(m - 1, w);
        } else {
            lemma_magnitude_parts(t as int, q - 1);
            assert((q - 1) * u == d - 2 * h) by (nonlinear_arith)
                requires
                    d == q * u,
                    u == 2 * h,
            ;
            if n == m {
                assert(distance(m, p * d, w) <= distance(m - 1, p * d, w));
                assert(before * w == d * w - 2 * (h * w) && (d - h) * w == d * w - h * w && 0 < h * w)
                    by (nonlinear_arith)
                    requires
                        before == d - 2 * h,
                        0 < h,
                        0 < w,
                ;
            }
        }
        lemma_magnitude_monotone(n, m - 1);
        lemma_magnitude_monotone(m - 1, m);
        assert(distance(m, whole, 1) <= distance(m - 1, whole, 1));
        assert(before <= whole);
    }
}

/// Who goes less than the whole way stays between its two ends, both included.
pub proof fn law_range_stays_within(p: Double, low: Double, high: Double)
    requires
        p.in_unit(),
        p.below(Double { bits: ONE_BITS }),
        low.finite(),
        high.finite(),
        high.minus(low).finite(),
    ensures
        low.up_to(high) ==> low.up_to(between(p, low, high)) && between(p, low, high).up_to(high),
        high.up_to(low) ==> high.up_to(between(p, low, high)) && between(p, low, high).up_to(low),
{
    let whole = high.value() - low.value();
    let way = high.minus(low).value();
    let w = pow2(1074) as int;
    let (part, sum) = (rounded(p.value() * way, w), low.value() + rounded(p.value() * way, w));
    let far = if whole < 0 {
        -whole
    } else {
        whole
    };
    let size = magnitude_value(nearest(far, 1));
    lemma_pow2_pos(1074);
    lemma_part(p, low, high);
    lemma_minus(high, low);
    lemma_below_one(p);
    lemma_not_more(p.value(), far);
    lemma_nearest(far, 1);
    lemma_magnitude_monotone(0, nearest(far, 1));
    let a = p.value();
    assert(0 <= a * size && a * (-size) == -(a * size)) by (nonlinear_arith)
        requires
            0 <= a,
            0 <= size,
    ;
    lemma_nearest(a * size, w);
    lemma_magnitude_monotone(0, nearest(a * size, w));
    lemma_nearest_exact(0, w);
    lemma_magnitude_monotone(0, 0);
    assert(0 * w == 0) by (nonlinear_arith);
    lemma_rounded_exact(low, 1);
    lemma_rounded_exact(high, 1);
    if 0 <= whole {
        lemma_rounded_monotone(low.value(), sum, 1);
        lemma_rounded_monotone(sum, high.value(), 1);
    } else {
        lemma_rounded_monotone(high.value(), sum, 1);
        lemma_rounded_monotone(sum, low.value(), 1);
    }
}

/// A range begins at `low`; and it ends at `high` where the difference of the
/// two is a double.
pub proof fn law_range_has_both_ends(low: Double, high: Double)
    requires
        low.finite(),
        high.finite(),
        high.minus(low).finite(),
    ensures
        between(Double { bits: 0 }, low, high).equals(low),
        high.minus(low).value() == high.value() - low.value() ==> between(
            Double { bits: ONE_BITS },
            low,
            high,
        ).equals(high),
{
    let one = Double { bits: ONE_BITS };
    let zero = Double { bits: 0 };
    let way = high.minus(low);
    let w = pow2(1074) as int;
    lemma_one();
    lemma_pow2_pos(1074);
    lemma_part(zero, low, high);
    lemma_part(one, low, high);
    lemma_rounded_exact(zero, w);
    lemma_rounded_exact(way, w);
    lemma_rounded_exact(low, 1);
    lemma_rounded_exact(high, 1);
    assert(0 * w == 0 && 0 * way.value() == 0 && w * way.value() == way.value() * w)
        by (nonlinear_arith);
}

impl PartialEq for Percentage {
    fn eq(&self, other: &Percentage) -> (r: bool) {
        self.0 == other.0
    }
}

impl vstd::std_specs::cmp::PartialEqSpecImpl for Percentage {
    open spec fn obeys_eq_spec() -> bool {
        true
    }

    open spec fn eq_spec(&self, other: &Percentage) -> bool {
        self.equals(*other)
    }
}

} // verus!
