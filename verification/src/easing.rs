//! Curves that change the pace of an animation.

use crate::accuracy::near_product;
use crate::arithmetic::size;
use crate::double::{
    lemma_half,
    lemma_magnitude_monotone,
    lemma_one,
    Double,
    HALF_BITS,
    ONE_BITS,
    TWO_BITS,
};
use crate::order::{
    lemma_finite,
    lemma_finite_value,
    lemma_minus,
    lemma_negated,
    lemma_over,
    lemma_rounded_exact,
    lemma_rounded_monotone,
    lemma_signed,
    lemma_times,
    lemma_unit,
};
use crate::easing_laws::{is_rest, lemma_cube, lemma_near_rest};
use crate::percentage::{law_invert_stays_in_range, Percentage};
use crate::power::{lemma_raised, lemma_raised_one, lemma_raised_order};
use crate::rounding::{lemma_nearest, nearest};
use vstd::arithmetic::power2::{lemma_pow2_adds, lemma_pow2_pos, lemma_pow2_unfold, pow2};
use vstd::prelude::*;

verus! {

/// What a curve that eases in and out asks of the curve it is made of: up to
/// the middle it goes over it at twice the pace, and from there backwards.
pub open spec fn in_out_input(p: Percentage) -> Percentage {
    let (one, two) = (Double { bits: ONE_BITS }, Double { bits: TWO_BITS });
    if p.0.up_to(Double { bits: HALF_BITS }) {
        Percentage(p.0.times(two))
    } else {
        Percentage(one.minus(p.0).times(two))
    }
}

/// What a curve that eases in and out makes of the answer `y`: up to the middle
/// half of it, and from there on as much less than one.
pub open spec fn in_out_output(p: Percentage, y: Percentage) -> Percentage {
    let (one, two) = (Double { bits: ONE_BITS }, Double { bits: TWO_BITS });
    if p.0.up_to(Double { bits: HALF_BITS }) {
        Percentage(y.0.over(two))
    } else {
        Percentage(one.minus(y.0.over(two)))
    }
}

/// The power with the exponent `n`: the larger it is, the later the curve gets
/// going.
pub fn powi(p: Percentage, n: i32) -> (r: Percentage)
    ensures
        r == Percentage(p.0.power(n as int)),
{
    Percentage::new_unchecked(p.0.powi(n))
}

/// The third power.
pub fn cubic(p: Percentage) -> (r: Percentage)
    ensures
        r == Percentage(p.0.power(3)),
        p.0.in_unit() ==> exists|square: int|
            #[trigger] near_product(square, p.0.value(), p.0.value()) && near_product(
                r.0.value(),
                p.0.value(),
                square,
            ),
{
    proof {
        if p.0.in_unit() {
            lemma_cube(p);
        }
    }
    powi(p, 3)
}

/// The curve `f` backwards: where `f` eases in, this eases out.
pub fn out<F>(p: Percentage, f: F) -> (r: Percentage) where F: FnOnce(Percentage) -> Percentage
    requires
        call_requires(f, (p.inverted(),)),
    ensures
        exists|y: Percentage|
            #![trigger y.inverted()]
            call_ensures(f, (p.inverted(),), y) && r == y.inverted(),
        p.0.in_unit() ==> exists|x: Percentage, y: Percentage|
            #[trigger] call_ensures(f, (x,), y) && is_rest(x, p) && (y.0.in_unit() ==> is_rest(
                r,
                y,
            )),
{
    let y = f(p.invert());
    proof {
        if p.0.in_unit() {
            lemma_near_rest(p);
        }
        if y.0.in_unit() {
            lemma_near_rest(y);
        }
    }
    y.invert()
}

/// The curve `f` in the first half, and backwards in the second half.
pub fn in_out<F>(p: Percentage, f: F) -> (r: Percentage) where F: FnOnce(Percentage) -> Percentage
    requires
        call_requires(f, (in_out_input(p),)),
    ensures
        exists|y: Percentage|
            #![trigger in_out_output(p, y)]
            call_ensures(f, (in_out_input(p),), y) && r == in_out_output(p, y),
{
    let two = Double::from_bits(TWO_BITS);
    if p.0.at_most(Double::half()) {
        let y = f(Percentage::new_unchecked(p.0.mul(two)));
        let r = Percentage::new_unchecked(y.0.div(two));
        assert(r == in_out_output(p, y));
        r
    } else {
        let y = f(Percentage::new_unchecked(Double::one().sub(p.0).mul(two)));
        let r = Percentage::new_unchecked(Double::one().sub(y.0.div(two)));
        assert(r == in_out_output(p, y));
        r
    }
}

/// The value of two.
pub proof fn lemma_two()
    ensures
        (Double { bits: TWO_BITS }).finite(),
        (Double { bits: TWO_BITS }).value() == 2 * (Double { bits: ONE_BITS }).value(),
{
    lemma_one();
    let m = (Double { bits: TWO_BITS }).magnitude();
    assert(m == TWO_BITS && m / 0x10_0000_0000_0000 == 1024 && m % 0x10_0000_0000_0000 == 0);
    vstd::arithmetic::power2::lemma2_to64_rest();
    lemma_pow2_adds(52, 1023);
    lemma_pow2_unfold(1075);
}

/// Twice a number up to one half lies between zero and one.
proof fn lemma_twice(x: Double)
    requires
        x.finite(),
        0 <= x.value(),
        2 * x.value() <= (Double { bits: ONE_BITS }).value(),
    ensures
        x.times(Double { bits: TWO_BITS }).in_unit(),
{
    let (zero, one, two) = (
        Double { bits: 0 },
        Double { bits: ONE_BITS },
        Double { bits: TWO_BITS },
    );
    let w = pow2(1074) as int;
    lemma_pow2_pos(1074);
    lemma_one();
    lemma_two();
    lemma_times(x, two);
    let v = x.value();
    assert(0 * w <= v * (2 * w) <= w * w) by (nonlinear_arith)
        requires
            0 <= v,
            2 * v <= w,
            0 < w,
    ;
    lemma_rounded_monotone(0 * w, v * (2 * w), w);
    lemma_rounded_monotone(v * (2 * w), w * w, w);
    lemma_rounded_exact(zero, w);
    lemma_rounded_exact(one, w);
}

/// Half of a number between zero and one lies there too, and is at most one
/// half.
pub proof fn lemma_halved(x: Double)
    requires
        x.in_unit(),
    ensures
        x.over(Double { bits: TWO_BITS }).finite(),
        0 <= x.over(Double { bits: TWO_BITS }).value(),
        2 * x.over(Double { bits: TWO_BITS }).value() <= (Double { bits: ONE_BITS }).value(),
{
    let (zero, one, two, half) = (
        Double { bits: 0 },
        Double { bits: ONE_BITS },
        Double { bits: TWO_BITS },
        Double { bits: HALF_BITS },
    );
    let w = pow2(1074) as int;
    lemma_pow2_pos(1074);
    lemma_unit(x);
    lemma_two();
    lemma_half();
    lemma_over(x, two);
    let (v, h) = (x.value(), half.value());
    assert(0 * (2 * w) <= v * w <= h * (2 * w)) by (nonlinear_arith)
        requires
            0 <= v <= w,
            2 * h == w,
            0 < w,
    ;
    lemma_rounded_monotone(0 * (2 * w), v * w, 2 * w);
    lemma_rounded_monotone(v * w, h * (2 * w), 2 * w);
    lemma_rounded_exact(zero, 2 * w);
    lemma_rounded_exact(half, 2 * w);
    lemma_finite_value(half);
    lemma_finite(x.over(two));
}

/// One less a number up to one half lies between one half and one.
proof fn lemma_rest(x: Double)
    requires
        x.finite(),
        0 <= x.value(),
        2 * x.value() <= (Double { bits: ONE_BITS }).value(),
    ensures
        (Double { bits: ONE_BITS }).minus(x).in_unit(),
        (Double { bits: HALF_BITS }).up_to((Double { bits: ONE_BITS }).minus(x)),
{
    let (one, half) = (Double { bits: ONE_BITS }, Double { bits: HALF_BITS });
    lemma_half();
    lemma_one();
    lemma_minus(one, x);
    let v = one.value() - x.value();
    lemma_rounded_monotone(half.value(), v, 1);
    lemma_rounded_monotone(v, one.value(), 1);
    lemma_rounded_exact(half, 1);
    lemma_rounded_exact(one, 1);
}

/// A power of a percentage between zero and one lies there too, and with a
/// positive exponent it is not ahead of the percentage itself.
pub proof fn law_powi_stays_in_range(p: Percentage, n: int)
    requires
        p.0.in_unit(),
        0 <= n,
    ensures
        p.0.power(n).in_unit(),
        0 < n ==> p.0.power(n).up_to(p.0),
{
    lemma_unit(p.0);
    lemma_one();
    lemma_raised(Double { bits: ONE_BITS }, p.0, n as nat);
}

/// The further a percentage is, the further is its power.
pub proof fn law_powi_keeps_the_order(p: Percentage, q: Percentage, n: int)
    requires
        p.0.in_unit(),
        q.0.in_unit(),
        p.0.up_to(q.0),
        0 <= n,
    ensures
        p.0.power(n).up_to(q.0.power(n)),
{
    let one = Double { bits: ONE_BITS };
    lemma_unit(p.0);
    lemma_one();
    lemma_raised_order(one, p.0, one, q.0, n as nat);
}

/// A power with a positive exponent begins at zero and ends at one.
pub proof fn law_powi_keeps_the_ends(n: int)
    requires
        0 < n,
    ensures
        (Double { bits: 0 }).power(n).equals(Double { bits: 0 }),
        (Double { bits: ONE_BITS }).power(n).equals(Double { bits: ONE_BITS }),
{
    let (zero, one) = (Double { bits: 0 }, Double { bits: ONE_BITS });
    lemma_one();
    lemma_pow2_pos(1074);
    lemma_raised(one, zero, n as nat);
    lemma_raised_one(one, one, n as nat);
}

/// A curve that eases in and out asks only for percentages between zero and
/// one, and if the answer is one, gives only such: in the first half those up
/// to the middle, and in the second half those from there on.
pub proof fn law_in_out_stays_in_range(p: Percentage, y: Percentage)
    requires
        p.0.in_unit(),
        y.0.in_unit(),
    ensures
        in_out_input(p).0.in_unit(),
        in_out_output(p, y).0.in_unit(),
        p.0.up_to(Double { bits: HALF_BITS }) ==> in_out_output(p, y).0.up_to(
            Double { bits: HALF_BITS },
        ),
        !p.0.up_to(Double { bits: HALF_BITS }) ==> (Double { bits: HALF_BITS }).up_to(
            in_out_output(p, y).0,
        ),
{
    let (one, half, zero) = (
        Double { bits: ONE_BITS },
        Double { bits: HALF_BITS },
        Double { bits: 0 },
    );
    lemma_half();
    lemma_unit(p.0);
    lemma_halved(y.0);
    if p.0.up_to(half) {
        lemma_twice(p.0);
    } else {
        lemma_rest(y.0.over(Double { bits: TWO_BITS }));
        lemma_minus(one, p.0);
        let v = one.value() - p.0.value();
        lemma_rounded_monotone(0, v, 1);
        lemma_rounded_monotone(v, half.value(), 1);
        lemma_rounded_exact(zero, 1);
        lemma_rounded_exact(half, 1);
        lemma_finite_value(half);
        lemma_finite(one.minus(p.0));
        lemma_twice(one.minus(p.0));
    }
}

/// Numbers with the same sign and the same value are the same.
proof fn lemma_identical(x: Double, y: Double)
    requires
        x.value() == y.value(),
        x.negative() == y.negative(),
    ensures
        x == y,
{
    let (m, n) = (x.magnitude(), y.magnitude());
    if m < n {
        lemma_magnitude_monotone(m, n);
    } else if n < m {
        lemma_magnitude_monotone(n, m);
    }
    assert(x.bits == y.bits);
}

/// A curve that eases in and out is symmetric about its middle: seen from the
/// other end, it asks for the same and gives the rest to one. The percentage is one
/// that comes back when it is inverted twice; a negative zero does not, and a curve
/// may tell the two zeros apart.
pub proof fn law_in_out_is_symmetric(p: Percentage, y: Percentage)
    requires
        p.0.nonnegative(),
        !p.0.negative(),
        p.0.below(Double { bits: HALF_BITS }),
        p.inverted().inverted().equals(p),
    ensures
        in_out_input(p.inverted()) == in_out_input(p),
        in_out_output(p.inverted(), y) == in_out_output(p, y).inverted(),
{
    let (half, one) = (Double { bits: HALF_BITS }, Double { bits: ONE_BITS });
    let (q, back) = (p.inverted().0, p.inverted().inverted().0);
    lemma_half();
    lemma_one();
    lemma_pow2_pos(1074);
    lemma_unit(p.0);
    law_invert_stays_in_range(p);
    lemma_unit(q);
    // It lies in the other half.
    assert(!q.up_to(half)) by {
        lemma_minus(one, q);
        lemma_rounded_exact(half, 1);
        if q.up_to(half) {
            lemma_rounded_monotone(half.value(), one.value() - q.value(), 1);
        }
    }
    // It comes back as it was.
    lemma_minus(one, q);
    lemma_negated(q);
    lemma_magnitude_monotone(0, back.magnitude());
    let sum = one.value() - q.value();
    assert(!back.negative()) by {
        assert(0 <= sum);
        lemma_nearest(size(sum), 1);
        lemma_signed(false, nearest(size(sum), 1));
    }
    lemma_identical(back, p.0);
}

/// A curve that begins at zero and ends at one still does so, and is at one half
/// in the middle, when it eases in and out.
pub proof fn law_in_out_keeps_the_ends()
    ensures
        ({
            let zero = Percentage(Double { bits: 0 });
            let half = Percentage(Double { bits: HALF_BITS });
            let one = Percentage(Double { bits: ONE_BITS });
            &&& in_out_input(zero).equals(zero) && in_out_output(zero, zero).equals(zero)
            &&& in_out_input(half).equals(one) && in_out_output(half, one).equals(half)
            &&& in_out_input(one).equals(zero) && in_out_output(one, zero).equals(one)
        }),
{
    let (zero, half, one, two) = (
        Double { bits: 0 },
        Double { bits: HALF_BITS },
        Double { bits: ONE_BITS },
        Double { bits: TWO_BITS },
    );
    let w = pow2(1074) as int;
    lemma_pow2_pos(1074);
    lemma_one();
    lemma_half();
    lemma_two();
    lemma_minus(one, one);
    lemma_rounded_exact(zero, 1);
    lemma_rounded_exact(zero, w);
    lemma_rounded_exact(zero, 2 * w);
    lemma_rounded_exact(half, 2 * w);
    lemma_rounded_exact(one, 1);
    lemma_rounded_exact(one, w);
    let rest = one.minus(one);
    lemma_finite_value(one);
    lemma_finite(rest);
    lemma_times(zero, two);
    lemma_times(half, two);
    lemma_times(rest, two);
    lemma_over(zero, two);
    lemma_over(one, two);
    lemma_finite(zero.over(two));
    lemma_minus(one, zero.over(two));
    let h = half.value();
    assert(0 * w == 0 && 0 * (2 * w) == 0 && h * (2 * w) == w * w) by (nonlinear_arith)
        requires
            2 * h == w,
    ;
}

/// Doubling, halving and taking from one keep or reverse the order.
proof fn lemma_orders(x: Double, y: Double)
    requires
        x.in_unit(),
        y.in_unit(),
        x.up_to(y),
    ensures
        x.times(Double { bits: TWO_BITS }).up_to(y.times(Double { bits: TWO_BITS })),
        x.over(Double { bits: TWO_BITS }).up_to(y.over(Double { bits: TWO_BITS })),
        (Double { bits: ONE_BITS }).minus(y).up_to((Double { bits: ONE_BITS }).minus(x)),
{
    let (one, two) = (Double { bits: ONE_BITS }, Double { bits: TWO_BITS });
    let w = pow2(1074) as int;
    lemma_pow2_pos(1074);
    lemma_unit(x);
    lemma_unit(y);
    lemma_two();
    lemma_times(x, two);
    lemma_times(y, two);
    lemma_over(x, two);
    lemma_over(y, two);
    lemma_minus(one, x);
    lemma_minus(one, y);
    let (a, b) = (x.value(), y.value());
    assert(a * (2 * w) <= b * (2 * w) && a * w <= b * w) by (nonlinear_arith)
        requires
            a <= b,
            0 < w,
    ;
    lemma_rounded_monotone(a * (2 * w), b * (2 * w), w);
    lemma_rounded_monotone(a * w, b * w, 2 * w);
    lemma_rounded_monotone(w - b, w - a, 1);
}

/// A curve that does not turn back still does not when it eases in and out. In
/// the first half it asks for more as it goes on, and gives more where it is
/// given more; in the second half it asks for less, and gives more where it is
/// given less. What it gives in the first half is not more than what it gives in
/// the second half.
pub proof fn law_in_out_keeps_the_order(p: Percentage, q: Percentage, y: Percentage, z: Percentage)
    requires
        p.0.in_unit(),
        q.0.in_unit(),
        y.0.in_unit(),
        z.0.in_unit(),
        p.0.up_to(q.0),
    ensures
        ({
            let half = Double { bits: HALF_BITS };
            &&& q.0.up_to(half) ==> {
                &&& in_out_input(p).0.up_to(in_out_input(q).0)
                &&& y.0.up_to(z.0) ==> in_out_output(p, y).0.up_to(in_out_output(q, z).0)
            }
            &&& !p.0.up_to(half) ==> {
                &&& in_out_input(q).0.up_to(in_out_input(p).0)
                &&& z.0.up_to(y.0) ==> in_out_output(p, y).0.up_to(in_out_output(q, z).0)
            }
            &&& p.0.up_to(half) && !q.0.up_to(half) ==> in_out_output(p, y).0.up_to(
                in_out_output(q, z).0,
            )
        }),
{
    let (one, two) = (Double { bits: ONE_BITS }, Double { bits: TWO_BITS });
    law_in_out_stays_in_range(p, y);
    law_in_out_stays_in_range(q, z);
    lemma_orders(p.0, q.0);
    law_invert_stays_in_range(p);
    law_invert_stays_in_range(q);
    lemma_orders(one.minus(q.0), one.minus(p.0));
    lemma_halved(y.0);
    lemma_halved(z.0);
    if y.0.up_to(z.0) {
        lemma_orders(y.0, z.0);
    }
    if z.0.up_to(y.0) {
        lemma_orders(z.0, y.0);
        lemma_orders(z.0.over(two), y.0.over(two));
    }
}

} // verus!
