//! What the operations of an animation do, in terms of where it is, where it goes
//! and how long it takes.

use crate::accuracy::{
    law_difference,
    law_product,
    law_quotient,
    law_sum,
    near_product,
    near_quotient,
    near_sum,
};
use crate::animation::{law_lasts_as_long_as_its_duration, AnimationView, Tween};
use crate::arithmetic::size;
use crate::clock::Command;
use crate::double::{
    lemma_magnitude_monotone,
    lemma_one,
    magnitude_value,
    Double,
    FRACTIONS,
    INFINITE,
    ONE_BITS,
};
use crate::order::{
    lemma_finite,
    lemma_finite_value,
    lemma_minus,
    lemma_negated,
    lemma_over,
    lemma_plus,
    lemma_rounded_exact,
    lemma_rounded_monotone,
    lemma_signed,
    lemma_times,
    lemma_unit,
    rounded,
};
use crate::percentage::{law_range_stays_within, Percentage};
use vstd::arithmetic::power2::{lemma_pow2_pos, pow2};
use vstd::prelude::*;

verus! {

/// The absolute value of a product.
pub proof fn lemma_size_product(x: int, y: int)
    ensures
        size(x * y) == size(x) * size(y),
        0 <= size(x) * size(y),
{
    assert((0 <= x && 0 <= y ==> 0 <= x * y) && (x <= 0 && y <= 0 ==> 0 <= x * y) && (x <= 0 && 0
        <= y ==> x * y <= 0) && (0 <= x && y <= 0 ==> x * y <= 0)) by (nonlinear_arith);
    assert((-x) * y == -(x * y) && x * (-y) == -(x * y) && (-x) * (-y) == x * y)
        by (nonlinear_arith);
}

/// A factor that is not negative keeps the order.
pub proof fn lemma_scale_order(x: int, y: int, z: int)
    requires
        x <= y,
        0 <= z,
    ensures
        x * z <= y * z,
        z * x <= z * y,
{
    assert(x * z <= y * z && z * x <= z * y) by (nonlinear_arith)
        requires
            x <= y,
            0 <= z,
    ;
}

/// How long a run takes whose way is rounded, and whose duration is rounded again.
proof fn lemma_part_of_duration(t: int, d: int, way: int, duration: int)
    requires
        near_sum(d, way, 0),
        near_product(t, size(d), duration),
        0 <= duration,
    ensures
        2 * FRACTIONS * size(t * pow2(1074) - size(way) * duration) <= 3 * (size(way) * duration)
            + FRACTIONS * pow2(1074),
{
    let f = FRACTIONS as int;
    let (a, b) = (size(d), size(way));
    assert(a <= 2 * b);
    lemma_scale_order(a, 2 * b, duration);
    let r = a - b;
    assert(2 * f * size(r) <= b);
    assert(a * duration - b * duration == r * duration) by (nonlinear_arith)
        requires
            r == a - b,
    ;
    assert((2 * b) * duration == 2 * (b * duration)) by (nonlinear_arith);
    lemma_size_product(r, duration);
    lemma_size_product(a, duration);
    let s = size(r);
    lemma_scale_order(2 * f * s, b, duration);
    assert((2 * f * s) * duration == 2 * f * (s * duration)) by (nonlinear_arith);
}

/// A run takes the part of the duration that its way is of the whole way, but for
/// three parts in `2^53`, or half a unit. It takes a finite time unless its way or
/// that part is about as large as a double can be; between zero and one it takes no
/// more than the whole way. Where the whole way takes forever it takes forever.
pub open spec fn takes_its_part(tween: Tween, duration: Double) -> bool {
    let (s, e) = (tween.start.value(), tween.end.value());
    let (t, d) = (tween.duration.value(), duration.value());
    &&& tween.start.finite() && tween.end.finite() && duration.finite()
        && tween.duration.finite() ==> 2 * FRACTIONS * size(
        t * pow2(1074) - size(e - s) * d,
    ) <= 3 * (size(e - s) * d) + FRACTIONS * pow2(1074)
    &&& tween.start.finite() && tween.end.finite() && duration.finite()
        && !tween.duration.finite() ==> {
        ||| magnitude_value(INFINITE as int) <= 2 * size(e - s)
        ||| magnitude_value(INFINITE as int) * pow2(1074) <= 4 * (size(e - s) * d)
    }
    &&& tween.start.in_unit() && tween.end.in_unit() && duration.finite()
        ==> tween.duration.finite() && t <= d
    &&& tween.start.finite() && tween.end.finite() && duration.infinite()
        ==> tween.duration.infinite()
    &&& !tween.start.nan() && !tween.end.nan() && !tween.duration.nan() ==> 0 <= t
}

/// What a run from one number to another takes.
proof fn lemma_takes_its_part(start: Double, end: Double, duration: Double)
    requires
        duration.positive(),
        !start.equals(end),
    ensures
        takes_its_part(Tween::between(start, end, duration), duration),
{
    let tween = Tween::between(start, end, duration);
    let way = end.minus(start);
    let d = duration.value();
    lemma_magnitude_monotone(0, 0);
    lemma_magnitude_monotone(0, duration.magnitude());
    lemma_magnitude_monotone(0, way.magnitude());
    lemma_magnitude_monotone(0, tween.duration.magnitude());
    lemma_pow2_pos(1074);
    let zero = Double { bits: 0 };
    let abs = way.absolute();
    assert(abs.magnitude() == way.magnitude() && !abs.negative());
    assert(!duration.negative());
    lemma_signed(false, INFINITE as int);
    if start.in_unit() && end.in_unit() {
        lemma_unit(start);
        lemma_unit(end);
    }
    if start.finite() && end.finite() {
        law_difference(end, start, zero);
        if duration.finite() {
            if way.finite() {
                law_product(abs, duration, zero);
                let (a, b) = (size(way.value()), size(end.value() - start.value()));
                lemma_scale_order(a, 2 * b, d);
                lemma_size_product(a, d);
                assert((2 * b) * d == 2 * (b * d) && 0 * pow2(1074) == 0) by (nonlinear_arith);
                if tween.duration.finite() {
                    lemma_part_of_duration(
                        tween.duration.value(),
                        way.value(),
                        end.value() - start.value(),
                        d,
                    );
                }
            }
            if start.in_unit() && end.in_unit() {
                lemma_unit_part(start, end, duration);
            }
        } else {
            assert(way.magnitude() != 0) by {
                lemma_distinct(end, start);
            }
        }
    }
    assert(!tween.duration.nan() ==> 0 <= tween.duration.value()) by {
        lemma_nonnegative_product(abs, duration);
    }
}

/// A product of two numbers whose sign bits are clear has a clear sign bit, if it
/// is a number.
proof fn lemma_nonnegative_product(x: Double, y: Double)
    requires
        !x.negative(),
        !y.negative(),
    ensures
        !x.times(y).nan() ==> 0 <= x.times(y).value(),
{
    let r = x.times(y);
    let zero = Double { bits: 0 };
    lemma_magnitude_monotone(0, r.magnitude());
    if x.finite() && y.finite() {
        law_product(x, y, zero);
    } else {
        lemma_signed(false, INFINITE as int);
    }
}

/// Two numbers that are not equal differ by something.
proof fn lemma_distinct(x: Double, y: Double)
    requires
        x.finite(),
        y.finite(),
        !x.equals(y),
    ensures
        x.minus(y).magnitude() != 0,
{
    let zero = Double { bits: 0 };
    lemma_magnitude_monotone(0, 0);
    lemma_minus(x, y);
    let d = x.value() - y.value();
    // One unit in the right direction is nearer than nothing.
    let unit = if d < 0 {
        Double { bits: 0x8000_0000_0000_0001 }
    } else {
        Double { bits: 1 }
    };
    lemma_magnitude_monotone(0, 1);
    assert(magnitude_value(1) == 1);
    law_difference(x, y, unit);
}

/// A part of the way from zero to one takes no more than the whole way.
proof fn lemma_unit_part(start: Double, end: Double, duration: Double)
    requires
        start.in_unit(),
        end.in_unit(),
        duration.finite(),
        duration.positive(),
    ensures
        Tween::between(start, end, duration).duration.finite(),
        Tween::between(start, end, duration).duration.value() <= duration.value(),
{
    let w = pow2(1074) as int;
    let one = Double { bits: ONE_BITS };
    let way = end.minus(start);
    let abs = way.absolute();
    lemma_pow2_pos(1074);
    lemma_one();
    lemma_unit(start);
    lemma_unit(end);
    lemma_minus(end, start);
    lemma_negated(one);
    lemma_rounded_exact(one, 1);
    lemma_rounded_exact(one.negated(), 1);
    lemma_rounded_monotone(-w, end.value() - start.value(), 1);
    lemma_rounded_monotone(end.value() - start.value(), w, 1);
    lemma_finite_value(one);
    lemma_finite(way);
    lemma_magnitude_monotone(0, way.magnitude());
    assert(abs.finite() && 0 <= abs.value() <= w);
    lemma_times(abs, duration);
    let (a, d) = (abs.value(), duration.value());
    lemma_scale_order(a, w, d);
    assert(0 * d <= a * d && w * d == d * w) by (nonlinear_arith)
        requires
            0 <= a,
            0 <= d,
    ;
    lemma_rounded_monotone(0 * d, a * d, w);
    lemma_rounded_monotone(a * d, d * w, w);
    lemma_rounded_exact(duration, w);
    lemma_rounded_exact(Double { bits: 0 }, w);
    lemma_finite_value(duration);
    assert(0 * w == 0 && 0 * d == 0) by (nonlinear_arith);
    lemma_finite(abs.times(duration));
}

/// What an animation does that has been told where to go and how fast: it stays
/// where it is while it is paused, stops where it has arrived, and otherwise begins
/// a run from where it is to where it goes that takes its part of the duration, or
/// is there at once if that takes no time.
pub open spec fn sets_off(
    before: AnimationView,
    after: AnimationView,
    command: Command<Tween>,
) -> bool {
    &&& after.cell == before.cell
    &&& !after.playing ==> {
        &&& after.value == before.value
        &&& after.told == before.told
        &&& after.animating == before.animating
        &&& command is Keep
    }
    &&& after.playing && before.value.equals(after.end) ==> {
        &&& after.value == before.value
        &&& after.told == before.told
        &&& after.animating is None
        &&& command is Stop
    }
    &&& after.playing && !before.value.equals(after.end) && after.duration.positive() ==> {
        &&& after.value == before.value
        &&& after.told == before.told
        &&& command matches Command::Start(tween) && {
            &&& after.animating == Some(tween)
            &&& tween.start == before.value.0
            &&& tween.end == after.end.0
            &&& takes_its_part(tween, after.duration)
        }
    }
    &&& after.playing && !before.value.equals(after.end) && !after.duration.positive() ==> {
        &&& after.value == after.end
        &&& after.told == before.told + 1
        &&& after.animating is None
        &&& command is Stop
    }
}

/// An animation that is sent somewhere else sets off for there, at its pace. If the
/// way takes no time it is there at once, even while it is paused. It does nothing
/// if it goes there already.
pub proof fn law_animate_to(m: AnimationView, end: Percentage)
    ensures
        ({
            let (n, command) = m.sent(end);
            &&& n.playing == m.playing
            &&& n.duration == m.duration
            &&& m.end.equals(end) ==> n == m && command is Keep
            &&& !m.end.equals(end) ==> n.end == end
            &&& !m.end.equals(end) && !m.duration.nonpositive() ==> sets_off(m, n, command)
            &&& !m.end.equals(end) && m.duration.nonpositive() ==> {
                &&& n.animating is None
                &&& command is Stop
                &&& n.cell == m.cell
                &&& m.value.equals(end) ==> n.value == m.value && n.told == m.told
                &&& !m.value.equals(end) ==> n.value == end && n.told == m.told + 1
            }
        }),
{
    if !m.value.equals(end) && m.duration.positive() {
        lemma_takes_its_part(m.value.0, end.0, m.duration);
    }
}

/// An animation that gets another pace sets off at it, to where it goes. It does
/// nothing if it has this pace already.
pub proof fn law_set_duration(m: AnimationView, duration: Double)
    ensures
        ({
            let (n, command) = m.paced(duration);
            &&& n.playing == m.playing
            &&& n.end == m.end
            &&& m.duration.equals(duration) ==> n == m && command is Keep
            &&& !m.duration.equals(duration) ==> n.duration == duration && sets_off(m, n, command)
        }),
{
    if !m.value.equals(m.end) && duration.positive() {
        lemma_takes_its_part(m.value.0, m.end.0, duration);
    }
}

/// An animation that is paused stops, and keeps everything else.
pub proof fn law_pause(m: AnimationView)
    ensures
        ({
            let (n, command) = m.paused();
            &&& !n.playing
            &&& n.value == m.value && n.told == m.told && n.cell == m.cell
            &&& n.end == m.end && n.duration == m.duration
            &&& m.playing ==> n.animating is None && command is Stop
            &&& !m.playing ==> n.animating == m.animating && command is Keep
        }),
{
}

/// An animation that plays again sets off from where it is. It does nothing if it
/// plays already.
pub proof fn law_play(m: AnimationView)
    ensures
        ({
            let (n, command) = m.resumed();
            &&& n.playing
            &&& n.end == m.end && n.duration == m.duration
            &&& m.playing ==> n == m && command is Keep
            &&& !m.playing ==> sets_off(m, n, command)
        }),
{
    if !m.value.equals(m.end) && m.duration.positive() {
        lemma_takes_its_part(m.value.0, m.end.0, m.duration);
    }
}

/// An animation that jumps is there, and goes there; nothing is under way.
pub proof fn law_jump(m: AnimationView, end: Percentage)
    ensures
        ({
            let n = m.jumped(end);
            &&& n.playing == m.playing && n.duration == m.duration && n.cell == m.cell
            &&& n.end == end
            &&& n.animating is None
            &&& m.value.equals(end) ==> n.value == m.value && n.told == m.told
            &&& !m.value.equals(end) ==> n.value == end && n.told == m.told + 1
        }),
{
}

/// How far a position may be off that is found by a quotient, a difference, a
/// product and a sum, each rounded.
proof fn lemma_steady(s: int, e: int, t: int, len: int, q: int, d: int, part: int, p: int)
    requires
        0 < len,
        0 <= t <= len,
        0 <= q <= pow2(1074),
        near_quotient(q, t, len),
        near_sum(d, e, -s),
        near_product(part, q, d),
        near_sum(p, s, part),
        size(part) <= size(d),
    ensures
        2 * FRACTIONS * pow2(1074) * size(len * p - (s * len + t * (e - s))) <= len * (pow2(1074) * (
        size(s) + 7 * size(e - s) + FRACTIONS) + 2 * FRACTIONS * size(e - s)),
{
    let (f, w) = (FRACTIONS as int, pow2(1074) as int);
    let way = e - s;
    let (a, b) = (size(d), size(way));
    let (r1, r2, r3, r4) = (p - (s + part), part * w - q * d, q * len - t * w, d - way);
    let off = len * p - (s * len + t * way);
    lemma_pow2_pos(1074);
    assert(e + (-s) == way);
    assert(2 * FRACTIONS * size(d - way) <= b);
    assert(a <= 2 * b);
    assert(w * off == (w * len) * r1 + len * r2 + d * r3 + (t * w) * r4) by {
        let (x, y, z) = (len * p, s * len, t * way);
        assert(w * (x - (y + z)) == w * x - w * y - w * z) by (nonlinear_arith);
        assert(w * (len * p) == (w * len) * p) by (nonlinear_arith);
        assert(w * (s * len) == (w * len) * s) by (nonlinear_arith);
        assert(w * (t * way) == (t * w) * way) by (nonlinear_arith);
        assert((w * len) * r1 == (w * len) * p - (w * len) * s - (w * len) * part)
            by (nonlinear_arith)
            requires
                r1 == p - (s + part),
        ;
        assert(len * r2 == (w * len) * part - (q * len) * d) by (nonlinear_arith)
            requires
                r2 == part * w - q * d,
        ;
        assert(d * r3 == (q * len) * d - (t * w) * d) by (nonlinear_arith)
            requires
                r3 == q * len - t * w,
        ;
        assert((t * w) * r4 == (t * w) * d - (t * w) * way) by (nonlinear_arith)
            requires
                r4 == d - way,
        ;
    }
    let two = 2 * f;
    assert(0 <= w * len && 0 <= t * w && t * w <= len * w && len * w == w * len) by (nonlinear_arith)
        requires
            0 <= t <= len,
            0 < w,
    ;
    let wl = w * len;
    // First the sum,
    assert(two * size(wl * r1) <= wl * (size(s) + a)) by {
        lemma_size_product(wl, r1);
        lemma_times_bound(two, wl, size(r1), size(s) + a);
    }
    // then the product,
    assert(two * size(len * r2) <= wl * a + wl * f) by {
        lemma_size_product(len, r2);
        lemma_size_product(q, d);
        lemma_scale_order(q, w, a);
        lemma_times_bound(two, len, size(r2), w * a + f * w);
        assert(len * (w * a + f * w) == wl * a + wl * f) by (nonlinear_arith)
            requires
                wl == w * len,
        ;
    }
    // then the quotient,
    assert(two * size(d * r3) <= wl * a + (f * len) * a) by {
        lemma_size_product(d, r3);
        lemma_times_bound(two, a, size(r3), wl + f * len);
        assert(a * (wl + f * len) == wl * a + (f * len) * a) by (nonlinear_arith);
    }
    // and the difference.
    assert(two * size((t * w) * r4) <= wl * b) by {
        let tw = t * w;
        lemma_size_product(tw, r4);
        lemma_times_bound(two, tw, size(r4), b);
        lemma_scale_order(tw, wl, b);
    }
    lemma_size_product(w, off);
    let total = wl * (size(s) + a) + (wl * a + wl * f) + (wl * a + (f * len) * a) + wl * b;
    assert(two * (w * size(off)) <= total) by {
        let (x1, x2, x3, x4) = (wl * r1, len * r2, d * r3, (t * w) * r4);
        assert(size(x1 + x2 + x3 + x4) <= size(x1) + size(x2) + size(x3) + size(x4));
    }
    assert(total <= wl * (size(s) + 7 * b + f) + (2 * f) * (len * b)) by {
        lemma_scale_order(a, 2 * b, wl);
        lemma_scale_order(a, 2 * b, f * len);
        let c = size(s);
        assert(wl * (c + a) == wl * c + wl * a) by (nonlinear_arith);
        assert(wl * (c + 7 * b + f) == wl * c + 7 * (wl * b) + wl * f) by (nonlinear_arith);
        assert(wl * (2 * b) == 2 * (wl * b)) by (nonlinear_arith);
        assert((f * len) * (2 * b) == (2 * f) * (len * b)) by (nonlinear_arith);
    }
    assert(two * (w * size(off)) == 2 * f * w * size(off)) by (nonlinear_arith)
        requires
            two == 2 * f,
    ;
    let (c, g) = (size(s) + 7 * b + f, 2 * f);
    assert(wl * c + g * (len * b) == len * (w * c + g * b)) by (nonlinear_arith)
        requires
            wl == w * len,
    ;
}

/// What is bounded is bounded as well when both are multiplied.
proof fn lemma_times_bound(two: int, k: int, r: int, limit: int)
    requires
        0 <= k,
        two * r <= limit,
    ensures
        two * (k * r) <= k * limit,
{
    lemma_scale_order(two * r, limit, k);
    assert(k * (two * r) == two * (k * r)) by (nonlinear_arith);
}

/// Whether the time and the duration of a run can be told apart: both are numbers,
/// and not both are zero, or infinite.
pub open spec fn is_timed(tween: Tween, time: Double) -> bool {
    &&& !time.nan()
    &&& !tween.duration.nan()
    &&& !tween.duration.negative()
    &&& !(tween.duration.is_zero() && time.is_zero())
    &&& !(tween.duration.infinite() && time.infinite())
}

/// A run moves at a steady pace. At each frame before it is over it is as far on its
/// way as the time is in its duration: at `start + (time / duration) * (end -
/// start)`, but for the rounding of the quotient, the difference, the product and
/// the sum. A run that takes forever stays at its start. From its duration on it is
/// over, and the animation at its end. Nothing else of the animation changes.
pub proof fn law_frame(m: AnimationView, tween: Tween, time: Double)
    requires
        m.animating == Some(tween),
    ensures
        ({
            let (n, command) = m.ticked(time);
            let (s, e) = (tween.start.value(), tween.end.value());
            let (t, len) = (time.value(), tween.duration.value());
            &&& n.playing == m.playing && n.duration == m.duration && n.end == m.end
            &&& n.cell == m.cell
            &&& m.value.equals(n.value) ==> n.told == m.told
            &&& n.told == m.told ==> n.value == m.value
            &&& n.told == m.told || n.told == m.told + 1
            &&& is_timed(tween, time) && len <= t ==> {
                &&& command is Stop
                &&& n.animating is None
                &&& !tween.end.nan() ==> n.value.0.equals(tween.end)
            }
            &&& is_timed(tween, time) && t < len ==> command is Keep && n.animating == m.animating
            &&& tween.start.finite() && tween.end.finite() && tween.end.minus(
                tween.start,
            ).finite() && tween.duration.finite() && time.finite() && 0 <= t < len ==> {
                &&& n.value.0.finite()
                &&& 2 * FRACTIONS * pow2(1074) * size(
                    len * n.value.0.value() - (s * len + t * (e - s)),
                ) <= len * (pow2(1074) * (size(s) + 7 * size(e - s) + FRACTIONS) + 2 * FRACTIONS
                    * size(e - s))
            }
            &&& tween.start.finite() && tween.end.finite() && tween.end.minus(
                tween.start,
            ).finite() && tween.duration.positive() && tween.duration.infinite() && time.finite()
                ==> n.value.0.equals(tween.start)
        }),
{
    let (n, command) = m.ticked(time);
    let (t, len) = (time.value(), tween.duration.value());
    if is_timed(tween, time) {
        law_lasts_as_long_as_its_duration(tween, time);
    }
    if tween.duration.positive() {
        lemma_magnitude_monotone(0, tween.duration.magnitude());
        lemma_magnitude_monotone(0, 0);
    }
    if tween.start.finite() && tween.end.finite() && tween.end.minus(tween.start).finite() {
        if tween.duration.finite() && time.finite() && 0 <= t < len {
            lemma_steady_position(tween, time);
            let p = tween.position(time).0;
            assert(n.value.0.equals(p));
            lemma_finite_value(p);
            lemma_finite(n.value.0);
        }
        if tween.duration.positive() && tween.duration.infinite() && time.finite() {
            lemma_finite_value(time);
            lemma_magnitude_monotone(0, INFINITE as int);
            lemma_still_position(tween, time);
        }
    }
}

/// Where a run is after `t` of `len`, by way of these results:
/// `start + (t / len) * (end - start)`.
pub open spec fn is_on_its_way(
    position: int,
    start: int,
    end: int,
    t: int,
    len: int,
    progress: int,
    way: int,
    part: int,
) -> bool {
    &&& near_quotient(progress, t, len)
    &&& near_sum(way, end, -start)
    &&& near_product(part, progress, way)
    &&& near_sum(position, start, part)
}

/// At each frame before it is over, even one before its time, a run is found where the
/// formula says, but for the rounding of each operation.
pub proof fn law_frame_by_the_formula(m: AnimationView, tween: Tween, time: Double)
    requires
        m.animating == Some(tween),
        tween.start.finite(),
        tween.end.finite(),
        tween.duration.finite(),
        tween.duration.positive(),
        time.finite(),
        time.value() < tween.duration.value(),
        time.over(tween.duration).finite(),
        tween.end.minus(tween.start).finite(),
        time.over(tween.duration).times(tween.end.minus(tween.start)).finite(),
    ensures
        !m.ticked(time).0.value.0.nan(),
        m.ticked(time).0.value.0.finite() ==> exists|progress: int, way: int, part: int|
            is_on_its_way(
                m.ticked(time).0.value.0.value(),
                tween.start.value(),
                tween.end.value(),
                time.value(),
                tween.duration.value(),
                progress,
                way,
                part,
            ),
{
    let n = m.ticked(time).0;
    let progress = time.over(tween.duration);
    let way = tween.end.minus(tween.start);
    let part = progress.times(way);
    let p = tween.start.plus(part);
    lemma_magnitude_monotone(0, 0);
    assert(is_timed(tween, time)) by {
        lemma_magnitude_monotone(0, tween.duration.magnitude());
    }
    law_lasts_as_long_as_its_duration(tween, time);
    law_quotient(time, tween.duration, time);
    law_difference(tween.end, tween.start, time);
    law_product(progress, way, time);
    law_sum(tween.start, part, time);
    assert(!tween.is_over(time));
    assert(tween.position(time) == Percentage(p));
    assert(n.value.0.equals(p));
    if n.value.0.finite() {
        lemma_finite_value(n.value.0);
        lemma_finite(p);
        assert(is_on_its_way(
            n.value.0.value(),
            tween.start.value(),
            tween.end.value(),
            time.value(),
            tween.duration.value(),
            progress.value(),
            way.value(),
            part.value(),
        ));
    }
}

/// Where a run is that has some of its duration behind it.
proof fn lemma_steady_position(tween: Tween, time: Double)
    requires
        tween.start.finite(),
        tween.end.finite(),
        tween.end.minus(tween.start).finite(),
        tween.duration.finite(),
        time.finite(),
        0 <= time.value() < tween.duration.value(),
    ensures
        ({
            let (s, e) = (tween.start.value(), tween.end.value());
            let (t, len, p) = (time.value(), tween.duration.value(), tween.position(time).0);
            &&& !tween.is_over(time)
            &&& p.finite()
            &&& 2 * FRACTIONS * pow2(1074) * size(len * p.value() - (s * len + t * (e - s))) <= len
                * (pow2(1074) * (size(s) + 7 * size(e - s) + FRACTIONS) + 2 * FRACTIONS * size(
                e - s,
            ))
        }),
{
    let zero = Double { bits: 0 };
    let (w, len) = (pow2(1074) as int, tween.duration.value());
    let (q, d) = (tween.progress(time), tween.end.minus(tween.start));
    lemma_pow2_pos(1074);
    lemma_one();
    lemma_magnitude_monotone(0, 0);
    law_lasts_as_long_as_its_duration(tween, time);
    lemma_over(time, tween.duration);
    lemma_rounded_exact(zero, len);
    let t = time.value();
    assert(0 * len <= t * w && 0 * len == 0) by (nonlinear_arith)
        requires
            0 <= t,
            0 < w,
    ;
    lemma_rounded_monotone(0 * len, t * w, len);
    assert(0 <= q.value() < w);
    lemma_finite_value(Double { bits: ONE_BITS });
    lemma_finite(q);
    law_quotient(time, tween.duration, zero);
    law_difference(tween.end, tween.start, zero);
    let part = q.times(d);
    lemma_times(q, d);
    lemma_finite_value(d);
    let (a, b) = (q.value(), d.value());
    assert(size(part.value()) <= size(b)) by {
        lemma_rounded_exact(d, w);
        lemma_rounded_exact(zero, w);
        assert(0 * w == 0) by (nonlinear_arith);
        if 0 <= b {
            assert(0 <= a * b <= b * w) by (nonlinear_arith)
                requires
                    0 <= a <= w,
                    0 <= b,
            ;
            lemma_rounded_monotone(0, a * b, w);
            lemma_rounded_monotone(a * b, b * w, w);
        } else {
            assert(b * w <= a * b <= 0) by (nonlinear_arith)
                requires
                    0 <= a <= w,
                    b < 0,
            ;
            lemma_rounded_monotone(b * w, a * b, w);
            lemma_rounded_monotone(a * b, 0, w);
        }
    }
    lemma_finite(part);
    law_product(q, d, zero);
    let p = tween.start.plus(part);
    law_range_stays_within(q, tween.start, tween.end);
    lemma_finite_value(tween.start);
    lemma_finite_value(tween.end);
    lemma_finite(p);
    law_sum(tween.start, part, zero);
    lemma_steady(
        tween.start.value(),
        tween.end.value(),
        t,
        len,
        q.value(),
        d.value(),
        part.value(),
        p.value(),
    );
}

/// Where a run is that takes forever.
proof fn lemma_still_position(tween: Tween, time: Double)
    requires
        tween.start.finite(),
        tween.end.finite(),
        tween.end.minus(tween.start).finite(),
        tween.duration.infinite(),
        time.finite(),
    ensures
        tween.position(time).0.equals(tween.start),
{
    let zero = Double { bits: 0 };
    let (q, d) = (tween.progress(time), tween.end.minus(tween.start));
    let w = pow2(1074) as int;
    lemma_pow2_pos(1074);
    lemma_magnitude_monotone(0, 0);
    lemma_signed(time.negative() != tween.duration.negative(), 0);
    assert(q.finite() && q.value() == 0);
    lemma_times(q, d);
    let b = d.value();
    assert(0 * b == 0 && 0 * w == 0) by (nonlinear_arith);
    lemma_rounded_exact(zero, w);
    lemma_finite_value(zero);
    lemma_finite(q.times(d));
    lemma_plus(tween.start, q.times(d));
    lemma_rounded_exact(tween.start, 1);
}

/// An animation that has nothing under way is not moved by a frame.
pub proof fn law_frame_at_rest(m: AnimationView, time: Double)
    requires
        m.animating is None,
    ensures
        m.ticked(time).0 == m,
        m.ticked(time).1 is Keep,
{
}

} // verus!
