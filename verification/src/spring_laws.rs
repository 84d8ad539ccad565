//! What holds of a spring over many frames, and at its first frame.

use crate::arithmetic::size;
use crate::double::{
    lemma_magnitude_monotone,
    lemma_magnitude_parts,
    lemma_one,
    magnitude_value,
    Double,
    FRACTIONS,
    INFINITE,
    ONE_BITS,
};
use crate::order::{
    lemma_finite,
    lemma_finite_value,
    lemma_minus,
    lemma_negated,
    lemma_over,
    lemma_plus,
    lemma_return,
    lemma_rounded_error,
    lemma_rounded_exact,
    lemma_rounded_monotone,
    lemma_times,
    lemma_unit,
    rounded,
};
use crate::percentage::Percentage;
use crate::spring::{
    lemma_advance,
    Oscillation,
    SpringRun,
    SpringView,
    Waves,
    MAX_STEPS_BITS,
    THOUSAND_BITS,
};
use vstd::arithmetic::power2::{lemma_pow2_adds, lemma_pow2_pos, lemma_pow2_unfold, pow2};
use vstd::prelude::*;

verus! {

impl SpringRun {
    /// The run after `time` has passed.
    pub open spec fn advanced(self, time: Double) -> SpringRun {
        SpringRun { last_time: self.clock(time), frame_time: self.seconds(time), ..self }
    }

    /// The run after it has been shown each of these times.
    pub open spec fn shown(self, times: Seq<Double>) -> SpringRun
        decreases times.len(),
    {
        if times.len() == 0 {
            self
        } else {
            self.shown(times.drop_last()).advanced(times.last())
        }
    }

    /// What the clock of the run makes of each of these times.
    pub open spec fn clocks(self, times: Seq<Double>) -> Seq<Double> {
        Seq::new(times.len(), |i: int| self.shown(times.take(i)).clock(times[i]))
    }
}

impl SpringView {
    /// The spring after it has been shown each of these times, with these waves.
    pub open spec fn ran(self, times: Seq<Double>, waves: Seq<Waves>) -> SpringView
        decreases times.len(),
    {
        if times.len() == 0 {
            self
        } else {
            let last = times.len() - 1;
            self.ran(times.drop_last(), waves).ticked(times[last], waves[last]).0
        }
    }
}

/// A spring follows its run: as long as it is under way, its run is the one that
/// was shown the same times.
pub proof fn law_run_is_followed(
    m: SpringView,
    run: SpringRun,
    times: Seq<Double>,
    waves: Seq<Waves>,
)
    requires
        m.animating == Some(run),
        m.ran(times, waves).animating is Some,
    ensures
        m.ran(times, waves).animating == Some(run.shown(times)),
    decreases times.len(),
{
    if times.len() > 0 {
        let before = m.ran(times.drop_last(), waves);
        assert(before.animating is Some);
        law_run_is_followed(m, run, times.drop_last(), waves);
    }
}

/// At each frame the clock shows the lesser of the time that has passed and of
/// what it showed before, and 64 milliseconds more. (The sum is rounded where it
/// is not a double.) So time that was lost is caught up later, by that step.
pub proof fn law_clock_over_frames(run: SpringRun, times: Seq<Double>, i: int)
    requires
        0 <= i < times.len(),
        run.last_time.finite(),
        forall|j: int| 0 <= j < times.len() ==> (#[trigger] times[j]).finite(),
    ensures
        ({
            let before = run.shown(times.take(i)).last_time.value();
            let limit = rounded(before + (Double { bits: MAX_STEPS_BITS }).value(), 1);
            &&& run.clocks(times)[i] == run.shown(times.take(i + 1)).last_time
            &&& run.clocks(times)[i].value() == if limit < times[i].value() {
                limit
            } else {
                times[i].value()
            }
        }),
{
    let before = run.shown(times.take(i));
    assert(times.take(i + 1).drop_last() =~= times.take(i));
    lemma_clock_is_finite(run, times, i);
    lemma_plus(before.last_time, Double { bits: MAX_STEPS_BITS });
}

/// The clock always shows a finite time.
proof fn lemma_clock_is_finite(run: SpringRun, times: Seq<Double>, i: int)
    requires
        0 <= i <= times.len(),
        run.last_time.finite(),
        forall|j: int| 0 <= j < times.len() ==> (#[trigger] times[j]).finite(),
    ensures
        run.shown(times.take(i)).last_time.finite(),
    decreases i,
{
    if i > 0 {
        assert(times.take(i).drop_last() =~= times.take(i - 1));
        lemma_clock_is_finite(run, times, i - 1);
        let before = run.shown(times.take(i - 1));
        let steps = Double { bits: MAX_STEPS_BITS };
        let time = times[i - 1];
        lemma_plus(before.last_time, steps);
        lemma_finite_value(time);
        if before.limit().below(time) {
            lemma_magnitude_monotone(0, MAX_STEPS_BITS as int);
            lemma_finite_value(before.last_time);
            lemma_rounded_monotone(
                before.last_time.value(),
                before.last_time.value() + steps.value(),
                1,
            );
            lemma_rounded_exact(before.last_time, 1);
            lemma_finite(before.limit());
        }
    }
}

/// A spring that is shown the times on its clock in place of the times that have
/// passed moves the same way.
pub proof fn law_clock_decides(
    m: SpringView,
    run: SpringRun,
    times: Seq<Double>,
    waves: Seq<Waves>,
)
    requires
        m.animating == Some(run),
        times.len() <= waves.len(),
    ensures
        m.ran(run.clocks(times), waves) == m.ran(times, waves),
        run.shown(run.clocks(times)) == run.shown(times),
    decreases times.len(),
{
    if times.len() > 0 {
        let front = times.drop_last();
        let clocks = run.clocks(times);
        let last = times.len() - 1;
        law_clock_decides(m, run, front, waves);
        assert(front =~= times.take(last));
        assert(clocks.drop_last() =~= run.clocks(front)) by {
            assert forall|i: int| 0 <= i < last implies clocks[i] == run.clocks(front)[i] by {
                assert(front.take(i) =~= times.take(i));
            }
        }
        let before = m.ran(front, waves);
        if before.animating is Some {
            law_run_is_followed(m, run, front, waves);
        }
    }
}

/// As many whole milliseconds as a clock shows that is shown these.
pub open spec fn caught_up(start: int, times: Seq<int>) -> int
    decreases times.len(),
{
    if times.len() == 0 {
        start
    } else {
        let limit = caught_up(start, times.drop_last()) + 64;
        if limit < times.last() {
            limit
        } else {
            times.last()
        }
    }
}

/// Whole milliseconds are exact: the clock shows the lesser of the time that has
/// passed and of what it showed before, and 64 milliseconds more. The frames at
/// 0, 10000 and 10016 are seen at 0, 64 and 128.
pub proof fn law_lost_time_is_caught_up(
    run: SpringRun,
    start: int,
    times: Seq<Double>,
    wholes: Seq<int>,
)
    requires
        times.len() == wholes.len(),
        !run.last_time.nan(),
        run.last_time.value() == start * pow2(1074),
        0 <= start <= 0x10_0000_0000_0000,
        forall|i: int|
            0 <= i < times.len() ==> {
                &&& !(#[trigger] times[i]).nan()
                &&& times[i].value() == wholes[i] * pow2(1074)
                &&& 0 <= wholes[i] <= 0x10_0000_0000_0000
            },
    ensures
        !run.shown(times).last_time.nan(),
        run.shown(times).last_time.value() == caught_up(start, wholes) * pow2(1074),
        0 <= caught_up(start, wholes) <= 0x10_0000_0000_0000,
    decreases times.len(),
{
    if times.len() > 0 {
        let front = times.drop_last();
        let last = times.len() - 1;
        assert forall|i: int| 0 <= i < front.len() implies {
            &&& !(#[trigger] front[i]).nan()
            &&& front[i].value() == wholes.drop_last()[i] * pow2(1074)
            &&& 0 <= wholes.drop_last()[i] <= 0x10_0000_0000_0000
        } by {
            assert(!times[i].nan());
        }
        law_lost_time_is_caught_up(run, start, front, wholes.drop_last());
        let before = run.shown(front);
        let c = caught_up(start, wholes.drop_last());
        lemma_limit(before, c);
        let (w, limit, time) = (pow2(1074) as int, c + 64, wholes[last]);
        assert(!times[last].nan());
        lemma_pow2_pos(1074);
        assert(limit * w < time * w <==> limit < time) by (nonlinear_arith)
            requires
                0 < w,
        ;
    }
}

/// The value of sixty-four.
pub proof fn lemma_steps()
    ensures
        (Double { bits: MAX_STEPS_BITS }).value() == 64 * pow2(1074),
{
    let f = FRACTIONS as int;
    vstd::arithmetic::power2::lemma2_to64();
    vstd::arithmetic::power2::lemma2_to64_rest();
    lemma_magnitude_parts(1028, f);
    assert(1028 * FRACTIONS + f == MAX_STEPS_BITS);
    lemma_pow2_adds(52, 1028);
    lemma_pow2_adds(6, 1074);
}

/// A clock that shows whole milliseconds is limited by whole milliseconds.
proof fn lemma_limit(run: SpringRun, c: int)
    requires
        !run.last_time.nan(),
        run.last_time.value() == c * pow2(1074),
        0 <= c <= 0x10_0000_0000_0000,
    ensures
        !run.limit().nan(),
        run.limit().value() == (c + 64) * pow2(1074),
{
    let w = pow2(1074) as int;
    let steps = Double { bits: MAX_STEPS_BITS };
    let f = FRACTIONS as int;
    lemma_pow2_pos(1074);
    vstd::arithmetic::power2::lemma2_to64();
    vstd::arithmetic::power2::lemma2_to64_rest();
    lemma_steps();
    lemma_pow2_adds(53, 1021);
    lemma_pow2_pos(1021);
    assert(2 * f <= w) by (nonlinear_arith)
        requires
            w == pow2(53) * pow2(1021),
            pow2(53) == 2 * f,
            1 <= pow2(1021),
            0 < f,
    ;
    assert((0 < c ==> w <= c * w) && w <= (c + 64) * w) by (nonlinear_arith)
        requires
            0 < w,
            0 <= c,
    ;
    let (m, n) = (lemma_whole(c, 1074), lemma_whole(c + 64, 1074));
    let (x, y) = (Double { bits: m as u64 }, Double { bits: n as u64 });
    assert(x.value() == c * w && y.value() == (c + 64) * w);
    lemma_finite_value(x);
    lemma_finite(run.last_time);
    assert((c + 64) * w == c * w + 64 * w) by (nonlinear_arith);
    lemma_plus(run.last_time, steps);
    lemma_rounded_exact(y, 1);
}

/// A whole number that is not too large is a double.
proof fn lemma_whole(q: int, t: nat) -> (m: int)
    requires
        0 <= q <= 2 * FRACTIONS,
        t <= 1074,
        2 * FRACTIONS <= q * pow2(t) || q == 0 || FRACTIONS <= q,
    ensures
        0 <= m < INFINITE,
        magnitude_value(m) == q * pow2(t),
    decreases t,
{
    let f = FRACTIONS as int;
    lemma_pow2_pos(t);
    if q == 0 {
        lemma_magnitude_monotone(0, 0);
        assert(q * pow2(t) == 0) by (nonlinear_arith)
            requires
                q == 0,
        ;
        0
    } else if f <= q {
        lemma_magnitude_parts(t as int, q);
        assert(0 <= t * f + q < INFINITE) by (nonlinear_arith)
            requires
                t <= 1074,
                f == 0x10_0000_0000_0000,
                0 <= q <= 2 * f,
                INFINITE == 0x7ff0_0000_0000_0000,
        ;
        t * f + q
    } else {
        vstd::arithmetic::power2::lemma2_to64();
        assert(t > 0) by {
            if t == 0 {
                assert(q * pow2(t) == q) by (nonlinear_arith)
                    requires
                        pow2(t) == 1,
                ;
            }
        }
        lemma_pow2_unfold(t);
        let (u, h) = (pow2(t) as int, pow2((t - 1) as nat) as int);
        assert((2 * q) * h == q * u) by (nonlinear_arith)
            requires
                u == 2 * h,
        ;
        lemma_whole(2 * q, (t - 1) as nat)
    }
}

impl SpringRun {
    /// How much the time that a spring has moved may be off after `time`, by the
    /// rounding of the three operations that lead to it. Counted in the unit in
    /// which `law_seconds_follow_the_clock` counts.
    pub open spec fn slip(self, time: Double) -> int {
        let (w, k) = (pow2(1074) as int, (Double { bits: THOUSAND_BITS }).value());
        let way = self.clock(time).minus(self.last_time);
        let delta = way.over(Double { bits: THOUSAND_BITS });
        k * (self.frame_time.value() + delta.value()) + (way.value() * w + FRACTIONS * k) + w * (
        self.clock(time).value() - self.last_time.value())
    }

    /// The same for each of these times.
    pub open spec fn slips(self, times: Seq<Double>) -> int
        decreases times.len(),
    {
        if times.len() == 0 {
            0
        } else {
            self.slips(times.drop_last()) + self.shown(times.drop_last()).slip(times.last())
        }
    }
}

/// One step of the clock, and of the time that the spring has moved.
proof fn lemma_slip(run: SpringRun, time: Double)
    requires
        run.last_time.finite(),
        run.last_time.nonnegative(),
        run.last_time.up_to(time),
        run.frame_time.finite(),
        run.frame_time.nonnegative(),
        time.finite(),
        run.seconds(time).finite(),
    ensures
        ({
            let (w, k) = (pow2(1074) as int, (Double { bits: THOUSAND_BITS }).value());
            let moved = run.seconds(time).value() - run.frame_time.value();
            let passed = run.clock(time).value() - run.last_time.value();
            2 * FRACTIONS * size(k * moved - w * passed) <= run.slip(time)
        }),
{
    let thousand = Double { bits: THOUSAND_BITS };
    let (w, k) = (pow2(1074) as int, thousand.value());
    let (now, last) = (run.clock(time), run.last_time);
    let way = now.minus(last);
    let delta = way.over(thousand);
    let (f, d, x) = (run.frame_time.value(), delta.value(), way.value());
    let (g, y) = (run.seconds(time).value(), now.value() - last.value());
    lemma_pow2_pos(1074);
    lemma_one();
    lemma_magnitude_monotone(ONE_BITS as int, THOUSAND_BITS as int);
    lemma_advance(run, time);
    lemma_minus(now, last);
    lemma_over(way, thousand);
    lemma_plus(run.frame_time, delta);
    lemma_finite_value(way);
    lemma_finite_value(delta);
    lemma_finite_value(run.seconds(time));
    lemma_rounded_error(y, 1);
    lemma_rounded_error(x * w, k);
    lemma_rounded_error(f + d, 1);
    let (r, s, t) = (g - (f + d), d * k - x * w, x - y);
    assert(k * (g - f) - w * y == k * r + s + w * t) by {
        assert(k * (g - f) == k * r + k * d) by (nonlinear_arith)
            requires
                r == g - (f + d),
        ;
        assert(w * x - w * y == w * t && w * x == x * w && k * d == d * k) by (nonlinear_arith)
            requires
                t == x - y,
        ;
    }
    let b = 2 * FRACTIONS as int;
    assert(b * size(k * r) <= k * (f + d)) by {
        lemma_scaled_size(b, k, r, f + d);
    }
    assert(b * size(w * t) <= w * y) by {
        lemma_scaled_size(b, w, t, y);
    }
    assert(0 <= x * w) by (nonlinear_arith)
        requires
            0 <= x,
            0 < w,
    ;
}

/// What is bounded is bounded as well when both are multiplied.
proof fn lemma_scaled_size(b: int, k: int, r: int, limit: int)
    requires
        0 < k,
        0 < b,
        b * size(r) <= limit,
    ensures
        b * size(k * r) <= k * limit,
{
    assert(size(k * r) == k * size(r)) by (nonlinear_arith)
        requires
            0 < k,
            size(r) == if r < 0 {
                -r
            } else {
                r
            },
            size(k * r) == if k * r < 0 {
                -(k * r)
            } else {
                k * r
            },
    ;
    let s = size(r);
    assert(b * (k * s) == k * (b * s)) by (nonlinear_arith);
    assert(k * (b * s) <= k * limit) by (nonlinear_arith)
        requires
            b * s <= limit,
            0 < k,
    ;
}

/// A spring has moved for a thousandth of what its clock has advanced by (the one
/// counts seconds, the other milliseconds), but for the rounding of each step.
pub proof fn law_seconds_follow_the_clock(run: SpringRun, times: Seq<Double>)
    requires
        run.last_time.finite(),
        run.last_time.nonnegative(),
        run.frame_time.finite(),
        run.frame_time.nonnegative(),
        forall|i: int| 0 <= i < times.len() ==> (#[trigger] times[i]).finite(),
        forall|i: int|
            0 <= i < times.len() ==> run.shown(times.take(i)).last_time.up_to(#[trigger] times[i]),
        forall|i: int|
            0 <= i <= times.len() ==> (#[trigger] run.shown(times.take(i))).frame_time.finite(),
    ensures
        ({
            let (w, k) = (pow2(1074) as int, (Double { bits: THOUSAND_BITS }).value());
            let moved = run.shown(times).frame_time.value() - run.frame_time.value();
            let passed = run.shown(times).last_time.value() - run.last_time.value();
            &&& k == 1000 * w
            &&& 2 * FRACTIONS * size(k * moved - w * passed) <= run.slips(times)
        }),
        run.shown(times).last_time.finite(),
        run.last_time.up_to(run.shown(times).last_time),
        run.frame_time.up_to(run.shown(times).frame_time),
    decreases times.len(),
{
    let (w, k) = (pow2(1074) as int, (Double { bits: THOUSAND_BITS }).value());
    lemma_thousand();
    assert(times.take(times.len() as int) =~= times);
    if times.len() > 0 {
        let front = times.drop_last();
        let n = times.len() - 1;
        let time = times[n];
        assert forall|i: int| 0 <= i < front.len() implies run.shown(
            front.take(i),
        ).last_time.up_to(#[trigger] front[i]) by {
            assert(front.take(i) =~= times.take(i));
            assert(times[i] == front[i]);
        }
        assert forall|i: int| 0 <= i <= front.len() implies (#[trigger] run.shown(
            front.take(i),
        )).frame_time.finite() by {
            assert(front.take(i) =~= times.take(i));
            assert(run.shown(times.take(i)).frame_time.finite());
        }
        law_seconds_follow_the_clock(run, front);
        assert(front =~= times.take(n));
        let before = run.shown(front);
        assert(before.last_time.up_to(times[n]));
        assert(run.shown(times.take(n + 1)).frame_time.finite());
        lemma_slip(before, time);
        lemma_advance(before, time);
        let after = run.shown(times);
        let (a, b, c) = (
            before.frame_time.value() - run.frame_time.value(),
            after.frame_time.value() - before.frame_time.value(),
            after.frame_time.value() - run.frame_time.value(),
        );
        let (x, y, z) = (
            before.last_time.value() - run.last_time.value(),
            after.last_time.value() - before.last_time.value(),
            after.last_time.value() - run.last_time.value(),
        );
        assert(k * c - w * z == (k * a - w * x) + (k * b - w * y)) by (nonlinear_arith)
            requires
                c == a + b,
                z == x + y,
        ;
    } else {
        assert(k * 0 - w * 0 == 0) by (nonlinear_arith);
    }
}

/// The value of a thousand.
pub proof fn lemma_thousand()
    ensures
        (Double { bits: THOUSAND_BITS }).value() == 1000 * pow2(1074),
{
    let q = 0x1f_4000_0000_0000int;
    vstd::arithmetic::power2::lemma2_to64();
    vstd::arithmetic::power2::lemma2_to64_rest();
    lemma_magnitude_parts(1031, q);
    assert(1031 * FRACTIONS + q == THOUSAND_BITS);
    lemma_pow2_adds(43, 1031);
    let (u, w) = (pow2(1031) as int, pow2(1074) as int);
    assert(q == 1000 * pow2(43));
    assert(q * u == 1000 * w) by (nonlinear_arith)
        requires
            q == 1000 * pow2(43),
            w == pow2(43) * u,
    ;
}

impl Waves {
    /// Whether these are the waves at time zero.
    pub open spec fn are_first(self) -> bool {
        &&& self.envelope.equals(Double { bits: ONE_BITS })
        &&& self.sin.equals(Double { bits: 0 })
        &&& self.cos.equals(Double { bits: ONE_BITS })
    }
}

impl Oscillation {
    /// How fast the spring would go on by its stretch alone.
    pub open spec fn pull(self, x0: Double) -> Double {
        if self.swings() {
            self.zeta.times(self.omega0).times(x0)
        } else {
            self.omega0.times(x0)
        }
    }

    /// Whether none of the numbers that make up the motion is too large for a
    /// double, and the spring has a frequency if it swings.
    pub open spec fn is_measurable(self, end: Double, x0: Double, v0: Double) -> bool {
        let push = v0.plus(self.pull(x0));
        &&& end.finite()
        &&& x0.finite()
        &&& v0.finite()
        &&& self.omega0.finite()
        &&& self.pull(x0).finite()
        &&& push.finite()
        &&& if self.swings() {
            &&& self.zeta.finite()
            &&& self.zeta.times(self.omega0).finite()
            &&& self.omega1.finite()
            &&& self.omega1.positive()
            &&& push.over(self.omega1).finite()
            &&& self.omega1.times(x0).finite()
        } else {
            self.omega0.times(self.omega0).finite()
        }
    }
}

/// A factor of one changes nothing.
proof fn lemma_unit_factor(x: Double, y: Double)
    requires
        x.finite(),
        y.equals(Double { bits: ONE_BITS }),
    ensures
        y.finite(),
        x.times(y).finite(),
        x.times(y).value() == x.value(),
        y.times(x).finite(),
        y.times(x).value() == x.value(),
{
    let w = pow2(1074) as int;
    lemma_pow2_pos(1074);
    lemma_one();
    lemma_unit(y);
    lemma_times(x, y);
    lemma_times(y, x);
    lemma_rounded_exact(x, w);
    let a = x.value();
    assert(a * w == w * a) by (nonlinear_arith);
    lemma_finite_value(x);
    lemma_finite(x.times(y));
    lemma_finite(y.times(x));
}

/// A factor of zero leaves nothing.
proof fn lemma_zero_factor(x: Double, z: Double)
    requires
        x.finite(),
        z.equals(Double { bits: 0 }),
    ensures
        z.finite(),
        x.times(z).finite(),
        x.times(z).value() == 0,
        z.times(x).finite(),
        z.times(x).value() == 0,
{
    let zero = Double { bits: 0 };
    let w = pow2(1074) as int;
    let a = x.value();
    lemma_pow2_pos(1074);
    lemma_magnitude_monotone(0, 0);
    lemma_finite_value(zero);
    lemma_finite(z);
    lemma_times(x, z);
    lemma_times(z, x);
    lemma_rounded_exact(zero, w);
    assert(a * 0 == 0 && 0 * a == 0 && 0 * w == 0) by (nonlinear_arith);
    lemma_finite(x.times(z));
    lemma_finite(z.times(x));
}

/// A term of zero changes nothing.
proof fn lemma_zero_term(x: Double, z: Double)
    requires
        x.finite(),
        z.finite(),
        z.value() == 0,
    ensures
        x.plus(z).finite(),
        x.plus(z).value() == x.value(),
        z.plus(x).finite(),
        z.plus(x).value() == x.value(),
        x.minus(z).finite(),
        x.minus(z).value() == x.value(),
{
    lemma_plus(x, z);
    lemma_plus(z, x);
    lemma_minus(x, z);
    lemma_rounded_exact(x, 1);
    lemma_finite_value(x);
    lemma_finite(x.plus(z));
    lemma_finite(z.plus(x));
    lemma_finite(x.minus(z));
}

/// Where the first frame finds a spring that swings.
proof fn lemma_first_place(ratio: Double, end: Double, x0: Double, waves: Waves)
    requires
        ratio.finite(),
        end.finite(),
        x0.finite(),
        waves.are_first(),
    ensures
        end.minus(waves.envelope.times(ratio.times(waves.sin).plus(x0.times(waves.cos)))).equals(
            end.minus(x0),
        ),
{
    let (e, s, c) = (waves.envelope, waves.sin, waves.cos);
    lemma_unit_factor(x0, c);
    lemma_zero_factor(ratio, s);
    lemma_zero_term(x0.times(c), ratio.times(s));
    let sum = ratio.times(s).plus(x0.times(c));
    lemma_unit_factor(sum, e);
    lemma_minus(end, e.times(sum));
    lemma_minus(end, x0);
}

/// What the first frame finds of the fading of a swing.
proof fn lemma_first_fading(
    omega1: Double,
    decay: Double,
    push: Double,
    x0: Double,
    waves: Waves,
)
    requires
        omega1.finite() && omega1.positive(),
        decay.finite() && push.finite() && x0.finite() && decay.times(x0).finite(),
        waves.are_first(),
    ensures
        ({
            let turned = waves.sin.times(push).over(omega1);
            let first = decay.times(waves.envelope).times(turned.plus(x0.times(waves.cos)));
            first.finite() && first.value() == decay.times(x0).value()
        }),
{
    let (e, s, c) = (waves.envelope, waves.sin, waves.cos);
    let zero = Double { bits: 0 };
    let w = pow2(1074) as int;
    lemma_magnitude_monotone(0, 0);
    lemma_unit_factor(x0, c);
    lemma_zero_factor(push, s);
    let none = s.times(push).over(omega1);
    lemma_over(s.times(push), omega1);
    lemma_rounded_exact(zero, omega1.value());
    assert(0 * w == 0 && 0 * omega1.value() == 0) by (nonlinear_arith);
    lemma_finite_value(zero);
    lemma_finite(none);
    lemma_zero_term(x0.times(c), none);
    let stretch = none.plus(x0.times(c));
    lemma_unit_factor(decay, e);
    lemma_times(decay.times(e), stretch);
    lemma_times(decay, x0);
    lemma_finite_value(decay.times(x0));
    lemma_finite(decay.times(e).times(stretch));
}

/// What the first frame finds of the turning of a swing.
proof fn lemma_first_turning(omega1: Double, push: Double, x0: Double, waves: Waves)
    requires
        push.finite() && omega1.times(x0).finite(),
        waves.are_first(),
    ensures
        ({
            let bent = omega1.times(x0).times(waves.sin);
            let second = waves.envelope.times(waves.cos.times(push).minus(bent));
            second.finite() && second.value() == push.value()
        }),
{
    let swing = omega1.times(x0);
    lemma_unit_factor(push, waves.cos);
    lemma_zero_factor(swing, waves.sin);
    lemma_zero_term(waves.cos.times(push), swing.times(waves.sin));
    lemma_unit_factor(waves.cos.times(push).minus(swing.times(waves.sin)), waves.envelope);
}

/// The first frame of a spring that swings.
proof fn lemma_first_swing(o: Oscillation, end: Double, x0: Double, v0: Double, waves: Waves)
    requires
        o.swings(),
        o.is_measurable(end, x0, v0),
        waves.are_first(),
    ensures
        ({
            let motion = o.motion(end, x0, v0);
            let (e, s, c) = (waves.envelope, waves.sin, waves.cos);
            let (pull, push) = (o.pull(x0), v0.plus(o.pull(x0)));
            &&& motion.swinging_value(e, s, c).equals(end.minus(x0))
            &&& motion.swinging_velocity(e, s, c).equals(pull.minus(push))
        }),
{
    let (e, s, c) = (waves.envelope, waves.sin, waves.cos);
    let decay = o.zeta.times(o.omega0);
    let (pull, push) = (decay.times(x0), v0.plus(decay.times(x0)));
    lemma_first_place(push.over(o.omega1), end, x0, waves);
    lemma_first_fading(o.omega1, decay, push, x0, waves);
    lemma_first_turning(o.omega1, push, x0, waves);
    let first = decay.times(e).times(s.times(push).over(o.omega1).plus(x0.times(c)));
    let second = e.times(c.times(push).minus(o.omega1.times(x0).times(s)));
    lemma_minus(first, second);
    lemma_minus(pull, push);
    assert(o.motion(end, x0, v0).swinging_velocity(e, s, c) == first.minus(second));
}

/// The first frame of a spring that does not swing.
proof fn lemma_first_fall(
    o: Oscillation,
    end: Double,
    x0: Double,
    v0: Double,
    time: Double,
    waves: Waves,
)
    requires
        !o.swings(),
        o.is_measurable(end, x0, v0),
        waves.are_first(),
        time.equals(Double { bits: 0 }),
    ensures
        o.motion(end, x0, v0).damped_value(waves.envelope, time).equals(end.minus(x0)),
        o.motion(end, x0, v0).damped_velocity(waves.envelope, time).equals(v0.negated()),
{
    let e = waves.envelope;
    let push = v0.plus(o.pull(x0));
    let one = Double { bits: ONE_BITS };
    let w = pow2(1074) as int;
    lemma_pow2_pos(1074);
    lemma_one();
    lemma_magnitude_monotone(0, 0);
    // Where it is.
    lemma_zero_factor(push, time);
    lemma_zero_term(x0, push.times(time));
    let sum = x0.plus(push.times(time));
    lemma_unit_factor(sum, e);
    lemma_minus(end, e.times(sum));
    lemma_minus(end, x0);
    // How fast it is.
    lemma_zero_factor(o.omega0, time);
    let back = time.times(o.omega0).minus(one);
    lemma_minus(time.times(o.omega0), one);
    lemma_negated(one);
    lemma_negated(v0);
    lemma_rounded_exact(one.negated(), 1);
    lemma_finite_value(one);
    lemma_finite(back);
    lemma_times(v0, back);
    lemma_rounded_exact(v0.negated(), w);
    let a = v0.value();
    assert(a * (-w) == (-a) * w) by (nonlinear_arith);
    lemma_finite_value(v0.negated());
    let turned = v0.times(back);
    lemma_finite(turned);
    lemma_zero_factor(x0, time);
    let square = o.omega0.times(o.omega0);
    lemma_zero_factor(square, time.times(x0));
    lemma_zero_term(turned, time.times(x0).times(square));
    lemma_unit_factor(turned.plus(time.times(x0).times(square)), e);
}

/// The first frame finds a spring where it was stretched to, and as fast as it
/// was to begin: `x0` from its end, and with the velocity `-v0`. What it is off by
/// comes from the rounding of one sum, and it is off by nothing where that sum is
/// a double, or where the spring does not swing.
pub proof fn law_first_frame(
    o: Oscillation,
    end: Double,
    x0: Double,
    v0: Double,
    time: Double,
    waves: Waves,
)
    requires
        o.is_measurable(end, x0, v0),
        waves.are_first(),
        time.equals(Double { bits: 0 }),
    ensures
        o.value(end, x0, v0, time, waves).equals(end.minus(x0)),
        ({
            let velocity = o.velocity(end, x0, v0, time, waves);
            let (pull, push) = (o.pull(x0), v0.plus(o.pull(x0)));
            &&& !velocity.nan()
            &&& !o.swings() ==> velocity.equals(v0.negated())
            &&& push.value() == v0.value() + pull.value() ==> velocity.equals(v0.negated())
            &&& FRACTIONS * size(velocity.value() + v0.value()) <= size(
                v0.value() + pull.value(),
            )
        }),
{
    let (pull, push) = (o.pull(x0), v0.plus(o.pull(x0)));
    lemma_negated(v0);
    lemma_plus(v0, pull);
    if o.swings() {
        lemma_first_swing(o, end, x0, v0, waves);
        lemma_minus(pull, push);
        lemma_return(pull.value(), v0, push);
    } else {
        lemma_first_fall(o, end, x0, v0, time, waves);
    }
}

/// A new run has not moved at time zero.
proof fn lemma_first_time(m: SpringView, reset_velocity: bool)
    ensures
        m.spring_run(reset_velocity).seconds(Double { bits: 0 }).equals(Double { bits: 0 }),
{
    let run = m.spring_run(reset_velocity);
    let zero = Double { bits: 0 };
    let steps = Double { bits: MAX_STEPS_BITS };
    lemma_magnitude_monotone(0, 0);
    lemma_magnitude_monotone(0, MAX_STEPS_BITS as int);
    lemma_plus(zero, steps);
    lemma_rounded_exact(steps, 1);
    lemma_thousand();
    lemma_pow2_pos(1074);
    let (w, k) = (pow2(1074) as int, (Double { bits: THOUSAND_BITS }).value());
    let way = zero.minus(zero);
    lemma_zero_term(zero, zero);
    lemma_over(way, Double { bits: THOUSAND_BITS });
    lemma_rounded_exact(zero, k);
    assert(0 * w == 0 && 0 * k == 0) by (nonlinear_arith);
    lemma_finite_value(zero);
    let delta = way.over(Double { bits: THOUSAND_BITS });
    lemma_finite(delta);
    lemma_zero_term(zero, delta);
}

/// A spring that is sent elsewhere on its way goes on continuously: the first
/// frame of the new run finds it where it was, and as fast as it was, but for the
/// rounding of one sum each. From there it goes to its new end.
pub proof fn law_goes_on_continuously(m: SpringView, end: Percentage, waves: Waves)
    requires
        m.playing,
        !m.end.equals(end),
        !m.value.equals(end),
        m.value.0.finite(),
        m.config.oscillation().is_measurable(
            end.0,
            end.0.minus(m.value.0),
            m.last_velocity.negated(),
        ),
        waves.are_first(),
        m.sent(end, false).0.ticked(Double { bits: 0 }, waves).1 is Keep,
    ensures
        ({
            let next = m.sent(end, false).0.ticked(Double { bits: 0 }, waves).0;
            let pull = m.config.oscillation().pull(end.0.minus(m.value.0));
            let (x, v) = (m.value.0.value(), m.last_velocity.value());
            &&& next.value.equals(Percentage(end.0.minus(end.0.minus(m.value.0))))
            &&& FRACTIONS * size(next.value.0.value() - x) <= size(end.0.value() - x)
            &&& !next.last_velocity.nan()
            &&& FRACTIONS * size(next.last_velocity.value() - v) <= size(pull.value() - v)
            &&& next.end == end
            &&& next.animating matches Some(run) && run.end == end.0 && run.start == m.value.0
        }),
{
    let o = m.config.oscillation();
    let n = m.sent(end, false).0;
    let run = n.spring_run(false);
    let zero = Double { bits: 0 };
    let (x0, v0) = (end.0.minus(m.value.0), m.last_velocity.negated());
    let time = run.seconds(zero);
    lemma_first_time(SpringView { end, ..m }, false);
    assert(n.animating == Some(run));
    lemma_negated(m.last_velocity);
    lemma_negated(m.value.0);
    law_first_frame(o, end.0, x0, v0, time, waves);
    lemma_minus(end.0, m.value.0);
    lemma_minus(end.0, x0);
    lemma_return(end.0.value(), m.value.0.negated(), x0);
}

/// At time zero a spring asks for the exponential function of zero, and, if it
/// swings, for the sine and the cosine of zero: the first waves.
pub proof fn law_first_waves(o: Oscillation, time: Double)
    requires
        o.omega0.finite(),
        o.swings() ==> o.zeta.finite() && o.zeta.times(o.omega0).finite() && o.omega1.finite(),
        time.equals(Double { bits: 0 }),
    ensures
        o.wave_inputs(time).decay.equals(Double { bits: 0 }),
        o.swings() ==> o.wave_inputs(time).angle.equals(Double { bits: 0 }),
{
    lemma_magnitude_monotone(0, 0);
    if o.swings() {
        let (a, b) = (o.zeta.value(), o.omega0.value());
        let turned = o.zeta.negated().times(o.omega0);
        lemma_negated(o.zeta);
        lemma_times(o.zeta, o.omega0);
        lemma_times(o.zeta.negated(), o.omega0);
        assert((-a) * b == -(a * b)) by (nonlinear_arith);
        lemma_finite_value(o.zeta.times(o.omega0));
        lemma_finite(turned);
        lemma_zero_factor(turned, time);
        lemma_zero_factor(o.omega1, time);
    } else {
        lemma_negated(o.omega0);
        lemma_zero_factor(o.omega0.negated(), time);
    }
}

/// A frame that does not bring a spring to rest moves it to where the formulas
/// find it at the time that it has moved, and makes it as fast as they find it.
pub proof fn law_frame_follows_the_formulas(
    m: SpringView,
    run: SpringRun,
    time: Double,
    waves: Waves,
)
    requires
        m.animating == Some(run),
        m.ticked(time, waves).1 is Keep,
    ensures
        ({
            let next = m.ticked(time, waves).0;
            let o = m.config.oscillation();
            let (x0, t) = (run.end.minus(run.start), run.seconds(time));
            let value = o.value(run.end, x0, run.velocity, t, waves);
            &&& next.last_velocity == o.velocity(run.end, x0, run.velocity, t, waves)
            &&& !value.nan() ==> next.value.equals(Percentage(value))
            &&& next.animating == Some(run.advanced(time))
        }),
{
}

} // verus!
