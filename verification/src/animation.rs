//! An animation that moves at a steady pace.

use crate::cell::{reported_cell, PercentageCell};
use crate::clock::Command;
use crate::double::{
    lemma_magnitude_monotone,
    lemma_magnitude_parts,
    lemma_magnitude_split,
    lemma_one,
    magnitude_value,
    Double,
    FRACTIONS,
    INFINITE,
    ONE_BITS,
};
use crate::order::{
    lemma_finite,
    lemma_finite_value,
    lemma_minus,
    lemma_negated,
    lemma_over,
    lemma_rounded_exact,
    lemma_rounded_monotone,
    lemma_signed,
    lemma_unit,
};
use crate::percentage::{
    between,
    law_range_is_monotone,
    law_range_stays_within,
    range_inclusive,
    Percentage,
};
use futures_signals::signal::MutableSignal;
use vstd::arithmetic::power2::{lemma_pow2_adds, lemma_pow2_pos, lemma_pow2_unfold, pow2};
use vstd::prelude::*;

verus! {

/// One uninterrupted run of an animation from `start` to `end`, which takes as
/// long as `duration`.
#[derive(Clone, Copy, Debug, PartialEq)]
pub struct Tween {
    pub start: Double,
    pub end: Double,
    pub duration: Double,
}

impl Tween {
    /// The run from `start` to `end`, if the whole way from `0.0` to `1.0` takes
    /// `duration`.
    pub open spec fn between(start: Double, end: Double, duration: Double) -> Tween {
        Tween { start, end, duration: end.minus(start).absolute().times(duration) }
    }

    /// Which part of the run has passed after `time`.
    pub open spec fn progress(self, time: Double) -> Double {
        time.over(self.duration)
    }

    /// Whether all of the run has passed after `time`.
    pub open spec fn is_over(self, time: Double) -> bool {
        (Double { bits: ONE_BITS }).up_to(self.progress(time))
    }

    /// Where the run is after `time`, before it is over.
    pub open spec fn position(self, time: Double) -> Percentage {
        Percentage(between(self.progress(time), self.start, self.end))
    }
}

/// A signal of where an animation is.
pub struct MutableAnimationSignal(pub MutableSignal<Percentage>);

/// An animation: whether it is playing, its pace, where it goes, the run that
/// is under way, and where it is.
pub struct MutableAnimation {
    playing: bool,
    duration: Double,
    end: Percentage,
    animating: Option<Tween>,
    value: PercentageCell,
}

/// What there is to know of a `MutableAnimation`.
pub struct AnimationView {
    pub playing: bool,
    pub duration: Double,
    pub end: Percentage,
    pub animating: Option<Tween>,
    pub value: Percentage,
    /// The cell that the signals of the animation report on.
    pub cell: int,
    /// How often these signals have been told of a change.
    pub told: nat,
}

impl View for MutableAnimation {
    type V = AnimationView;

    closed spec fn view(&self) -> AnimationView {
        AnimationView {
            playing: self.playing,
            duration: self.duration,
            end: self.end,
            animating: self.animating,
            value: self.value@,
            cell: self.value.id(),
            told: self.value.told(),
        }
    }
}

impl AnimationView {
    /// An animation is under way only while it plays, at the pace and to the
    /// end that are set, and from somewhere else. An animation that plays and
    /// is not under way has arrived (an end that is not a number is never
    /// arrived at).
    pub open spec fn wf(self) -> bool {
        &&& self.animating matches Some(tween) ==> {
            &&& self.playing
            &&& self.duration.positive()
            &&& tween == Tween::between(tween.start, self.end.0, self.duration)
            &&& !tween.start.equals(tween.end)
        }
        &&& self.playing && self.animating is None ==> self.value.equals(self.end)
            || self.end.0.nan()
    }

    /// The animation with nothing under way.
    pub open spec fn stopped(self) -> AnimationView {
        AnimationView { animating: None, ..self }
    }

    /// The animation moved to `value`.
    pub open spec fn moved(self, value: Percentage) -> AnimationView {
        AnimationView {
            value: PercentageCell::after_set(self.value, value),
            told: PercentageCell::told_after_set(self.told, self.value, value),
            ..self
        }
    }

    /// The animation moved to `end` at once, with nothing under way.
    pub open spec fn jumped(self, end: Percentage) -> AnimationView {
        (AnimationView { end, ..self }).stopped().moved(end)
    }

    /// The run from where the animation is to where it goes.
    pub open spec fn tween(self) -> Tween {
        Tween::between(self.value.0, self.end.0, self.duration)
    }

    /// The animation set going, and what becomes of its clock. A paused
    /// animation stays where it is, one that has arrived stops, one that takes
    /// no time jumps, and any other begins a run.
    pub open spec fn started(self) -> (AnimationView, Command<Tween>) {
        if !self.playing {
            (self, Command::Keep)
        } else if self.value.equals(self.end) {
            (self.stopped(), Command::Stop)
        } else if self.duration.positive() {
            (
                AnimationView { animating: Some(self.tween()), ..self },
                Command::Start(self.tween()),
            )
        } else {
            (self.stopped().moved(self.end), Command::Stop)
        }
    }

    /// The animation at another pace: a run that is under way starts anew.
    pub open spec fn paced(self, duration: Double) -> (AnimationView, Command<Tween>) {
        if self.duration.equals(duration) {
            (self, Command::Keep)
        } else {
            (AnimationView { duration, ..self }).started()
        }
    }

    /// The animation stopped where it is.
    pub open spec fn paused(self) -> (AnimationView, Command<Tween>) {
        if self.playing {
            ((AnimationView { playing: false, ..self }).stopped(), Command::Stop)
        } else {
            (self, Command::Keep)
        }
    }

    /// The animation going on from where it is.
    pub open spec fn resumed(self) -> (AnimationView, Command<Tween>) {
        if self.playing {
            (self, Command::Keep)
        } else {
            (AnimationView { playing: true, ..self }).started()
        }
    }

    /// The animation going to `end`: nothing changes where it goes there
    /// already, and it jumps where the way takes no time.
    pub open spec fn sent(self, end: Percentage) -> (AnimationView, Command<Tween>) {
        if self.end.equals(end) {
            (self, Command::Keep)
        } else if self.duration.nonpositive() {
            (self.jumped(end), Command::Stop)
        } else {
            (AnimationView { end, ..self }).started()
        }
    }

    /// The animation after `time` on its clock: it has arrived when its run is
    /// over.
    pub open spec fn ticked(self, time: Double) -> (AnimationView, Command<Tween>) {
        match self.animating {
            None => (self, Command::Keep),
            Some(tween) => if tween.is_over(time) {
                (self.stopped().moved(Percentage(tween.end)), Command::Stop)
            } else {
                (self.moved(tween.position(time)), Command::Keep)
            },
        }
    }

    /// Where the animation is, where it goes, and where it comes from all lie
    /// between zero and one.
    pub open spec fn in_range(self) -> bool {
        &&& self.value.0.in_unit()
        &&& self.end.0.in_unit()
        &&& self.animating matches Some(tween) ==> tween.start.in_unit()
    }

    /// The animation after its clock has shown each of these times.
    pub open spec fn run(self, times: Seq<Double>) -> AnimationView
        decreases times.len(),
    {
        if times.len() == 0 {
            self
        } else {
            self.run(times.drop_last()).ticked(times.last()).0
        }
    }
}

/// An animation that plays and has nothing under way is where it goes, if that
/// is a number.
pub proof fn law_rests_at_the_end(m: AnimationView)
    requires
        m.wf(),
        m.playing,
        m.animating is None,
        !m.end.0.nan(),
    ensures
        m.value.equals(m.end),
{
}

/// An animation arrives: it is at its end, and nothing is under way any more,
/// from the first time on at which its run is over.
pub proof fn law_arrives(m: AnimationView, tween: Tween, times: Seq<Double>, arrival: int)
    requires
        m.wf(),
        m.animating == Some(tween),
        !m.end.0.nan(),
        0 <= arrival < times.len(),
        tween.is_over(times[arrival]),
        forall|i: int| 0 <= i < arrival ==> !tween.is_over(#[trigger] times[i]),
    ensures
        m.run(times).animating is None,
        m.run(times).value.equals(m.end),
        m.run(times).end == m.end,
    decreases times.len(),
{
    let before = times.drop_last();
    if arrival < before.len() {
        law_arrives(m, tween, before, arrival);
    } else {
        law_under_way(m, tween, before);
    }
}

/// Until its run is over, an animation is under way, and it is where its run is
/// by the last time on its clock.
pub proof fn law_under_way(m: AnimationView, tween: Tween, times: Seq<Double>)
    requires
        m.animating == Some(tween),
        forall|i: int| 0 <= i < times.len() ==> !tween.is_over(#[trigger] times[i]),
    ensures
        m.run(times) == (AnimationView {
            value: m.run(times).value,
            told: m.run(times).told,
            ..m
        }),
        times.len() > 0 && !tween.position(times.last()).0.nan() ==> m.run(times).value.equals(
            tween.position(times.last()),
        ),
    decreases times.len(),
{
    if times.len() > 0 {
        law_under_way(m, tween, times.drop_last());
        assert(!tween.is_over(times[times.len() - 1]));
    }
}

/// A double below another one is smaller by a part that rounding shows.
proof fn lemma_below(x: Double, y: Double)
    requires
        x.finite(),
        y.finite(),
        0 < y.value(),
        x.value() < y.value(),
    ensures
        x.value() * pow2(1074) <= (pow2(1074) - pow2(1021)) * y.value(),
{
    let (m, n) = (x.magnitude(), y.magnitude());
    let f = FRACTIONS as int;
    lemma_magnitude_monotone(0, m);
    lemma_magnitude_monotone(0, n);
    if !x.negative() && n <= m {
        lemma_magnitude_monotone(n, m);
    }
    let before = magnitude_value(n - 1);
    lemma_magnitude_monotone(0, n - 1);
    if !x.negative() {
        lemma_magnitude_monotone(m, n - 1);
    }
    let (q, t) = lemma_magnitude_split(n);
    lemma_pow2_pos(t);
    vstd::arithmetic::power2::lemma2_to64();
    vstd::arithmetic::power2::lemma2_to64_rest();
    lemma_pow2_adds(1021, 53);
    lemma_pow2_pos(1021);
    let (d, u, g, w) = (y.value(), pow2(t) as int, pow2(1021) as int, pow2(1074) as int);
    if t > 0 && q == f {
        let h = pow2((t - 1) as nat) as int;
        lemma_pow2_unfold(t);
        lemma_pow2_pos((t - 1) as nat);
        lemma_magnitude_parts(t - 1, 2 * f - 1);
        assert(n - 1 == (t - 1) * f + (2 * f - 1)) by (nonlinear_arith)
            requires
                n == t * f + q,
                q == f,
        ;
        assert(before * (2 * f) == (2 * f - 1) * d) by (nonlinear_arith)
            requires
                before == (2 * f - 1) * h,
                d == f * u,
                u == 2 * h,
        ;
    } else {
        lemma_magnitude_parts(t as int, q - 1);
        assert(before * (2 * f) <= (2 * f - 1) * d) by (nonlinear_arith)
            requires
                before == (q - 1) * u,
                d == q * u,
                0 < u,
                0 < q < 2 * f,
        ;
    }
    let a = x.value();
    assert(a * w <= (w - g) * d) by (nonlinear_arith)
        requires
            a <= before,
            before * (2 * f) <= (2 * f - 1) * d,
            w == g * (2 * f),
            0 < g,
            0 < f,
    ;
}

/// A run is over exactly from its duration on. Nothing is said where both are
/// zero, or both infinite: the part that has passed is not a number then.
pub proof fn law_lasts_as_long_as_its_duration(tween: Tween, time: Double)
    requires
        !tween.duration.negative() || tween.duration.nan(),
        !(tween.duration.is_zero() && time.is_zero()),
        !(tween.duration.infinite() && time.infinite()),
    ensures
        tween.is_over(time) <==> tween.duration.up_to(time),
{
    let w = pow2(1074) as int;
    let one = Double { bits: ONE_BITS };
    lemma_pow2_pos(1074);
    lemma_one();
    lemma_finite_value(one);
    lemma_magnitude_monotone(0, INFINITE as int);
    lemma_magnitude_monotone(0, 0);
    lemma_magnitude_monotone(0, time.magnitude());
    lemma_magnitude_monotone(0, tween.duration.magnitude());
    if tween.duration.nan() || time.nan() {
    } else if tween.duration.is_zero() || time.infinite() {
        lemma_signed(time.negative() != tween.duration.negative(), INFINITE as int);
        if tween.duration.finite() {
            lemma_finite_value(tween.duration);
        }
    } else if tween.duration.infinite() {
        lemma_signed(time.negative() != tween.duration.negative(), 0);
        lemma_finite_value(time);
    } else {
        lemma_lasts(tween, time);
    }
}

/// The same where the duration and the time are finite, and the duration is not
/// zero.
proof fn lemma_lasts(tween: Tween, time: Double)
    requires
        tween.duration.finite(),
        tween.duration.positive(),
        time.finite(),
    ensures
        tween.is_over(time) <==> tween.duration.up_to(time),
{
    let (one, less) = (Double { bits: ONE_BITS }, Double { bits: (ONE_BITS - 1) as u64 });
    let w = pow2(1074) as int;
    let (a, d) = (time.value(), tween.duration.value());
    lemma_pow2_pos(1074);
    lemma_one();
    lemma_over(time, tween.duration);
    lemma_rounded_exact(one, d);
    if tween.duration.up_to(time) {
        assert(w * d <= a * w) by (nonlinear_arith)
            requires
                d <= a,
                0 < w,
        ;
        lemma_rounded_monotone(w * d, a * w, d);
    } else {
        let f = FRACTIONS as int;
        lemma_below(time, tween.duration);
        lemma_magnitude_parts(1021, 2 * f - 1);
        lemma_magnitude_monotone(ONE_BITS - 1, ONE_BITS as int);
        vstd::arithmetic::power2::lemma2_to64_rest();
        lemma_pow2_adds(1021, 53);
        let g = pow2(1021) as int;
        assert(less.value() == w - g) by {
            assert((2 * f - 1) * g == (2 * f) * g - g) by (nonlinear_arith);
            assert(g * (2 * f) == (2 * f) * g) by (nonlinear_arith);
        }
        lemma_rounded_exact(less, d);
        lemma_rounded_monotone(a * w, (w - g) * d, d);
    }
}

/// A run that is not over has been under way for a finite time.
proof fn lemma_not_over(tween: Tween, time: Double)
    requires
        tween.duration.positive(),
        time.nonnegative(),
        !(tween.duration.infinite() && time.infinite()),
        !tween.is_over(time),
    ensures
        time.finite(),
{
    assert(!tween.duration.negative()) by {
        lemma_magnitude_monotone(0, tween.duration.magnitude());
    }
    assert(!tween.duration.is_zero()) by {
        lemma_magnitude_monotone(0, 0);
    }
    law_lasts_as_long_as_its_duration(tween, time);
    if !time.finite() {
        lemma_magnitude_monotone(tween.duration.magnitude(), INFINITE as int);
        lemma_magnitude_monotone(0, INFINITE as int);
    }
}

/// The part of a run that has passed is not below zero, and does not shrink.
proof fn lemma_progress(tween: Tween, sooner: Double, later: Double)
    requires
        tween.duration.positive(),
        sooner.nonnegative(),
        sooner.up_to(later),
        later.finite(),
    ensures
        !tween.progress(sooner).nan(),
        !tween.progress(later).nan(),
        0 <= tween.progress(sooner).value() <= tween.progress(later).value(),
{
    let zero = Double { bits: 0 };
    let w = pow2(1074) as int;
    let d = tween.duration.value();
    let (a, b) = (sooner.value(), later.value());
    lemma_pow2_pos(1074);
    lemma_magnitude_monotone(0, sooner.magnitude());
    lemma_finite_value(later);
    lemma_finite(sooner);
    if tween.duration.finite() {
        lemma_over(sooner, tween.duration);
        lemma_over(later, tween.duration);
        lemma_rounded_exact(zero, d);
        assert(0 * d <= a * w <= b * w) by (nonlinear_arith)
            requires
                0 <= a <= b,
                0 < w,
        ;
        lemma_rounded_monotone(0 * d, a * w, d);
        lemma_rounded_monotone(a * w, b * w, d);
    } else {
        lemma_signed(sooner.negative() != tween.duration.negative(), 0);
        lemma_signed(later.negative() != tween.duration.negative(), 0);
        lemma_magnitude_monotone(0, 0);
    }
}

/// A run goes only forward: at a later time it is at least as far, in the
/// direction from its start to its end, and it does not pass its end. It takes
/// some time, and a way that can be measured; and both times are after its begin
/// and before its end. A run that never ends is not seen after an infinite time.
pub proof fn law_moves_forward(tween: Tween, sooner: Double, later: Double)
    requires
        tween.start.finite(),
        tween.end.finite(),
        tween.end.minus(tween.start).finite(),
        tween.duration.positive(),
        sooner.nonnegative(),
        sooner.up_to(later),
        !(tween.duration.infinite() && later.infinite()),
        !tween.is_over(later),
    ensures
        tween.start.up_to(tween.end) ==> {
            &&& tween.start.up_to(tween.position(sooner).0)
            &&& tween.position(sooner).0.up_to(tween.position(later).0)
            &&& tween.position(later).0.up_to(tween.end)
        },
        tween.end.up_to(tween.start) ==> {
            &&& tween.position(sooner).0.up_to(tween.start)
            &&& tween.position(later).0.up_to(tween.position(sooner).0)
            &&& tween.end.up_to(tween.position(later).0)
        },
{
    lemma_not_over(tween, later);
    lemma_progress(tween, sooner, later);
    lemma_forward(tween.progress(sooner), tween.progress(later), tween.start, tween.end);
}

/// Who goes on moves forward, and does not pass the end.
proof fn lemma_forward(p: Double, q: Double, start: Double, end: Double)
    requires
        !p.nan(),
        !q.nan(),
        0 <= p.value() <= q.value(),
        !(Double { bits: ONE_BITS }).up_to(q),
        start.finite(),
        end.finite(),
        end.minus(start).finite(),
    ensures
        start.up_to(end) ==> {
            &&& start.up_to(between(p, start, end))
            &&& between(p, start, end).up_to(between(q, start, end))
            &&& between(q, start, end).up_to(end)
        },
        end.up_to(start) ==> {
            &&& between(p, start, end).up_to(start)
            &&& between(q, start, end).up_to(between(p, start, end))
            &&& end.up_to(between(q, start, end))
        },
{
    law_range_is_monotone(p, q, start, end);
    law_range_stays_within(p, start, end);
    law_range_stays_within(q, start, end);
}

/// The way between two numbers from zero to one is finite.
proof fn lemma_short_way(start: Double, end: Double)
    requires
        start.in_unit(),
        end.in_unit(),
    ensures
        start.finite(),
        end.finite(),
        end.minus(start).finite(),
{
    let one = Double { bits: ONE_BITS };
    let way = end.value() - start.value();
    lemma_unit(start);
    lemma_unit(end);
    lemma_minus(end, start);
    lemma_negated(one);
    lemma_rounded_exact(one, 1);
    lemma_rounded_exact(one.negated(), 1);
    lemma_rounded_monotone(-one.value(), way, 1);
    lemma_rounded_monotone(way, one.value(), 1);
    lemma_finite_value(one);
    lemma_finite(end.minus(start));
}

/// An animation that is between zero and one, and only ever told to go there,
/// stays there. At a tick of its clock the time is not before the begin of the run,
/// and the run takes some time; a run that never ends is not seen after an
/// infinite time.
pub proof fn law_stays_in_range(
    m: AnimationView,
    end: Percentage,
    duration: Double,
    time: Double,
)
    requires
        m.wf(),
        m.in_range(),
        end.0.in_unit(),
        time.nonnegative(),
        m.animating matches Some(tween) ==> tween.duration.positive() && !(
        tween.duration.infinite() && time.infinite()),
    ensures
        m.paced(duration).0.in_range(),
        m.paused().0.in_range(),
        m.resumed().0.in_range(),
        m.jumped(end).in_range(),
        m.sent(end).0.in_range(),
        m.ticked(time).0.in_range(),
{
    if let Some(tween) = m.animating {
        lemma_short_way(tween.start, tween.end);
        if !tween.is_over(time) {
            lemma_not_over(tween, time);
            lemma_progress(tween, time, time);
            lemma_one();
            law_range_stays_within(tween.progress(time), tween.start, tween.end);
        }
    }
}

/// An animation that is paused and goes on stays on its way: from where it is,
/// to the same end, at the same pace.
pub proof fn law_pause_and_play(m: AnimationView)
    requires
        m.wf(),
        m.animating is Some,
    ensures
        ({
            let (n, command) = m.paused().0.resumed();
            &&& n.value == m.value
            &&& n.end == m.end
            &&& n.duration == m.duration
            &&& n.playing
            &&& command == if m.value.equals(m.end) {
                Command::Stop
            } else {
                Command::Start(m.tween())
            }
        }),
{
}

/// A paused animation does not move, whatever it is told to do except to jump,
/// or to go somewhere in no time; it goes on to the last end that it was told
/// once it plays.
pub proof fn law_paused_stays(m: AnimationView, end: Percentage, duration: Double)
    requires
        m.wf(),
        !m.playing,
    ensures
        m.paced(duration).0.value == m.value,
        m.paced(duration).1 is Keep,
        m.duration.positive() ==> m.sent(end).0.value == m.value,
        m.duration.positive() ==> m.sent(end).1 is Keep,
        m.duration.positive() && !m.end.equals(end) && !m.value.equals(end) ==> m.sent(
            end,
        ).0.resumed().1 == Command::Start(
            Tween::between(m.value.0, end.0, m.duration),
        ),
{
}

/// Whatever an animation does, its signals are told once if it has moved, and not
/// at all if it has not.
pub proof fn law_signals_are_told(
    m: AnimationView,
    end: Percentage,
    duration: Double,
    time: Double,
)
    requires
        !m.value.0.nan(),
    ensures
        m.paced(duration).0.told == PercentageCell::told_after_set(
            m.told,
            m.value,
            m.paced(duration).0.value,
        ),
        m.paused().0.told == m.told && m.paused().0.value == m.value,
        m.resumed().0.told == PercentageCell::told_after_set(
            m.told,
            m.value,
            m.resumed().0.value,
        ),
        m.jumped(end).told == PercentageCell::told_after_set(m.told, m.value, m.jumped(end).value),
        m.sent(end).0.told == PercentageCell::told_after_set(
            m.told,
            m.value,
            m.sent(end).0.value,
        ),
        m.ticked(time).0.told == PercentageCell::told_after_set(
            m.told,
            m.value,
            m.ticked(time).0.value,
        ),
{
}

/// Telling an animation the same end again changes nothing.
pub proof fn law_send_twice(m: AnimationView, end: Percentage)
    requires
        m.wf(),
        !end.0.nan(),
    ensures
        m.sent(end).0.sent(end) == (m.sent(end).0, Command::<Tween>::Keep),
{
}

/// Wherever a playing animation is sent or jumps, it ends there: it is there at
/// once, or the run that takes it there is under way.
pub proof fn law_sent_goes_there(m: AnimationView, end: Percentage)
    requires
        m.wf(),
        m.playing,
        !end.0.nan(),
    ensures
        m.jumped(end).value.equals(end),
        m.sent(end).0.end.equals(end),
        m.sent(end).0.animating matches Some(tween) ==> Percentage(tween.end).equals(end),
        m.sent(end).0.animating is None ==> m.sent(end).0.value.equals(end),
{
}

impl MutableAnimation {
    /// An animation that is, and stays, at `initial`. A duration that is not above
    /// zero means that every way takes no time.
    pub fn new_with_initial(duration: Double, initial: Percentage) -> (r: MutableAnimation)
        ensures
            r@ == (AnimationView {
                playing: true,
                duration,
                end: initial,
                animating: None,
                value: initial,
                cell: r@.cell,
                told: 0,
            }),
            r@.wf(),
    {
        MutableAnimation {
            playing: true,
            duration,
            end: initial,
            animating: None,
            value: PercentageCell::new(initial),
        }
    }

    /// An animation that is, and stays, at its start.
    pub fn new(duration: Double) -> (r: MutableAnimation)
        ensures
            r@ == (AnimationView {
                playing: true,
                duration,
                end: Percentage(Double { bits: 0 }),
                animating: None,
                value: Percentage(Double { bits: 0 }),
                cell: r@.cell,
                told: 0,
            }),
            r@.wf(),
    {
        MutableAnimation::new_with_initial(duration, Percentage::new_unchecked(Double::zero()))
    }

    fn stop_animating(&mut self) -> (r: Command<Tween>)
        ensures
            final(self)@ == old(self)@.stopped(),
            r is Stop,
    {
        self.animating = None;
        Command::Stop
    }

    fn start_animating(&mut self) -> (r: Command<Tween>)
        ensures
            (final(self)@, r) == old(self)@.started(),
    {
        if self.playing {
            let start: Double = self.value.get().into_f64();
            let end: Double = self.end.into_f64();
            if start != end {
                if Double::zero().less_than(self.duration) {
                    let duration = end.sub(start).abs().mul(self.duration);
                    let tween = Tween { start, end, duration };
                    self.animating = Some(tween);
                    Command::Start(tween)
                } else {
                    let command = self.stop_animating();
                    self.value.set_neq(Percentage::new_unchecked(end));
                    command
                }
            } else {
                self.stop_animating()
            }
        } else {
            Command::Keep
        }
    }

    /// Sets the pace. A run that is under way starts anew from where it is.
    pub fn set_duration(&mut self, duration: Double) -> (r: Command<Tween>)
        ensures
            (final(self)@, r) == old(self)@.paced(duration),
            r.applied(old(self)@.animating) == final(self)@.animating,
            old(self)@.wf() ==> final(self)@.wf(),
    {
        if self.duration != duration {
            self.duration = duration;
            self.start_animating()
        } else {
            Command::Keep
        }
    }

    /// Stops where it is, until it plays again.
    pub fn pause(&mut self) -> (r: Command<Tween>)
        ensures
            (final(self)@, r) == old(self)@.paused(),
            r.applied(old(self)@.animating) == final(self)@.animating,
            old(self)@.wf() ==> final(self)@.wf(),
    {
        if self.playing {
            self.playing = false;
            self.stop_animating()
        } else {
            Command::Keep
        }
    }

    /// Goes on from where it is.
    pub fn play(&mut self) -> (r: Command<Tween>)
        ensures
            (final(self)@, r) == old(self)@.resumed(),
            r.applied(old(self)@.animating) == final(self)@.animating,
            old(self)@.wf() ==> final(self)@.wf(),
    {
        if !self.playing {
            self.playing = true;
            self.start_animating()
        } else {
            Command::Keep
        }
    }

    /// Moves to `end` at once.
    pub fn jump_to(&mut self, end: Percentage) -> (r: Command<Tween>)
        ensures
            final(self)@ == old(self)@.jumped(end),
            r is Stop,
            r.applied(old(self)@.animating) == final(self)@.animating,
            old(self)@.wf() ==> final(self)@.wf(),
    {
        let command = self.stop_animating();
        self.end = end;
        self.value.set_neq(end);
        command
    }

    /// Goes to `end` from where it is, or moves there at once if that takes no
    /// time. Nothing happens if it goes there already.
    pub fn animate_to(&mut self, end: Percentage) -> (r: Command<Tween>)
        ensures
            (final(self)@, r) == old(self)@.sent(end),
            r.applied(old(self)@.animating) == final(self)@.animating,
            old(self)@.wf() ==> final(self)@.wf(),
    {
        if self.end != end {
            if self.duration.at_most(Double::zero()) {
                self.jump_to(end)
            } else {
                self.end = end;
                self.start_animating()
            }
        } else {
            Command::Keep
        }
    }

    /// The clock has ticked, and shows `time` since the run that is under way
    /// began.
    pub fn on_frame(&mut self, time: Double) -> (r: Command<Tween>)
        ensures
            (final(self)@, r) == old(self)@.ticked(time),
            r.applied(old(self)@.animating) == final(self)@.animating,
            old(self)@.wf() ==> final(self)@.wf(),
    {
        match self.animating {
            None => Command::Keep,
            Some(tween) => {
                let progress = time.div(tween.duration);
                if Double::one().at_most(progress) {
                    let command = self.stop_animating();
                    self.value.set_neq(Percentage::new_unchecked(tween.end));
                    command
                } else {
                    self.value.set_neq(
                        Percentage::new_unchecked(
                            range_inclusive(progress, tween.start, tween.end),
                        ),
                    );
                    Command::Keep
                }
            },
        }
    }

    /// The run that is under way.
    pub fn animating(&self) -> (r: Option<Tween>)
        ensures
            r == self@.animating,
    {
        self.animating
    }

    /// Whether the animation is playing.
    pub fn playing(&self) -> (r: bool)
        ensures
            r == self@.playing,
    {
        self.playing
    }

    /// The pace of the animation.
    pub fn duration(&self) -> (r: Double)
        ensures
            r == self@.duration,
    {
        self.duration
    }

    /// Where the animation goes.
    pub fn end(&self) -> (r: Percentage)
        ensures
            r == self@.end,
    {
        self.end
    }

    /// A signal of where the animation is.
    pub fn signal(&self) -> (r: MutableAnimationSignal)
        ensures
            reported_cell(r.0) == self@.cell,
    {
        MutableAnimationSignal(self.value.signal())
    }

    /// Where the animation is.
    pub fn current_percentage(&self) -> (r: Percentage)
        ensures
            r == self@.value,
    {
        self.value.get()
    }
}

} // verus!
