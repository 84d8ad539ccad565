//! What each operation does to a spring, field by field.

use crate::accuracy::law_sign;
use crate::arithmetic::size;
use crate::clock::Command;
use crate::double::{lemma_magnitude_monotone, Double};
use crate::order::lemma_negated;
use crate::percentage::Percentage;
use crate::spring::{SpringFrame, SpringRun, SpringView, Waves};
use vstd::prelude::*;

verus! {

/// What a spring does that has been told where to go: it stays as it is while it is
/// paused, stops where it has arrived, and otherwise begins a run from where it is to
/// where it goes. It is not moved by that. `velocity` is how fast it is to begin; a
/// run counts how fast the spring is stretched, so the opposite.
pub open spec fn sets_off(
    before: SpringView,
    after: SpringView,
    command: Command<SpringRun>,
    velocity: Double,
) -> bool {
    &&& after.value == before.value
    &&& after.told == before.told
    &&& after.cell == before.cell
    &&& after.config == before.config
    &&& after.last_velocity == before.last_velocity
    &&& !after.playing ==> after.animating == before.animating && command is Keep
    &&& after.playing && before.value.equals(after.end) ==> after.animating is None
        && command is Stop
    &&& after.playing && !before.value.equals(after.end) ==> {
        &&& command matches Command::Start(run) && {
            &&& after.animating == Some(run)
            &&& run.start == before.value.0
            &&& run.end == after.end.0
            &&& run.velocity.nan() == velocity.nan()
            &&& run.velocity.value() == -velocity.value()
            &&& run.last_time.bits == 0
            &&& run.frame_time.bits == 0
        }
    }
}

/// A spring that is sent somewhere else sets off for there, as fast as it is configured
/// to begin, or, if it is to go on without a break, as fast as it was. It does nothing
/// if it goes there already.
pub proof fn law_animate_to(m: SpringView, end: Percentage, reset_velocity: bool)
    ensures
        ({
            let (n, command) = m.sent(end, reset_velocity);
            &&& n.playing == m.playing
            &&& m.end.equals(end) ==> n == m && command is Keep
            &&& !m.end.equals(end) ==> n.end == end
            &&& !m.end.equals(end) && reset_velocity ==> sets_off(
                m,
                n,
                command,
                m.config.initial_velocity,
            )
            &&& !m.end.equals(end) && !reset_velocity ==> sets_off(m, n, command, m.last_velocity)
        }),
{
    lemma_negated(m.config.initial_velocity);
    lemma_negated(m.last_velocity);
}

/// A spring that is paused stops, and keeps everything else.
pub proof fn law_pause(m: SpringView)
    ensures
        ({
            let (n, command) = m.paused();
            &&& !n.playing
            &&& n.value == m.value && n.told == m.told && n.cell == m.cell
            &&& n.end == m.end && n.config == m.config && n.last_velocity == m.last_velocity
            &&& m.playing ==> n.animating is None && command is Stop
            &&& !m.playing ==> n.animating == m.animating && command is Keep
        }),
{
}

/// A spring that plays again sets off from where it is, as fast as it was. It does
/// nothing if it plays already.
pub proof fn law_play(m: SpringView)
    ensures
        ({
            let (n, command) = m.resumed();
            &&& n.playing
            &&& n.end == m.end
            &&& m.playing ==> n == m && command is Keep
            &&& !m.playing ==> sets_off(m, n, command, m.last_velocity)
        }),
{
    lemma_negated(m.last_velocity);
}

/// A spring that jumps is there, and goes there; nothing is under way. How fast it was
/// is not forgotten.
pub proof fn law_jump(m: SpringView, end: Percentage)
    ensures
        ({
            let n = m.jumped(end);
            &&& n.playing == m.playing && n.config == m.config && n.cell == m.cell
            &&& n.last_velocity == m.last_velocity
            &&& n.end == end
            &&& n.animating is None
            &&& m.value.equals(end) ==> n.value == m.value && n.told == m.told
            &&& !m.value.equals(end) ==> n.value == end && n.told == m.told + 1
        }),
{
}

/// Whether the spring comes to rest when it is found at `value` with this velocity. It
/// does if it has passed its end, where it is configured not to, or if it is slow, and
/// near to its end. A spring without stiffness has no end to pass or to be near to.
pub open spec fn comes_to_rest(
    m: SpringView,
    run: SpringRun,
    value: Double,
    velocity: Double,
) -> bool {
    let slack = !m.config.stiffness.nan() && m.config.stiffness.value() == 0;
    let (near, slow) = (m.config.rest_displacement_threshold, m.config.rest_speed_threshold);
    let (way, end) = (run.end.minus(value), run.end.value());
    let is_upward = !run.start.nan() && !run.end.nan() && run.start.value() < end;
    ||| {
        &&& m.config.overshoot_clamping
        &&& !slack
        &&& !run.end.nan() && !value.nan()
        &&& is_upward ==> end < value.value()
        &&& !is_upward ==> value.value() < end
    }
    ||| {
        &&& !velocity.nan() && !slow.nan() && size(velocity.value()) <= slow.value()
        &&& slack || (!way.nan() && !near.nan() && size(way.value()) <= near.value())
    }
}

/// What becomes of a spring that is found at `value` with this velocity. It is there,
/// and as fast as that. If that brings it to rest, it stops, and unless it has no
/// stiffness it is at its end, without velocity. If not, the run goes on. Nothing else
/// of the spring changes.
pub open spec fn is_found(
    m: SpringView,
    run: SpringRun,
    value: Double,
    velocity: Double,
    now: Double,
    moved: Double,
    n: SpringView,
    command: Command<SpringRun>,
) -> bool {
    let slack = !m.config.stiffness.nan() && m.config.stiffness.value() == 0;
    let rests = comes_to_rest(m, run, value, velocity);
    let (found, end) = (Percentage(value), Percentage(run.end));
    &&& n.playing == m.playing && n.end == m.end && n.config == m.config
    &&& n.cell == m.cell
    &&& rests ==> command is Stop && n.animating is None
    &&& !rests ==> {
        &&& command is Keep
        &&& n.animating matches Some(next) && {
            &&& next.start == run.start && next.end == run.end
            &&& next.velocity == run.velocity
            &&& next.last_time == now
            &&& next.frame_time == moved
        }
    }
    &&& !rests || slack ==> {
        &&& n.last_velocity == velocity
        &&& m.value.equals(found) ==> n.value == m.value && n.told == m.told
        &&& !m.value.equals(found) ==> n.value == found && n.told == m.told + 1
    }
    &&& rests && !slack ==> {
        &&& n.last_velocity.bits == 0
        &&& run.end.nan() || n.value.equals(end)
        &&& m.value.equals(found) && found.equals(end) ==> n.told == m.told
        &&& m.value.equals(found) != found.equals(end) ==> n.told == m.told + 1
        &&& !m.value.equals(found) && !found.equals(end) ==> n.told == m.told + 2
    }
}

/// A frame finds a spring where the formulas say, for the time that it has moved by
/// then.
pub proof fn law_frame(m: SpringView, run: SpringRun, time: Double, waves: Waves)
    requires
        m.animating == Some(run),
    ensures
        ({
            let (n, command) = m.ticked(time, waves);
            let o = m.config.oscillation();
            let (x0, t) = (run.end.minus(run.start), run.seconds(time));
            let value = o.value(run.end, x0, run.velocity, t, waves);
            let velocity = o.velocity(run.end, x0, run.velocity, t, waves);
            is_found(m, run, value, velocity, run.clock(time), t, n, command)
        }),
{
    lemma_found(m, run, run.frame(m.config, time, waves));
}

/// What becomes of a spring in any frame.
proof fn lemma_found(m: SpringView, run: SpringRun, frame: SpringFrame)
    ensures
        ({
            let n = m.followed(run, frame);
            let (value, velocity) = (frame.value, frame.velocity);
            let (now, moved) = (frame.now, frame.frame_time);
            if m.config.overshoots(run.start, run.end, value) || m.config.rests(run.end, frame) {
                is_found(m, run, value, velocity, now, moved, n.rested(run), Command::Stop)
            } else {
                is_found(m, run, value, velocity, now, moved, n, Command::Keep)
            }
        }),
{
    lemma_magnitude_monotone(0, 0);
    lemma_rest(m, run, frame);
}

/// When a spring comes to rest.
proof fn lemma_rest(m: SpringView, run: SpringRun, frame: SpringFrame)
    ensures
        comes_to_rest(m, run, frame.value, frame.velocity) == (m.config.overshoots(
            run.start,
            run.end,
            frame.value,
        ) || m.config.rests(run.end, frame)),
{
    law_sign(frame.velocity);
    law_sign(run.end.minus(frame.value));
    lemma_magnitude_monotone(0, 0);
}

/// A spring that has nothing under way is not moved by a frame, and needs no waves.
pub proof fn law_frame_at_rest(m: SpringView, time: Double, waves: Waves)
    requires
        m.animating is None,
    ensures
        m.ticked(time, waves).0 == m,
        m.ticked(time, waves).1 is Keep,
        m.asked(time) is None,
{
}

/// The waves that a frame needs are those at the time that the spring has moved by
/// then.
pub proof fn law_waves_of_a_frame(m: SpringView, run: SpringRun, time: Double, waves: Waves)
    requires
        m.animating == Some(run),
    ensures
        m.asked(time) is Some,
        m.ticked(time, waves).0.animating matches Some(next) ==> m.asked(time) == Some(
            m.config.oscillation().wave_inputs(next.frame_time),
        ),
{
}

} // verus!
