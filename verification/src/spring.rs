//! An animation that moves like a weight on a spring.

use crate::animation::MutableAnimationSignal;
use crate::cell::{reported_cell, PercentageCell};
use crate::clock::Command;
use crate::double::{lemma_magnitude_monotone, lemma_one, Double, ONE_BITS, TWO_BITS};
use crate::motion::Motion;
use crate::order::{
    lemma_finite,
    lemma_finite_value,
    lemma_minus,
    lemma_over,
    lemma_plus,
    lemma_rounded_exact,
    lemma_rounded_monotone,
};
use crate::percentage::Percentage;
use vstd::arithmetic::power2::{lemma_pow2_pos, pow2};
use vstd::prelude::*;

verus! {

/// The bit pattern of `100.0`.
pub const HUNDRED_BITS: u64 = 0x4059_0000_0000_0000;

/// The bit pattern of `10.0`.
pub const TEN_BITS: u64 = 0x4024_0000_0000_0000;

/// The bit pattern of `0.001`.
pub const THOUSANDTH_BITS: u64 = 0x3f50_624d_d2f1_a9fc;

/// The bit pattern of `1000.0`.
pub const THOUSAND_BITS: u64 = 0x408f_4000_0000_0000;

/// The bit pattern of `64.0`: how many milliseconds the clock of a spring may
/// advance at once.
pub const MAX_STEPS_BITS: u64 = 0x4050_0000_0000_0000;

/// The properties of a spring.
#[derive(Clone, Copy, Debug, PartialEq)]
pub struct SpringConfig {
    pub stiffness: Double,
    pub damping: Double,
    pub mass: Double,
    pub initial_velocity: Double,
    /// Whether the spring stops once it has passed its end.
    pub overshoot_clamping: bool,
    /// How far from its end the spring may come to rest.
    pub rest_displacement_threshold: Double,
    /// How fast the spring may be when it comes to rest.
    pub rest_speed_threshold: Double,
}

/// One uninterrupted run of a spring from `start` to `end`: how fast it is
/// stretched at first, and the time up to which it has been followed.
#[derive(Clone, Copy, Debug, PartialEq)]
pub struct SpringRun {
    pub start: Double,
    pub end: Double,
    pub velocity: Double,
    /// The last time on the clock.
    pub last_time: Double,
    /// How long the spring has moved, in seconds.
    pub frame_time: Double,
}

/// How a spring oscillates.
#[derive(Clone, Copy, Debug, PartialEq)]
pub struct Oscillation {
    /// The damping ratio.
    pub zeta: Double,
    /// The angular frequency without damping.
    pub omega0: Double,
    /// The angular frequency with damping.
    pub omega1: Double,
}

/// The numbers at which the exponential function and the sine and cosine are
/// needed to follow a spring.
#[derive(Clone, Copy, Debug, PartialEq)]
pub struct WaveInputs {
    pub decay: Double,
    pub angle: Double,
}

/// The exponential function of the decay, and the sine and the cosine of the
/// angle.
#[derive(Clone, Copy, Debug, PartialEq)]
pub struct Waves {
    pub envelope: Double,
    pub sin: Double,
    pub cos: Double,
}

/// Where a spring is found at a tick of its clock.
#[derive(Clone, Copy, Debug, PartialEq)]
pub struct SpringFrame {
    /// The time on the clock.
    pub now: Double,
    /// How long the spring has moved, in seconds.
    pub frame_time: Double,
    /// Where it is.
    pub value: Double,
    /// How fast it is.
    pub velocity: Double,
}

impl SpringConfig {
    /// How the spring oscillates.
    pub open spec fn oscillation(self) -> Oscillation {
        let (one, two) = (Double { bits: ONE_BITS }, Double { bits: TWO_BITS });
        let zeta = self.damping.over(two.times(self.stiffness.times(self.mass).root()));
        let omega0 = self.stiffness.over(self.mass).root();
        Oscillation { zeta, omega0, omega1: omega0.times(one.minus(zeta.times(zeta)).root()) }
    }

    /// How the spring oscillates.
    pub fn oscillate(&self) -> (r: Oscillation)
        ensures
            r == self.oscillation(),
    {
        let two = Double::from_bits(TWO_BITS);
        let zeta = self.damping.div(two.mul(self.stiffness.mul(self.mass).sqrt()));
        let omega0 = self.stiffness.div(self.mass).sqrt();
        let omega1 = omega0.mul(Double::one().sub(zeta.mul(zeta)).sqrt());
        Oscillation { zeta, omega0, omega1 }
    }
}

impl Oscillation {
    /// Whether the spring swings; if not, it is damped too strongly.
    pub open spec fn swings(self) -> bool {
        self.zeta.below(Double { bits: ONE_BITS })
    }

    /// The numbers that decide where the spring is after `time` seconds.
    pub open spec fn wave_inputs(self, time: Double) -> WaveInputs {
        WaveInputs {
            decay: if self.swings() {
                self.zeta.negated().times(self.omega0).times(time)
            } else {
                self.omega0.negated().times(time)
            },
            angle: self.omega1.times(time),
        }
    }

    /// The spring that oscillates so, stretched from `end` by `x0`, at the
    /// velocity `v0`.
    pub open spec fn motion(self, end: Double, x0: Double, v0: Double) -> Motion<Double> {
        Motion { zeta: self.zeta, omega0: self.omega0, omega1: self.omega1, end, x0, v0 }
    }

    /// Where a spring is after `time` seconds that is stretched from `end` by
    /// `x0`, at the velocity `v0`.
    pub open spec fn value(
        self,
        end: Double,
        x0: Double,
        v0: Double,
        time: Double,
        waves: Waves,
    ) -> Double {
        let motion = self.motion(end, x0, v0);
        if self.swings() {
            motion.swinging_value(waves.envelope, waves.sin, waves.cos)
        } else {
            motion.damped_value(waves.envelope, time)
        }
    }

    /// How fast the spring is by then. Taken exactly, without rounding, this is the
    /// derivative of `value`: see the laws of `motion`.
    pub open spec fn velocity(
        self,
        end: Double,
        x0: Double,
        v0: Double,
        time: Double,
        waves: Waves,
    ) -> Double {
        let motion = self.motion(end, x0, v0);
        if self.swings() {
            motion.swinging_velocity(waves.envelope, waves.sin, waves.cos)
        } else {
            motion.damped_velocity(waves.envelope, time)
        }
    }
}

impl SpringRun {
    /// How far the clock may advance.
    pub open spec fn limit(self) -> Double {
        self.last_time.plus(Double { bits: MAX_STEPS_BITS })
    }

    /// The time on the clock when `time` has passed. A run that has lost many
    /// frames goes on from the limit, so that it does not jump to its end.
    pub open spec fn clock(self, time: Double) -> Double {
        if self.limit().below(time) {
            self.limit()
        } else {
            time
        }
    }

    /// How long the spring has moved when `time` has passed, in seconds.
    pub open spec fn seconds(self, time: Double) -> Double {
        self.frame_time.plus(
            self.clock(time).minus(self.last_time).over(Double { bits: THOUSAND_BITS }),
        )
    }

    /// Where the spring is found when `time` has passed.
    pub open spec fn frame(self, config: SpringConfig, time: Double, waves: Waves) -> SpringFrame {
        let oscillation = config.oscillation();
        let x0 = self.end.minus(self.start);
        let t = self.seconds(time);
        SpringFrame {
            now: self.clock(time),
            frame_time: t,
            value: oscillation.value(self.end, x0, self.velocity, t, waves),
            velocity: oscillation.velocity(self.end, x0, self.velocity, t, waves),
        }
    }

    /// The time on the clock when `time` has passed, and how long the spring
    /// has moved by then.
    fn advance(&self, time: Double) -> (r: (Double, Double))
        ensures
            r == (self.clock(time), self.seconds(time)),
    {
        let limit = self.last_time.add(Double::from_bits(MAX_STEPS_BITS));
        let now = if limit.less_than(time) {
            limit
        } else {
            time
        };
        let delta_time = now.sub(self.last_time).div(Double::from_bits(THOUSAND_BITS));
        (now, self.frame_time.add(delta_time))
    }

    /// Where the spring is found when `time` has passed.
    fn find(&self, config: &SpringConfig, time: Double, waves: Waves) -> (r: SpringFrame)
        ensures
            r == self.frame(*config, time, waves),
    {
        let Oscillation { zeta, omega0, omega1 } = config.oscillate();
        let (now, t) = self.advance(time);
        let Waves { envelope, sin, cos } = waves;
        let x0 = self.end.sub(self.start);
        let v0 = self.velocity;
        let value;
        let velocity;
        if zeta.less_than(Double::one()) {
            let push = v0.add(zeta.mul(omega0).mul(x0));
            value = self.end.sub(envelope.mul(push.div(omega1).mul(sin).add(x0.mul(cos))));
            velocity = zeta.mul(omega0).mul(envelope).mul(
                sin.mul(push).div(omega1).add(x0.mul(cos)),
            ).sub(envelope.mul(cos.mul(push).sub(omega1.mul(x0).mul(sin))));
        } else {
            let push = v0.add(omega0.mul(x0));
            value = self.end.sub(envelope.mul(x0.add(push.mul(t))));
            velocity = envelope.mul(
                v0.mul(t.mul(omega0).sub(Double::one())).add(t.mul(x0).mul(omega0.mul(omega0))),
            );
        }
        SpringFrame { now, frame_time: t, value, velocity }
    }
}

/// A spring: whether it is playing, where it goes, the run that is under way,
/// how fast it was last, and where it is.
pub struct MutableSpringAnimation {
    playing: bool,
    end: Percentage,
    animating: Option<SpringRun>,
    last_velocity: Double,
    value: PercentageCell,
    config: SpringConfig,
}

/// What there is to know of a `MutableSpringAnimation`.
pub struct SpringView {
    pub playing: bool,
    pub end: Percentage,
    pub animating: Option<SpringRun>,
    pub last_velocity: Double,
    pub value: Percentage,
    pub config: SpringConfig,
    /// The cell that the signals of the spring report on.
    pub cell: int,
    /// How often these signals have been told of a change.
    pub told: nat,
}

impl View for MutableSpringAnimation {
    type V = SpringView;

    closed spec fn view(&self) -> SpringView {
        SpringView {
            playing: self.playing,
            end: self.end,
            animating: self.animating,
            last_velocity: self.last_velocity,
            value: self.value@,
            config: self.config,
            cell: self.value.id(),
            told: self.value.told(),
        }
    }
}

impl SpringConfig {
    /// A spring with no stiffness does not pull anywhere.
    pub open spec fn slack(self) -> bool {
        self.stiffness.equals(Double { bits: 0 })
    }

    /// Whether a spring on its way from `start` has passed its `end` at
    /// `value`.
    pub open spec fn overshoots(self, start: Double, end: Double, value: Double) -> bool {
        &&& self.overshoot_clamping
        &&& !self.slack()
        &&& if start.below(end) {
            end.below(value)
        } else {
            value.below(end)
        }
    }

    /// Whether a spring is slow enough, and near enough to its `end`, to rest.
    pub open spec fn rests(self, end: Double, frame: SpringFrame) -> bool {
        &&& frame.velocity.absolute().up_to(self.rest_speed_threshold)
        &&& self.slack() || end.minus(frame.value).absolute().up_to(
            self.rest_displacement_threshold,
        )
    }
}

impl SpringView {
    /// A spring is under way only while it plays, to the end that is set, and
    /// from somewhere else. A spring that plays and is not under way has
    /// arrived, unless it is slack (an end that is not a number is never
    /// arrived at).
    pub open spec fn wf(self) -> bool {
        &&& self.animating matches Some(run) ==> {
            &&& self.playing
            &&& run.end == self.end.0
            &&& !run.start.equals(run.end)
        }
        &&& self.playing && self.animating is None ==> self.value.equals(self.end)
            || self.end.0.nan() || self.config.slack()
    }

    /// The spring with nothing under way.
    pub open spec fn stopped(self) -> SpringView {
        SpringView { animating: None, ..self }
    }

    /// The spring moved to `value`.
    pub open spec fn moved(self, value: Percentage) -> SpringView {
        SpringView {
            value: PercentageCell::after_set(self.value, value),
            told: PercentageCell::told_after_set(self.told, self.value, value),
            ..self
        }
    }

    /// The spring moved to `end` at once, with nothing under way.
    pub open spec fn jumped(self, end: Percentage) -> SpringView {
        (SpringView { end, ..self }).stopped().moved(end)
    }

    /// The run from where the spring is to where it goes. It begins as fast as
    /// the spring is configured to if `reset_velocity`, and as fast as it was
    /// last otherwise.
    pub open spec fn spring_run(self, reset_velocity: bool) -> SpringRun {
        SpringRun {
            start: self.value.0,
            end: self.end.0,
            velocity: if reset_velocity {
                self.config.initial_velocity.negated()
            } else {
                self.last_velocity.negated()
            },
            last_time: Double { bits: 0 },
            frame_time: Double { bits: 0 },
        }
    }

    /// The spring set going, and what becomes of its clock. A paused spring
    /// stays where it is, one that has arrived stops, and any other begins a
    /// run.
    pub open spec fn started(self, reset_velocity: bool) -> (SpringView, Command<SpringRun>) {
        if !self.playing {
            (self, Command::Keep)
        } else if self.value.equals(self.end) {
            (self.stopped(), Command::Stop)
        } else {
            let run = self.spring_run(reset_velocity);
            (SpringView { animating: Some(run), ..self }, Command::Start(run))
        }
    }

    /// The spring stopped where it is.
    pub open spec fn paused(self) -> (SpringView, Command<SpringRun>) {
        if self.playing {
            ((SpringView { playing: false, ..self }).stopped(), Command::Stop)
        } else {
            (self, Command::Keep)
        }
    }

    /// The spring going on from where it is, as fast as it was.
    pub open spec fn resumed(self) -> (SpringView, Command<SpringRun>) {
        if self.playing {
            (self, Command::Keep)
        } else {
            (SpringView { playing: true, ..self }).started(false)
        }
    }

    /// The spring going to `end`: nothing changes where it goes there already.
    pub open spec fn sent(
        self,
        end: Percentage,
        reset_velocity: bool,
    ) -> (SpringView, Command<SpringRun>) {
        if self.end.equals(end) {
            (self, Command::Keep)
        } else {
            (SpringView { end, ..self }).started(reset_velocity)
        }
    }

    /// The spring, on the run `run`, found in `frame`.
    pub open spec fn followed(self, run: SpringRun, frame: SpringFrame) -> SpringView {
        (SpringView {
            animating: Some(
                SpringRun { last_time: frame.now, frame_time: frame.frame_time, ..run },
            ),
            last_velocity: frame.velocity,
            ..self
        }).moved(Percentage(frame.value))
    }

    /// The spring at rest after the run `run`: at its end and without
    /// velocity, unless it is slack.
    pub open spec fn rested(self, run: SpringRun) -> SpringView {
        if self.config.slack() {
            self.stopped()
        } else {
            (SpringView { last_velocity: Double { bits: 0 }, ..self }).stopped().moved(
                Percentage(run.end),
            )
        }
    }

    /// The numbers that decide where the spring is when the clock shows `time`.
    pub open spec fn asked(self, time: Double) -> Option<WaveInputs> {
        match self.animating {
            None => None,
            Some(run) => Some(self.config.oscillation().wave_inputs(run.seconds(time))),
        }
    }

    /// The spring after `time` on its clock: it moves to where it is found, and
    /// comes to rest if it has passed its end, or is slow and near enough.
    pub open spec fn ticked(self, time: Double, waves: Waves) -> (SpringView, Command<SpringRun>) {
        match self.animating {
            None => (self, Command::Keep),
            Some(run) => {
                let frame = run.frame(self.config, time, waves);
                if self.config.overshoots(run.start, run.end, frame.value) || self.config.rests(
                    run.end,
                    frame,
                ) {
                    (self.followed(run, frame).rested(run), Command::Stop)
                } else {
                    (self.followed(run, frame), Command::Keep)
                }
            },
        }
    }
}

/// The clock of a spring runs exactly while a run is under way.
pub open spec fn same_clock(command: Command<SpringRun>, before: SpringView, after: SpringView) -> bool {
    &&& command is Keep ==> (before.animating is Some <==> after.animating is Some)
    &&& command is Stop ==> after.animating is None
    &&& command matches Command::Start(run) ==> after.animating == Some(run)
}

impl MutableSpringAnimation {
    /// A spring that is, and stays, at `value`.
    pub fn new_with_initial(
        value: Percentage,
        config: SpringConfig,
    ) -> (r: MutableSpringAnimation)
        ensures
            r@ == (SpringView {
                playing: true,
                end: value,
                animating: None,
                last_velocity: Double { bits: 0 },
                value,
                config,
                cell: r@.cell,
                told: 0,
            }),
            r@.wf(),
    {
        MutableSpringAnimation {
            playing: true,
            end: value,
            animating: None,
            last_velocity: Double::zero(),
            value: PercentageCell::new(value),
            config,
        }
    }

    /// A spring of medium stiffness that is, and stays, at its start.
    pub fn new() -> (r: MutableSpringAnimation)
        ensures
            r@ == (SpringView {
                playing: true,
                end: Percentage(Double { bits: 0 }),
                animating: None,
                last_velocity: Double { bits: 0 },
                value: Percentage(Double { bits: 0 }),
                config: SpringConfig {
                    stiffness: Double { bits: HUNDRED_BITS },
                    damping: Double { bits: TEN_BITS },
                    mass: Double { bits: ONE_BITS },
                    initial_velocity: Double { bits: 0 },
                    overshoot_clamping: true,
                    rest_displacement_threshold: Double { bits: THOUSANDTH_BITS },
                    rest_speed_threshold: Double { bits: THOUSANDTH_BITS },
                },
                cell: r@.cell,
                told: 0,
            }),
            r@.wf(),
    {
        let config = SpringConfig {
            stiffness: Double::from_bits(HUNDRED_BITS),
            damping: Double::from_bits(TEN_BITS),
            mass: Double::one(),
            initial_velocity: Double::zero(),
            overshoot_clamping: true,
            rest_displacement_threshold: Double::from_bits(THOUSANDTH_BITS),
            rest_speed_threshold: Double::from_bits(THOUSANDTH_BITS),
        };
        MutableSpringAnimation::new_with_initial(
            Percentage::new_unchecked(Double::zero()),
            config,
        )
    }

    fn stop_animating(&mut self) -> (r: Command<SpringRun>)
        ensures
            final(self)@ == old(self)@.stopped(),
            r is Stop,
    {
        self.animating = None;
        Command::Stop
    }

    fn start_animating(&mut self, reset_velocity: bool) -> (r: Command<SpringRun>)
        ensures
            (final(self)@, r) == old(self)@.started(reset_velocity),
    {
        if self.playing {
            let start: Double = self.value.get().into_f64();
            let end: Double = self.end.into_f64();
            let velocity = if reset_velocity {
                self.config.initial_velocity.negate()
            } else {
                self.last_velocity.negate()
            };
            if start != end {
                let run = SpringRun {
                    start,
                    end,
                    velocity,
                    last_time: Double::zero(),
                    frame_time: Double::zero(),
                };
                self.animating = Some(run);
                Command::Start(run)
            } else {
                self.stop_animating()
            }
        } else {
            Command::Keep
        }
    }

    /// The numbers at which the exponential function and the sine and cosine are
    /// needed when the clock shows `time`, if a run is under way.
    pub fn wave_inputs(&self, time: Double) -> (r: Option<WaveInputs>)
        ensures
            r == self@.asked(time),
            r == match self@.animating {
                None => None,
                Some(run) => Some(
                    self@.config.oscillation().wave_inputs(run.seconds(time)),
                ),
            },
    {
        match &self.animating {
            None => None,
            Some(run) => {
                let Oscillation { zeta, omega0, omega1 } = self.config.oscillate();
                let (_, t) = run.advance(time);
                let decay = if zeta.less_than(Double::one()) {
                    zeta.negate().mul(omega0).mul(t)
                } else {
                    omega0.negate().mul(t)
                };
                Some(WaveInputs { decay, angle: omega1.mul(t) })
            },
        }
    }

    /// The clock has ticked, and shows `time` since the run that is under way
    /// began; `waves` are taken at what `wave_inputs` tells for this time.
    pub fn on_frame(&mut self, time: Double, waves: Waves) -> (r: Command<SpringRun>)
        ensures
            (final(self)@, r) == old(self)@.ticked(time, waves),
            same_clock(r, old(self)@, final(self)@),
            old(self)@.wf() ==> final(self)@.wf(),
    {
        let run = match self.animating {
            None => {
                return Command::Keep;
            },
            Some(run) => run,
        };
        let frame = run.find(&self.config, time, waves);
        self.animating = Some(
            SpringRun {
                start: run.start,
                end: run.end,
                velocity: run.velocity,
                last_time: frame.now,
                frame_time: frame.frame_time,
            },
        );
        self.last_velocity = frame.velocity;
        self.value.set_neq(Percentage::new_unchecked(frame.value));
        let is_taut = self.config.stiffness != Double::zero();
        let mut is_overshooting = false;
        if self.config.overshoot_clamping && is_taut {
            if run.start.less_than(run.end) {
                is_overshooting = run.end.less_than(frame.value);
            } else {
                is_overshooting = frame.value.less_than(run.end);
            }
        }
        let is_velocity = frame.velocity.abs().at_most(self.config.rest_speed_threshold);
        let mut is_displacement = true;
        if is_taut {
            is_displacement =
            run.end.sub(frame.value).abs().at_most(self.config.rest_displacement_threshold);
        }
        if is_overshooting || (is_velocity && is_displacement) {
            if is_taut {
                self.last_velocity = Double::zero();
                self.value.set_neq(Percentage::new_unchecked(run.end));
            }
            self.stop_animating()
        } else {
            Command::Keep
        }
    }

    /// Stops where it is, until it plays again.
    pub fn pause(&mut self) -> (r: Command<SpringRun>)
        ensures
            (final(self)@, r) == old(self)@.paused(),
            same_clock(r, old(self)@, final(self)@),
            old(self)@.wf() ==> final(self)@.wf(),
    {
        if self.playing {
            self.playing = false;
            self.stop_animating()
        } else {
            Command::Keep
        }
    }

    /// Goes on from where it is, as fast as it was.
    pub fn play(&mut self) -> (r: Command<SpringRun>)
        ensures
            (final(self)@, r) == old(self)@.resumed(),
            same_clock(r, old(self)@, final(self)@),
            old(self)@.wf() ==> final(self)@.wf(),
    {
        if !self.playing {
            self.playing = true;
            self.start_animating(false)
        } else {
            Command::Keep
        }
    }

    /// Moves to `end` at once.
    pub fn jump_to(&mut self, end: Percentage) -> (r: Command<SpringRun>)
        ensures
            final(self)@ == old(self)@.jumped(end),
            r is Stop,
            same_clock(r, old(self)@, final(self)@),
            old(self)@.wf() ==> final(self)@.wf(),
    {
        let command = self.stop_animating();
        self.end = end;
        self.value.set_neq(end);
        command
    }

    /// Goes to `end` from where it is, and begins as fast as it is configured
    /// to. Nothing happens if it goes there already.
    pub fn animate_to(&mut self, end: Percentage) -> (r: Command<SpringRun>)
        ensures
            (final(self)@, r) == old(self)@.sent(end, true),
            same_clock(r, old(self)@, final(self)@),
            old(self)@.wf() ==> final(self)@.wf(),
    {
        if self.end != end {
            self.end = end;
            self.start_animating(true)
        } else {
            Command::Keep
        }
    }

    /// Goes to `end` from where it is, as fast as it was. Nothing happens if it
    /// goes there already.
    pub fn animate_to_contineous(&mut self, end: Percentage) -> (r: Command<SpringRun>)
        ensures
            (final(self)@, r) == old(self)@.sent(end, false),
            same_clock(r, old(self)@, final(self)@),
            old(self)@.wf() ==> final(self)@.wf(),
    {
        if self.end != end {
            self.end = end;
            self.start_animating(false)
        } else {
            Command::Keep
        }
    }

    /// The run that is under way.
    pub fn animating(&self) -> (r: Option<SpringRun>)
        ensures
            r == self@.animating,
    {
        self.animating
    }

    /// Whether the spring is playing.
    pub fn playing(&self) -> (r: bool)
        ensures
            r == self@.playing,
    {
        self.playing
    }

    /// Where the spring goes.
    pub fn end(&self) -> (r: Percentage)
        ensures
            r == self@.end,
    {
        self.end
    }

    /// How fast the spring was last.
    pub fn last_velocity(&self) -> (r: Double)
        ensures
            r == self@.last_velocity,
    {
        self.last_velocity
    }

    /// The properties of the spring.
    pub fn config(&self) -> (r: SpringConfig)
        ensures
            r == self@.config,
    {
        self.config
    }

    /// A signal of where the spring is.
    pub fn signal(&self) -> (r: MutableAnimationSignal)
        ensures
            reported_cell(r.0) == self@.cell,
    {
        MutableAnimationSignal(self.value.signal())
    }

    /// Where the spring is.
    pub fn current_percentage(&self) -> (r: Percentage)
        ensures
            r == self@.value,
    {
        self.value.get()
    }
}

/// A spring that plays and has nothing under way is where it goes, unless it is
/// slack or its end is not a number.
pub proof fn law_rests_at_the_end(m: SpringView)
    requires
        m.wf(),
        m.playing,
        m.animating is None,
        !m.end.0.nan(),
        !m.config.slack(),
    ensures
        m.value.equals(m.end),
{
}

/// A spring that comes to rest does so at its end and without velocity.
pub proof fn law_comes_to_rest(m: SpringView, time: Double, waves: Waves)
    requires
        m.wf(),
        m.animating is Some,
        m.ticked(time, waves).1 is Stop,
        !m.end.0.nan(),
        !m.config.slack(),
    ensures
        m.ticked(time, waves).0.value.equals(m.end),
        m.ticked(time, waves).0.last_velocity.bits == 0,
{
}

/// A spring whose overshoot is clamped is not found beyond its end after a
/// tick, seen from where its run began.
pub proof fn law_no_overshoot(m: SpringView, run: SpringRun, time: Double, waves: Waves)
    requires
        m.wf(),
        m.animating == Some(run),
        m.config.overshoot_clamping,
        !m.config.slack(),
    ensures
        run.start.below(run.end) ==> !run.end.below(m.ticked(time, waves).0.value.0),
        !run.start.below(run.end) ==> !m.ticked(time, waves).0.value.0.below(run.end),
{
}

/// The clock of a spring advances by a bounded step: it is not seen beyond its
/// limit.
pub proof fn law_bounded_step(run: SpringRun, time: Double)
    ensures
        !run.limit().below(run.clock(time)),
        run.clock(time) == time || run.clock(time) == run.limit(),
{
}

/// The clock of a spring does not go back, and neither does the time that it has
/// moved, as long as it is shown no earlier time than before.
pub proof fn law_time_goes_on(run: SpringRun, time: Double)
    requires
        run.last_time.finite(),
        run.last_time.nonnegative(),
        run.last_time.up_to(time),
        run.frame_time.finite(),
        time.finite(),
    ensures
        run.last_time.up_to(run.clock(time)),
        run.clock(time).finite(),
        run.frame_time.up_to(run.seconds(time)),
{
    lemma_advance(run, time);
}

/// What the clock advances by, and what the spring moves for, can be measured and
/// is not below zero.
pub proof fn lemma_advance(run: SpringRun, time: Double)
    requires
        run.last_time.finite(),
        run.last_time.nonnegative(),
        run.last_time.up_to(time),
        run.frame_time.finite(),
        time.finite(),
    ensures
        run.last_time.up_to(run.clock(time)),
        run.clock(time).finite(),
        run.frame_time.up_to(run.seconds(time)),
        ({
            let way = run.clock(time).minus(run.last_time);
            let delta = way.over(Double { bits: THOUSAND_BITS });
            &&& way.finite() && 0 <= way.value()
            &&& delta.finite() && 0 <= delta.value()
        }),
{
    let zero = Double { bits: 0 };
    let (steps, thousand) = (Double { bits: MAX_STEPS_BITS }, Double { bits: THOUSAND_BITS });
    let (last, now) = (run.last_time, run.clock(time));
    let w = pow2(1074) as int;
    lemma_pow2_pos(1074);
    lemma_one();
    lemma_magnitude_monotone(0, MAX_STEPS_BITS as int);
    lemma_magnitude_monotone(ONE_BITS as int, THOUSAND_BITS as int);
    lemma_plus(last, steps);
    lemma_rounded_monotone(last.value(), last.value() + steps.value(), 1);
    lemma_rounded_exact(last, 1);
    lemma_finite_value(time);
    lemma_finite_value(last);
    lemma_finite(now);
    let way = now.minus(last);
    lemma_minus(now, last);
    lemma_rounded_monotone(0, now.value() - last.value(), 1);
    lemma_rounded_monotone(now.value() - last.value(), now.value(), 1);
    lemma_rounded_exact(zero, 1);
    lemma_rounded_exact(now, 1);
    lemma_finite_value(now);
    lemma_finite(way);
    let delta = way.over(thousand);
    let (x, y) = (way.value(), thousand.value());
    lemma_over(way, thousand);
    assert(0 * y <= x * w <= x * y) by (nonlinear_arith)
        requires
            0 <= x,
            0 < w <= y,
    ;
    lemma_rounded_monotone(0 * y, x * w, y);
    lemma_rounded_monotone(x * w, x * y, y);
    lemma_rounded_exact(zero, y);
    lemma_rounded_exact(way, y);
    lemma_finite_value(way);
    lemma_finite(delta);
    lemma_plus(run.frame_time, delta);
    lemma_rounded_monotone(run.frame_time.value(), run.frame_time.value() + delta.value(), 1);
    lemma_rounded_exact(run.frame_time, 1);
}

/// A spring that is paused and goes on is on its way from where it is to the
/// same end, as fast as it was.
pub proof fn law_pause_and_play(m: SpringView)
    requires
        m.wf(),
        m.animating is Some,
    ensures
        ({
            let (n, command) = m.paused().0.resumed();
            &&& n.value == m.value
            &&& n.end == m.end
            &&& n.last_velocity == m.last_velocity
            &&& n.playing
            &&& command == if m.value.equals(m.end) {
                Command::Stop
            } else {
                Command::Start(m.spring_run(false))
            }
        }),
{
}

/// Telling a spring the same end again changes nothing.
pub proof fn law_send_twice(m: SpringView, end: Percentage, first: bool, second: bool)
    requires
        m.wf(),
        !end.0.nan(),
    ensures
        m.sent(end, first).0.sent(end, second) == (
            m.sent(end, first).0,
            Command::<SpringRun>::Keep,
        ),
{
}

/// Wherever a playing spring is sent or jumps, it ends there: it is there at
/// once, or the run that takes it there is under way.
pub proof fn law_sent_goes_there(m: SpringView, end: Percentage, reset_velocity: bool)
    requires
        m.wf(),
        m.playing,
        !end.0.nan(),
        !m.config.slack(),
    ensures
        m.jumped(end).value.equals(end),
        m.sent(end, reset_velocity).0.end.equals(end),
        m.sent(end, reset_velocity).0.animating matches Some(run) ==> Percentage(run.end).equals(
            end,
        ),
        m.sent(end, reset_velocity).0.animating is None ==> m.sent(
            end,
            reset_velocity,
        ).0.value.equals(end),
{
}

} // verus!
