use dominator_animation::clock::Command;
use dominator_animation::double::Double;
use dominator_animation::percentage::Percentage;
use dominator_animation::spring::{
    MutableSpringAnimation, SpringConfig, SpringRun, Waves, HUNDRED_BITS, MAX_STEPS_BITS, TEN_BITS,
    THOUSANDTH_BITS, THOUSAND_BITS,
};

fn double(x: f64) -> Double {
    Double::from_bits(x.to_bits())
}

fn number(x: Double) -> f64 {
    f64::from_bits(x.to_bits())
}

fn percentage(x: f64) -> Percentage {
    Percentage::new_unchecked(double(x))
}

fn current(spring: &MutableSpringAnimation) -> f64 {
    number(spring.current_percentage().into_f64())
}

fn started(command: Command<SpringRun>) -> SpringRun {
    match command {
        Command::Start(run) => run,
        other => panic!("no run begins: {:?}", other),
    }
}

/// Hands the spring a tick, with the waves that it asks for.
fn tick(spring: &mut MutableSpringAnimation, time: f64) -> Command<SpringRun> {
    match spring.wave_inputs(double(time)) {
        None => Command::Keep,
        Some(inputs) => {
            let angle = number(inputs.angle);
            let waves = Waves {
                envelope: double(number(inputs.decay).exp()),
                sin: double(angle.sin()),
                cos: double(angle.cos()),
            };
            spring.on_frame(double(time), waves)
        }
    }
}

#[derive(Clone, Copy)]
struct Config {
    stiffness: f64,
    damping: f64,
    mass: f64,
    initial_velocity: f64,
    clamping: bool,
    displacement: f64,
    speed: f64,
}

const MEDIUM: Config = Config {
    stiffness: 100.0,
    damping: 10.0,
    mass: 1.0,
    initial_velocity: 0.0,
    clamping: true,
    displacement: 0.001,
    speed: 0.001,
};

fn config(c: Config) -> SpringConfig {
    SpringConfig {
        stiffness: double(c.stiffness),
        damping: double(c.damping),
        mass: double(c.mass),
        initial_velocity: double(c.initial_velocity),
        overshoot_clamping: c.clamping,
        rest_displacement_threshold: double(c.displacement),
        rest_speed_threshold: double(c.speed),
    }
}

/// The same spring in native numbers.
struct Native {
    config: Config,
    start: f64,
    end: f64,
    v0: f64,
    last_time: f64,
    frame_time: f64,
    value: f64,
    velocity: f64,
    running: bool,
}

impl Native {
    fn new(config: Config, start: f64, end: f64, v0: f64) -> Native {
        Native {
            config,
            start,
            end,
            v0,
            last_time: 0.0,
            frame_time: 0.0,
            value: start,
            velocity: 0.0,
            running: true,
        }
    }

    fn tick(&mut self, diff: f64) {
        let Config { stiffness: k, damping: c, mass: m, .. } = self.config;
        let (v0, end) = (self.v0, self.end);
        let mut now = diff;
        if now > self.last_time + 64.0 {
            now = self.last_time + 64.0;
        }
        self.frame_time += (now - self.last_time) / 1000.0;
        let zeta = c / (2.0 * (k * m).sqrt());
        let omega0 = (k / m).sqrt();
        let omega1 = omega0 * (1.0 - zeta * zeta).sqrt();
        let x0 = end - self.start;
        let t = self.frame_time;
        let value: f64;
        let velocity: f64;
        if zeta < 1.0 {
            let envelope = (-zeta * omega0 * t).exp();
            value = end
                - envelope
                    * (((v0 + zeta * omega0 * x0) / omega1) * (omega1 * t).sin()
                        + x0 * (omega1 * t).cos());
            velocity = zeta
                * omega0
                * envelope
                * (((omega1 * t).sin() * (v0 + zeta * omega0 * x0)) / omega1
                    + x0 * (omega1 * t).cos())
                - envelope
                    * ((omega1 * t).cos() * (v0 + zeta * omega0 * x0)
                        - omega1 * x0 * (omega1 * t).sin());
        } else {
            let envelope = (-omega0 * t).exp();
            value = end - envelope * (x0 + (v0 + omega0 * x0) * t);
            velocity = envelope * (v0 * (t * omega0 - 1.0) + t * x0 * (omega0 * omega0));
        }
        self.last_time = now;
        self.velocity = velocity;
        self.value = value;
        let mut overshooting = false;
        if self.config.clamping && k != 0.0 {
            overshooting = if self.start < end { value > end } else { value < end };
        }
        let slow = velocity.abs() <= self.config.speed;
        let near = k == 0.0 || (end - value).abs() <= self.config.displacement;
        if overshooting || (slow && near) {
            if k != 0.0 {
                self.velocity = 0.0;
                self.value = end;
            }
            self.running = false;
        }
    }
}

/// Follows a spring and its native twin until both stop, and says how many
/// ticks that takes.
fn follow(spring: &mut MutableSpringAnimation, native: &mut Native, step: f64) -> usize {
    for i in 0..5000 {
        let time = i as f64 * step;
        let command = tick(spring, time);
        native.tick(time);
        assert_eq!(current(spring).to_bits(), native.value.to_bits());
        assert_eq!(spring.last_velocity().to_bits(), native.velocity.to_bits());
        assert_eq!(spring.animating().is_some(), native.running);
        assert_eq!(command == Command::Stop, !native.running);
        if !native.running {
            return i + 1;
        }
    }
    panic!("the spring does not come to rest");
}

#[test]
fn the_constants_are_what_they_stand_for() {
    assert_eq!(HUNDRED_BITS, 100.0f64.to_bits());
    assert_eq!(TEN_BITS, 10.0f64.to_bits());
    assert_eq!(THOUSANDTH_BITS, 0.001f64.to_bits());
    assert_eq!(THOUSAND_BITS, 1000.0f64.to_bits());
    assert_eq!(MAX_STEPS_BITS, 64.0f64.to_bits());
}

#[test]
fn a_new_spring_rests_at_its_start() {
    let spring = MutableSpringAnimation::new();
    assert_eq!(spring.current_percentage().into_f64().to_bits(), 0);
    assert_eq!(spring.end().into_f64().to_bits(), 0);
    assert_eq!(spring.last_velocity().to_bits(), 0);
    assert_eq!(spring.config(), config(MEDIUM));
    assert!(spring.playing());
    assert_eq!(spring.animating(), None);
    assert_eq!(spring.wave_inputs(double(16.0)), None);
}

#[test]
fn the_oscillation_of_the_medium_spring() {
    let oscillation = config(MEDIUM).oscillate();
    assert_eq!(number(oscillation.zeta), 0.5);
    assert_eq!(number(oscillation.omega0), 10.0);
    assert_eq!(number(oscillation.omega1), 10.0 * 0.75f64.sqrt());
}

#[test]
fn a_spring_goes_to_its_end_and_stops_when_it_passes() {
    let mut spring = MutableSpringAnimation::new();
    let run = started(spring.animate_to(percentage(1.0)));
    assert_eq!(number(run.start), 0.0);
    assert_eq!(number(run.end), 1.0);
    assert_eq!(run.velocity.to_bits(), (-0.0f64).to_bits());
    let mut native = Native::new(MEDIUM, 0.0, 1.0, -0.0);
    let ticks = follow(&mut spring, &mut native, 16.0);
    assert_eq!(current(&spring), 1.0);
    assert_eq!(spring.last_velocity().to_bits(), 0);
    // It passes its end for the first time after a quarter of a second.
    assert!((14..=18).contains(&ticks));
    assert_eq!(spring.animating(), None);
}

#[test]
fn a_spring_that_may_overshoot_swings_around_its_end() {
    let swinging = Config { clamping: false, ..MEDIUM };
    let mut spring = MutableSpringAnimation::new_with_initial(percentage(0.25), config(swinging));
    let _ = started(spring.animate_to(percentage(0.75)));
    let mut native = Native::new(swinging, 0.25, 0.75, -0.0);
    let ticks = follow(&mut spring, &mut native, 16.0);
    assert!(ticks > 40);
    assert_eq!(current(&spring), 0.75);
}

#[test]
fn a_spring_goes_back_too() {
    let mut spring = MutableSpringAnimation::new_with_initial(percentage(1.0), config(MEDIUM));
    let _ = started(spring.animate_to(percentage(0.0)));
    let mut native = Native::new(MEDIUM, 1.0, 0.0, -0.0);
    follow(&mut spring, &mut native, 7.0);
    assert_eq!(current(&spring), 0.0);
}

#[test]
fn a_spring_that_is_damped_strongly_does_not_swing() {
    for damping in [20.0, 25.0, 60.0] {
        let damped = Config { damping, initial_velocity: 2.0, ..MEDIUM };
        let mut spring = MutableSpringAnimation::new_with_initial(percentage(0.0), config(damped));
        let run = started(spring.animate_to(percentage(1.0)));
        assert_eq!(number(run.velocity), -2.0);
        let mut native = Native::new(damped, 0.0, 1.0, -2.0);
        follow(&mut spring, &mut native, 16.0);
        assert_eq!(current(&spring), 1.0);
    }
}

#[test]
fn a_slack_spring_drifts_and_stops_where_it_is() {
    let slack = Config { stiffness: 0.0, initial_velocity: 1.0, ..MEDIUM };
    let mut spring = MutableSpringAnimation::new_with_initial(percentage(0.0), config(slack));
    let _ = started(spring.animate_to(percentage(1.0)));
    let mut native = Native::new(slack, 0.0, 1.0, -1.0);
    for i in 0..20 {
        let _ = tick(&mut spring, 16.0 * i as f64);
        native.tick(16.0 * i as f64);
        assert_eq!(current(&spring).to_bits(), native.value.to_bits());
        assert_eq!(spring.animating().is_some(), native.running);
    }
    // Without a velocity it stays at once, away from its end.
    let still = Config { initial_velocity: 0.0, damping: 0.0, mass: 1.0, ..slack };
    let mut spring = MutableSpringAnimation::new_with_initial(percentage(0.5), config(still));
    let _ = started(spring.animate_to(percentage(1.0)));
    let zero = Waves { envelope: double(1.0), sin: double(0.0), cos: double(1.0) };
    assert_eq!(spring.on_frame(double(0.0), zero), Command::Stop);
    assert_eq!(current(&spring), 0.5);
    assert_eq!(spring.animating(), None);
}

#[test]
fn lost_frames_advance_the_clock_by_a_bounded_step() {
    let mut spring = MutableSpringAnimation::new();
    let _ = spring.animate_to(percentage(1.0));
    assert_eq!(tick(&mut spring, 10_000.0), Command::Keep);
    let run = spring.animating().unwrap();
    assert_eq!(number(run.last_time), 64.0);
    assert_eq!(number(run.frame_time), 0.064);
    let mut native = Native::new(MEDIUM, 0.0, 1.0, -0.0);
    native.tick(10_000.0);
    assert_eq!(current(&spring), native.value);
    assert_eq!(tick(&mut spring, 10_016.0), Command::Keep);
    assert_eq!(number(spring.animating().unwrap().last_time), 128.0);
}

#[test]
fn the_time_of_a_spring_goes_on() {
    let slow = Config { stiffness: 1.0, damping: 0.1, ..MEDIUM };
    let mut spring = MutableSpringAnimation::new_with_initial(percentage(0.0), config(slow));
    let _ = spring.animate_to(percentage(1.0));
    let mut last = (0.0, 0.0);
    for time in [0.0, 0.0, 16.0, 33.3, 500.0, 500.0, 516.0, 700.0] {
        assert_eq!(tick(&mut spring, time), Command::Keep);
        let run = spring.animating().unwrap();
        let next = (number(run.last_time), number(run.frame_time));
        assert!(last.0 <= next.0 && next.0 <= last.0 + 64.0);
        assert!(last.1 <= next.1);
        last = next;
    }
}

#[test]
fn a_spring_goes_on_as_fast_as_it_was() {
    let mut spring = MutableSpringAnimation::new();
    let _ = spring.animate_to(percentage(1.0));
    for i in 0..8 {
        let _ = tick(&mut spring, 16.0 * i as f64);
    }
    let velocity = number(spring.last_velocity());
    let value = current(&spring);
    assert!(velocity > 0.0 && value > 0.0);
    let run = started(spring.animate_to_contineous(percentage(0.5)));
    assert_eq!(number(run.velocity), -velocity);
    assert_eq!(number(run.start), value);
    let mut native = Native::new(MEDIUM, value, 0.5, -velocity);
    follow(&mut spring, &mut native, 16.0);
    // Without continuity it begins as it is configured.
    let _ = spring.animate_to(percentage(1.0));
    let _ = tick(&mut spring, 60.0);
    let run = started(spring.animate_to(percentage(0.0)));
    assert_eq!(run.velocity.to_bits(), (-0.0f64).to_bits());
}

#[test]
fn a_paused_spring_stays_and_goes_on() {
    let mut spring = MutableSpringAnimation::new();
    let _ = spring.animate_to(percentage(1.0));
    let _ = tick(&mut spring, 50.0);
    let (value, velocity) = (current(&spring), number(spring.last_velocity()));
    assert_eq!(spring.pause(), Command::Stop);
    assert_eq!(spring.pause(), Command::Keep);
    assert!(!spring.playing());
    assert_eq!(tick(&mut spring, 60.0), Command::Keep);
    assert_eq!(current(&spring), value);
    let run = started(spring.play());
    assert_eq!(number(run.start), value);
    assert_eq!(number(run.velocity), -velocity);
    assert_eq!(spring.play(), Command::Keep);
}

#[test]
fn a_paused_spring_can_be_sent() {
    let mut spring = MutableSpringAnimation::new();
    let _ = spring.pause();
    assert_eq!(spring.animate_to(percentage(1.0)), Command::Keep);
    assert_eq!(number(spring.end().into_f64()), 1.0);
    assert_eq!(spring.animate_to_contineous(percentage(0.5)), Command::Keep);
    let run = started(spring.play());
    assert_eq!(number(run.end), 0.5);
}

#[test]
fn a_spring_jumps() {
    let mut spring = MutableSpringAnimation::new();
    let _ = spring.animate_to(percentage(1.0));
    let _ = tick(&mut spring, 50.0);
    let velocity = spring.last_velocity();
    assert_eq!(spring.jump_to(percentage(0.5)), Command::Stop);
    assert_eq!(current(&spring), 0.5);
    assert_eq!(spring.animating(), None);
    assert_eq!(spring.last_velocity(), velocity);
    assert_eq!(tick(&mut spring, 60.0), Command::Keep);
    assert_eq!(current(&spring), 0.5);
}

#[test]
fn the_same_end_again_does_not_restart_a_spring() {
    let mut spring = MutableSpringAnimation::new();
    let run = started(spring.animate_to(percentage(1.0)));
    assert_eq!(spring.animate_to(percentage(1.0)), Command::Keep);
    assert_eq!(spring.animate_to_contineous(percentage(1.0)), Command::Keep);
    assert_eq!(spring.animating(), Some(run));
    // Back to where it still is.
    assert_eq!(spring.animate_to(percentage(0.0)), Command::Stop);
    assert_eq!(spring.animating(), None);
}

#[test]
fn a_clamped_spring_is_not_found_beyond_its_end() {
    for (stiffness, damping, mass) in [(100.0, 2.0, 1.0), (400.0, 1.0, 3.0), (170.0, 26.0, 1.0)] {
        let c = Config { stiffness, damping, mass, ..MEDIUM };
        for (start, end) in [(0.0, 1.0), (0.9, 0.1)] {
            let mut spring = MutableSpringAnimation::new_with_initial(percentage(start), config(c));
            let _ = spring.animate_to(percentage(end));
            let mut native = Native::new(c, start, end, -0.0);
            for i in 0..400 {
                let _ = tick(&mut spring, 16.0 * i as f64);
                if native.running {
                    native.tick(16.0 * i as f64);
                }
                assert_eq!(current(&spring), native.value);
                if start < end {
                    assert!(current(&spring) <= end);
                } else {
                    assert!(current(&spring) >= end);
                }
            }
        }
    }
}

#[test]
fn lost_time_is_caught_up() {
    let slow = Config { stiffness: 1.0, damping: 0.1, ..MEDIUM };
    let mut late = MutableSpringAnimation::new_with_initial(percentage(0.0), config(slow));
    let mut early = MutableSpringAnimation::new_with_initial(percentage(0.0), config(slow));
    let _ = late.animate_to(percentage(1.0));
    let _ = early.animate_to(percentage(1.0));
    for (time, clock) in [(0.0, 0.0), (10_000.0, 64.0), (10_016.0, 128.0), (10_032.0, 192.0)] {
        let _ = tick(&mut late, time);
        let _ = tick(&mut early, clock);
        assert_eq!(number(late.animating().unwrap().last_time), clock);
        assert_eq!(late.animating(), early.animating());
        assert_eq!(current(&late).to_bits(), current(&early).to_bits());
        let seconds = number(late.animating().unwrap().frame_time);
        assert!((seconds - clock / 1000.0).abs() <= 4.0 * f64::EPSILON);
    }
}

#[test]
fn the_velocity_is_the_derivative() {
    for damping in [1.0, 10.0, 19.0, 20.0, 30.0] {
        let c = Config { damping, initial_velocity: 1.5, clamping: false, speed: 0.0, ..MEDIUM };
        let at = |millis: f64| {
            let mut spring = MutableSpringAnimation::new_with_initial(percentage(0.2), config(c));
            let _ = spring.animate_to(percentage(0.9));
            let _ = tick(&mut spring, millis);
            (current(&spring), number(spring.last_velocity()))
        };
        for millis in [1.0, 10.0, 30.0, 50.0, 63.0] {
            let h = 0.01;
            let slope = (at(millis + h).0 - at(millis - h).0) / (2.0 * h / 1000.0);
            assert!((slope - at(millis).1).abs() < 1.0e-5);
        }
        // At time zero it is as fast as it was to begin.
        let (value, velocity) = at(0.0);
        assert!((value - 0.2).abs() <= f64::EPSILON);
        assert!((velocity - 1.5).abs() <= 16.0 * f64::EPSILON);
    }
}

#[test]
fn a_spring_that_is_sent_on_its_way_goes_on_continuously() {
    for damping in [2.0, 10.0, 25.0] {
        let c = Config { damping, initial_velocity: 0.75, ..MEDIUM };
        let mut spring = MutableSpringAnimation::new_with_initial(percentage(0.0), config(c));
        let _ = spring.animate_to(percentage(1.0));
        for i in 0..6 {
            let _ = tick(&mut spring, 16.0 * i as f64);
        }
        let (x, v) = (current(&spring), number(spring.last_velocity()));
        let _ = started(spring.animate_to_contineous(percentage(0.8)));
        assert_eq!(spring.wave_inputs(double(0.0)).unwrap().decay, double(0.0));
        assert_eq!(spring.wave_inputs(double(0.0)).map(|w| number(w.decay).exp()), Some(1.0));
        assert_eq!(tick(&mut spring, 0.0), Command::Keep);
        let kept = current(&spring);
        assert_eq!(kept, 0.8 - (0.8 - x));
        assert!((kept - x).abs() <= f64::EPSILON);
        assert!((number(spring.last_velocity()) - v).abs() <= 16.0 * f64::EPSILON);
        assert!(spring.animating().is_some());
    }
}

#[test]
fn a_slack_spring_goes_on_continuously() {
    // Without stiffness the damping ratio is infinite, and the spring drifts.
    let slack = Config { stiffness: 0.0, initial_velocity: 0.5, ..MEDIUM };
    assert_eq!(number(config(slack).oscillate().zeta), f64::INFINITY);
    let mut spring = MutableSpringAnimation::new_with_initial(percentage(0.0), config(slack));
    let _ = spring.animate_to(percentage(1.0));
    let _ = tick(&mut spring, 50.0);
    let (x, v) = (current(&spring), number(spring.last_velocity()));
    assert!(x > 0.0);
    assert_eq!(v, 0.5);
    let _ = started(spring.animate_to_contineous(percentage(0.75)));
    assert_eq!(tick(&mut spring, 0.0), Command::Keep);
    assert_eq!(current(&spring), 0.75 - (0.75 - x));
    assert_eq!(number(spring.last_velocity()), v);
}
