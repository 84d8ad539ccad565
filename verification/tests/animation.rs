use dominator_animation::animation::{MutableAnimation, Tween};
use dominator_animation::clock::Command;
use dominator_animation::double::Double;
use dominator_animation::percentage::Percentage;

fn double(x: f64) -> Double {
    Double::from_bits(x.to_bits())
}

fn number(x: Double) -> f64 {
    f64::from_bits(x.to_bits())
}

fn percentage(x: f64) -> Percentage {
    Percentage::new_unchecked(double(x))
}

fn current(animation: &MutableAnimation) -> f64 {
    number(animation.current_percentage().into_f64())
}

fn end(animation: &MutableAnimation) -> f64 {
    number(animation.end().into_f64())
}

fn started(command: Command<Tween>) -> Tween {
    match command {
        Command::Start(tween) => tween,
        other => panic!("no run begins: {:?}", other),
    }
}

#[test]
fn a_new_animation_rests_at_its_start() {
    let animation = MutableAnimation::new(double(500.0));
    assert_eq!(animation.current_percentage().into_f64().to_bits(), 0);
    assert_eq!(end(&animation), 0.0);
    assert_eq!(number(animation.duration()), 500.0);
    assert!(animation.playing());
    assert_eq!(animation.animating(), None);
}

#[test]
fn a_new_animation_may_rest_elsewhere() {
    let animation = MutableAnimation::new_with_initial(double(500.0), percentage(0.75));
    assert_eq!(current(&animation), 0.75);
    assert_eq!(end(&animation), 0.75);
    assert_eq!(animation.animating(), None);
}

#[test]
fn an_animation_goes_to_its_end() {
    let mut animation = MutableAnimation::new(double(500.0));
    let tween = started(animation.animate_to(percentage(1.0)));
    assert_eq!(number(tween.start), 0.0);
    assert_eq!(number(tween.end), 1.0);
    assert_eq!(number(tween.duration), 500.0);
    assert_eq!(animation.animating(), Some(tween));
    for time in [0.0, 16.7, 100.0, 250.0, 499.9] {
        assert_eq!(animation.on_frame(double(time)), Command::Keep);
        assert_eq!(current(&animation), 0.0 + (time / 500.0) * (1.0 - 0.0));
    }
    assert_eq!(animation.on_frame(double(500.0)), Command::Stop);
    assert_eq!(current(&animation), 1.0);
    assert_eq!(animation.animating(), None);
    assert_eq!(animation.on_frame(double(600.0)), Command::Keep);
    assert_eq!(current(&animation), 1.0);
}

#[test]
fn a_part_of_the_way_takes_a_part_of_the_time() {
    let mut animation = MutableAnimation::new_with_initial(double(500.0), percentage(0.7));
    let tween = started(animation.animate_to(percentage(0.1)));
    let (start, end): (f64, f64) = (0.7, 0.1);
    let duration = (end - start).abs() * 500.0;
    assert_eq!(number(tween.duration), duration);
    let mut last = start;
    for i in 0..=100 {
        let time = i as f64 * 2.99;
        assert_eq!(animation.on_frame(double(time)), Command::Keep);
        let value = current(&animation);
        assert_eq!(value, start + (time / duration) * (end - start));
        assert!(end <= value && value <= last);
        last = value;
    }
    assert_eq!(animation.on_frame(double(1000.0)), Command::Stop);
    assert_eq!(current(&animation), end);
}

#[test]
fn an_animation_does_not_pass_its_end() {
    let mut state: u64 = 0x9e37_79b9_7f4a_7c15;
    for _ in 0..2000 {
        let mut unit = || {
            state = state.wrapping_mul(6364136223846793005).wrapping_add(1442695040888963407);
            (state >> 11) as f64 / (1u64 << 53) as f64
        };
        let (start, end, duration) = (unit(), unit(), 1.0 + 1000.0 * unit());
        if start == end {
            continue;
        }
        let mut animation = MutableAnimation::new_with_initial(double(duration), percentage(start));
        let tween = started(animation.animate_to(percentage(end)));
        let whole = number(tween.duration);
        let mut last = start;
        for part in [0.0, 0.25, 0.5, 0.999, 1.0 - f64::EPSILON, 1.0 - f64::EPSILON / 2.0] {
            let _ = animation.on_frame(double(whole * part));
            let value = current(&animation);
            assert!((0.0..=1.0).contains(&value));
            if start < end {
                assert!(last <= value && value <= end);
            } else {
                assert!(end <= value && value <= last);
            }
            last = value;
        }
    }
}

#[test]
fn the_same_end_again_changes_nothing() {
    let mut animation = MutableAnimation::new(double(500.0));
    let tween = started(animation.animate_to(percentage(1.0)));
    let _ = animation.on_frame(double(100.0));
    assert_eq!(animation.animate_to(percentage(1.0)), Command::Keep);
    assert_eq!(animation.animating(), Some(tween));
    assert_eq!(current(&animation), 0.2);
}

#[test]
fn going_back_stops_at_the_start() {
    let mut animation = MutableAnimation::new(double(500.0));
    let _ = animation.animate_to(percentage(1.0));
    assert_eq!(animation.animate_to(percentage(0.0)), Command::Stop);
    assert_eq!(animation.animating(), None);
    assert_eq!(current(&animation), 0.0);
    // The two zeros are the same end.
    assert_eq!(animation.animate_to(percentage(-0.0)), Command::Keep);
    assert_eq!(animation.end().into_f64().to_bits(), 0);
}

#[test]
fn turning_round_takes_the_time_of_the_way_back() {
    let mut animation = MutableAnimation::new(double(400.0));
    let _ = animation.animate_to(percentage(1.0));
    let _ = animation.on_frame(double(100.0));
    let tween = started(animation.animate_to(percentage(0.0)));
    assert_eq!(number(tween.start), 0.25);
    assert_eq!(number(tween.end), 0.0);
    assert_eq!(number(tween.duration), 100.0);
}

#[test]
fn no_time_means_at_once() {
    let mut animation = MutableAnimation::new(double(0.0));
    assert_eq!(animation.animate_to(percentage(1.0)), Command::Stop);
    assert_eq!(current(&animation), 1.0);
    assert_eq!(end(&animation), 1.0);
    assert_eq!(animation.animating(), None);
    // Even while it is paused.
    let _ = animation.pause();
    assert_eq!(animation.animate_to(percentage(0.5)), Command::Stop);
    assert_eq!(current(&animation), 0.5);
}

#[test]
fn jumping_stops_the_run() {
    let mut animation = MutableAnimation::new(double(500.0));
    let _ = animation.animate_to(percentage(1.0));
    let _ = animation.on_frame(double(100.0));
    assert_eq!(animation.jump_to(percentage(0.9)), Command::Stop);
    assert_eq!(current(&animation), 0.9);
    assert_eq!(end(&animation), 0.9);
    assert_eq!(animation.animating(), None);
    assert_eq!(animation.on_frame(double(200.0)), Command::Keep);
    assert_eq!(current(&animation), 0.9);
}

#[test]
fn a_paused_animation_stays_and_goes_on() {
    let mut animation = MutableAnimation::new(double(500.0));
    let _ = animation.animate_to(percentage(1.0));
    let _ = animation.on_frame(double(250.0));
    assert_eq!(animation.pause(), Command::Stop);
    assert_eq!(animation.pause(), Command::Keep);
    assert!(!animation.playing());
    assert_eq!(animation.animating(), None);
    assert_eq!(current(&animation), 0.5);
    assert_eq!(animation.set_duration(double(100.0)), Command::Keep);
    assert_eq!(animation.animate_to(percentage(0.25)), Command::Keep);
    assert_eq!(current(&animation), 0.5);
    let tween = started(animation.play());
    assert_eq!(number(tween.start), 0.5);
    assert_eq!(number(tween.end), 0.25);
    assert_eq!(number(tween.duration), 25.0);
    assert!(animation.playing());
    assert_eq!(animation.play(), Command::Keep);
}

#[test]
fn playing_at_the_end_stops() {
    let mut animation = MutableAnimation::new(double(500.0));
    let _ = animation.pause();
    assert_eq!(animation.play(), Command::Stop);
    assert_eq!(animation.animating(), None);
}

#[test]
fn playing_after_the_time_was_taken_away_jumps() {
    let mut animation = MutableAnimation::new(double(500.0));
    let _ = animation.pause();
    let _ = animation.animate_to(percentage(1.0));
    assert_eq!(animation.set_duration(double(0.0)), Command::Keep);
    assert_eq!(current(&animation), 0.0);
    assert_eq!(animation.play(), Command::Stop);
    assert_eq!(current(&animation), 1.0);
}

#[test]
fn another_pace_starts_anew_from_here() {
    let mut animation = MutableAnimation::new(double(500.0));
    let _ = animation.animate_to(percentage(1.0));
    let _ = animation.on_frame(double(250.0));
    assert_eq!(animation.set_duration(double(500.0)), Command::Keep);
    let tween = started(animation.set_duration(double(1000.0)));
    assert_eq!(number(tween.start), 0.5);
    assert_eq!(number(tween.duration), 500.0);
    assert_eq!(animation.set_duration(double(0.0)), Command::Stop);
    assert_eq!(current(&animation), 1.0);
}

#[test]
fn an_end_that_is_no_number_is_never_reached() {
    let mut animation = MutableAnimation::new(double(500.0));
    let tween = started(animation.animate_to(percentage(f64::NAN)));
    assert!(tween.duration.is_nan());
    assert_eq!(animation.on_frame(double(10_000.0)), Command::Keep);
    assert!(animation.current_percentage().into_f64().is_nan());
    // It is another end each time.
    let _ = started(animation.animate_to(percentage(f64::NAN)));
}

#[test]
fn a_way_too_short_to_time_has_no_first_position() {
    let mut animation = MutableAnimation::new(double(1.0e-300));
    let tween = started(animation.animate_to(percentage(1.0e-300)));
    assert_eq!(number(tween.duration), 0.0);
    assert_eq!(animation.on_frame(double(0.0)), Command::Keep);
    assert!(animation.current_percentage().into_f64().is_nan());
    assert_eq!(animation.on_frame(double(1.0)), Command::Stop);
    assert_eq!(current(&animation), 1.0e-300);
}

#[test]
fn a_run_lasts_exactly_as_long_as_its_duration() {
    let mut state: u64 = 0x1234_5678_9abc_def1;
    for _ in 0..2000 {
        state = state.wrapping_mul(6364136223846793005).wrapping_add(1442695040888963407);
        let duration = 1.0 + (state >> 20) as f64 / 1.0e9;
        let mut animation = MutableAnimation::new(double(duration));
        let tween = started(animation.animate_to(percentage(1.0)));
        assert_eq!(number(tween.duration), duration);
        let just_before = f64::from_bits(duration.to_bits() - 1);
        assert_eq!(animation.on_frame(double(just_before)), Command::Keep);
        assert!(current(&animation) < 1.0);
        assert_eq!(animation.on_frame(double(duration)), Command::Stop);
        assert_eq!(current(&animation), 1.0);
    }
}

#[test]
fn a_run_that_takes_forever_and_one_that_does_not() {
    let mut animation = MutableAnimation::new_with_initial(double(f64::INFINITY), percentage(0.25));
    let run = started(animation.animate_to(percentage(1.0)));
    assert_eq!(number(run.duration), f64::INFINITY);
    assert_eq!(animation.on_frame(double(1.0e300)), Command::Keep);
    assert_eq!(current(&animation), 0.25);
    // A finite run is over after an infinite time.
    let mut animation = MutableAnimation::new(double(500.0));
    let _ = animation.animate_to(percentage(1.0));
    assert_eq!(animation.on_frame(double(f64::INFINITY)), Command::Stop);
    assert_eq!(current(&animation), 1.0);
}

#[test]
fn a_duration_below_zero_takes_no_time() {
    for duration in [-1.0, f64::NEG_INFINITY, f64::NAN] {
        let mut animation = MutableAnimation::new(double(duration));
        assert_eq!(animation.animate_to(percentage(1.0)), Command::Stop);
        assert_eq!(current(&animation), 1.0);
        let mut animation = MutableAnimation::new(double(500.0));
        let _ = animation.animate_to(percentage(1.0));
        assert_eq!(animation.set_duration(double(duration)), Command::Stop);
        assert_eq!(current(&animation), 1.0);
    }
}
