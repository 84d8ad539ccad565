use dominator_animation::clock::Command;
use dominator_animation::double::Double;
use dominator_animation::poll::Poll;
use dominator_animation::timestamps::{
    timestamps, timestamps_absolute_difference, timestamps_difference, TimestampsGlobal,
};

fn double(x: f64) -> Double {
    Double::from_bits(x.to_bits())
}

fn some(x: f64) -> Option<Double> {
    Some(double(x))
}

#[test]
fn frames_are_asked_for_while_somebody_follows() {
    let mut global: TimestampsGlobal<u32> = TimestampsGlobal::new();
    let (first, command) = timestamps(&mut global);
    assert_eq!(command, Command::Start(()));
    let (second, command) = timestamps(&mut global);
    assert_eq!(command, Command::Keep);
    assert_eq!(global.next_id(), 2);
    assert_eq!(global.on_frame(double(1.0)).1, Command::Keep);
    global.release(&first);
    assert_eq!(global.on_frame(double(2.0)).1, Command::Keep);
    global.release(&second);
    assert_eq!(global.on_frame(double(3.0)).1, Command::Stop);
    let (_, command) = timestamps(&mut global);
    assert_eq!(command, Command::Start(()));
}

#[test]
fn a_follower_is_told_each_frame_once() {
    let mut global: TimestampsGlobal<u32> = TimestampsGlobal::new();
    let (follower, _) = timestamps(&mut global);
    assert_eq!(follower.poll_change(&mut global, 1), Poll::Ready(Some(None)));
    assert_eq!(follower.poll_change(&mut global, 2), Poll::Pending);
    assert_eq!(global.on_frame(double(16.0)).0, vec![2]);
    assert_eq!(follower.poll_change(&mut global, 3), Poll::Ready(Some(some(16.0))));
    assert_eq!(follower.poll_change(&mut global, 4), Poll::Pending);
    assert_eq!(follower.poll_change(&mut global, 5), Poll::Pending);
    assert_eq!(global.on_frame(double(32.0)).0, vec![5]);
    assert_eq!(global.on_frame(double(48.0)).0, vec![]);
    assert_eq!(follower.poll_change(&mut global, 6), Poll::Ready(Some(some(48.0))));
}

#[test]
fn a_frame_before_the_first_question_is_told() {
    let mut global: TimestampsGlobal<u32> = TimestampsGlobal::new();
    let (follower, _) = timestamps(&mut global);
    let _ = global.on_frame(double(16.0));
    assert_eq!(follower.poll_change(&mut global, 1), Poll::Ready(Some(some(16.0))));
    // Whoever comes later hears nothing of it.
    let (late, _) = timestamps(&mut global);
    assert_eq!(late.poll_change(&mut global, 1), Poll::Ready(Some(None)));
    assert_eq!(late.poll_change(&mut global, 1), Poll::Pending);
}

#[test]
fn followers_are_woken_in_order_and_only_while_they_follow() {
    let mut global: TimestampsGlobal<u32> = TimestampsGlobal::new();
    let mut followers = vec![];
    for i in 0..9 {
        let (follower, _) = timestamps(&mut global);
        assert_eq!(follower.poll_change(&mut global, i), Poll::Ready(Some(None)));
        followers.push(follower);
    }
    for i in [8, 3, 5, 0, 4, 7] {
        assert_eq!(followers[i].poll_change(&mut global, 10 * i as u32), Poll::Pending);
    }
    global.release(&followers[4]);
    assert_eq!(global.on_frame(double(1.0)).0, vec![0, 30, 50, 70, 80]);
    for i in [0, 1, 2, 3, 5, 6, 7, 8] {
        assert_eq!(followers[i].poll_change(&mut global, 0), Poll::Ready(Some(some(1.0))));
        assert_eq!(followers[i].poll_change(&mut global, i as u32), Poll::Pending);
    }
    assert_eq!(global.on_frame(double(2.0)).0, vec![0, 1, 2, 3, 5, 6, 7, 8]);
}

#[test]
fn the_absolute_difference_counts_from_the_first_frame() {
    let mut start = None;
    assert_eq!(timestamps_absolute_difference(&mut start, None), None);
    assert_eq!(start, None);
    let first = timestamps_absolute_difference(&mut start, some(100.25));
    assert_eq!(first.map(|x| x.to_bits()), Some(0));
    assert_eq!(start, some(100.25));
    assert_eq!(timestamps_absolute_difference(&mut start, some(116.9)), some(116.9 - 100.25));
    assert_eq!(timestamps_absolute_difference(&mut start, None), None);
    assert_eq!(timestamps_absolute_difference(&mut start, some(133.5)), some(133.5 - 100.25));
    assert_eq!(start, some(100.25));
}

#[test]
fn the_difference_counts_from_the_last_frame() {
    let mut previous = None;
    assert_eq!(timestamps_difference(&mut previous, None), None);
    assert_eq!(timestamps_difference(&mut previous, some(100.25)), some(0.0));
    assert_eq!(previous, some(100.25));
    assert_eq!(timestamps_difference(&mut previous, some(116.9)), some(116.9 - 100.25));
    assert_eq!(timestamps_difference(&mut previous, some(133.5)), some(133.5 - 116.9));
    assert_eq!(timestamps_difference(&mut previous, None), None);
    assert_eq!(previous, None);
    assert_eq!(timestamps_difference(&mut previous, some(200.0)), some(0.0));
}

#[test]
fn the_differences_add_up() {
    let times = [100.25, 100.25, 116.9, 133.5, 150.125, 1000.7, 1000.8];
    let (mut previous, mut start) = (None, None);
    let mut sum = 0.0;
    for time in times {
        let step = timestamps_difference(&mut previous, some(time)).unwrap();
        let whole = timestamps_absolute_difference(&mut start, some(time)).unwrap();
        let (step, whole) = (f64::from_bits(step.to_bits()), f64::from_bits(whole.to_bits()));
        assert!(step >= 0.0 && whole >= 0.0);
        assert_eq!(whole, time - times[0]);
        sum += step;
        assert!((sum - whole).abs() <= 8.0 * f64::EPSILON * whole);
    }
}

#[test]
fn one_loop_runs_at_most() {
    let mut global: TimestampsGlobal<u32> = TimestampsGlobal::new();
    let mut followers = vec![];
    let mut loops = 0;
    let mut seed: u64 = 3;
    for _ in 0..2000 {
        seed = seed.wrapping_mul(6364136223846793005).wrapping_add(1442695040888963407);
        let command = match (seed >> 33) % 4 {
            0 => {
                let (follower, command) = timestamps(&mut global);
                assert_eq!(command == Command::Start(()), loops == 0);
                followers.push(follower);
                command
            }
            1 | 2 => {
                if let Some(follower) = followers.pop() {
                    global.release(&follower);
                }
                Command::Keep
            }
            _ if loops == 1 => {
                let (_, command) = global.on_frame(double(1.0));
                assert_eq!(command == Command::Stop, followers.is_empty());
                command
            }
            _ => Command::Keep,
        };
        match command {
            Command::Start(()) => loops += 1,
            Command::Stop => loops -= 1,
            Command::Keep => {}
        }
        assert!(loops == 0 || loops == 1);
        assert!(followers.is_empty() || loops == 1);
    }
}
