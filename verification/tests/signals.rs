use dominator_animation::animation::MutableAnimation;
use dominator_animation::cell::PercentageCell;
use dominator_animation::double::Double;
use dominator_animation::percentage::Percentage;
use dominator_animation::spring::MutableSpringAnimation;
use futures_signals::signal::{MutableSignal, SignalExt};
use std::sync::atomic::{AtomicUsize, Ordering};
use std::sync::Arc;
use std::task::{Context, Poll, Wake, Waker};

fn percentage(x: f64) -> Percentage {
    Percentage::new_unchecked(Double::from_bits(x.to_bits()))
}

fn number(p: Percentage) -> f64 {
    f64::from_bits(p.into_f64().to_bits())
}

/// Counts how often it is woken.
struct Alarm(AtomicUsize);

impl Wake for Alarm {
    fn wake(self: Arc<Self>) {
        self.0.fetch_add(1, Ordering::SeqCst);
    }
}

fn alarm() -> (Arc<Alarm>, Waker) {
    let alarm = Arc::new(Alarm(AtomicUsize::new(0)));
    (alarm.clone(), Waker::from(alarm))
}

fn poll(signal: &mut MutableSignal<Percentage>, waker: &Waker) -> Option<f64> {
    match signal.poll_change_unpin(&mut Context::from_waker(waker)) {
        Poll::Ready(Some(p)) => Some(number(p)),
        Poll::Ready(None) => panic!("the cell is gone"),
        Poll::Pending => None,
    }
}

#[test]
fn a_cell_holds_what_was_set() {
    let mut cell = PercentageCell::new(percentage(0.25));
    assert_eq!(number(cell.get()), 0.25);
    cell.set_neq(percentage(0.75));
    assert_eq!(number(cell.get()), 0.75);
    cell.set_neq(percentage(f64::NAN));
    assert!(number(cell.get()).is_nan());
}

#[test]
fn a_cell_keeps_its_zero() {
    let mut cell = PercentageCell::new(percentage(0.0));
    cell.set_neq(percentage(-0.0));
    assert_eq!(cell.get().into_f64().to_bits(), 0);
    let mut cell = PercentageCell::new(percentage(-0.0));
    cell.set_neq(percentage(0.0));
    assert_eq!(number(cell.get()).to_bits(), (-0.0f64).to_bits());
}

#[test]
fn a_signal_tells_each_change_once() {
    let (alarm, waker) = alarm();
    let mut cell = PercentageCell::new(percentage(0.0));
    let mut signal = cell.signal();
    assert_eq!(poll(&mut signal, &waker), Some(0.0));
    assert_eq!(poll(&mut signal, &waker), None);
    cell.set_neq(percentage(0.0));
    assert_eq!(alarm.0.load(Ordering::SeqCst), 0);
    assert_eq!(poll(&mut signal, &waker), None);
    cell.set_neq(percentage(0.5));
    assert_eq!(alarm.0.load(Ordering::SeqCst), 1);
    assert_eq!(poll(&mut signal, &waker), Some(0.5));
    assert_eq!(poll(&mut signal, &waker), None);
}

#[test]
fn signals_of_two_cells_are_apart() {
    let (_, waker) = alarm();
    let mut first = PercentageCell::new(percentage(0.0));
    let second = PercentageCell::new(percentage(1.0));
    let (mut one, mut other) = (first.signal(), second.signal());
    assert_eq!(poll(&mut one, &waker), Some(0.0));
    assert_eq!(poll(&mut other, &waker), Some(1.0));
    first.set_neq(percentage(0.5));
    assert_eq!(poll(&mut one, &waker), Some(0.5));
    assert_eq!(poll(&mut other, &waker), None);
}

#[test]
fn a_signal_follows_an_animation() {
    let (alarm, waker) = alarm();
    let mut animation = MutableAnimation::new(Double::from_bits(500.0f64.to_bits()));
    let mut signal = animation.signal().0;
    assert_eq!(poll(&mut signal, &waker), Some(0.0));
    let _ = animation.animate_to(percentage(1.0));
    assert_eq!(poll(&mut signal, &waker), None);
    let _ = animation.on_frame(Double::from_bits(125.0f64.to_bits()));
    assert_eq!(alarm.0.load(Ordering::SeqCst), 1);
    assert_eq!(poll(&mut signal, &waker), Some(0.25));
    let _ = animation.jump_to(percentage(0.75));
    assert_eq!(poll(&mut signal, &waker), Some(0.75));
}

#[test]
fn a_signal_follows_a_spring() {
    let (_, waker) = alarm();
    let mut spring = MutableSpringAnimation::new();
    let mut signal = spring.signal().0;
    assert_eq!(poll(&mut signal, &waker), Some(0.0));
    let _ = spring.jump_to(percentage(0.5));
    assert_eq!(poll(&mut signal, &waker), Some(0.5));
    assert_eq!(poll(&mut signal, &waker), None);
}
