use dominator_animation::animated_map::{AnimatedMap, Request};
use dominator_animation::double::Double;
use dominator_animation::percentage::Percentage;
use dominator_animation::poll::Poll;
use dominator_animation::vec_diff::VecDiff;
use std::collections::{BTreeSet, VecDeque};

fn double(x: f64) -> Double {
    Double::from_bits(x.to_bits())
}

fn percentage(x: f64) -> Percentage {
    Percentage::new_unchecked(double(x))
}

/// What the upstream vector reports.
enum Event {
    Change(VecDiff<char>),
    End,
}

use Event::{Change, End};

/// A map with a vector at each side. Animations and exits are numbers; an exit
/// has the number of its animation.
struct Stage {
    map: AnimatedMap<u32, u32>,
    events: VecDeque<Event>,
    ended: bool,
    upstream: Vec<char>,
    downstream: Vec<char>,
    /// Which elements are on their way out.
    leaving: BTreeSet<u32>,
    /// Which exits are over.
    over: BTreeSet<u32>,
    /// Whether an element is out of sight as soon as it leaves.
    at_once: bool,
    next: u32,
    /// Which exits were polled in the last poll.
    polled: Vec<usize>,
}

fn apply(vec: &mut Vec<char>, diff: &VecDiff<char>) {
    match diff {
        VecDiff::Replace { values } => *vec = values.clone(),
        VecDiff::InsertAt { index, value } => vec.insert(*index, *value),
        VecDiff::UpdateAt { index, value } => vec[*index] = *value,
        VecDiff::RemoveAt { index } => {
            vec.remove(*index);
        }
        VecDiff::Move { old_index, new_index } => {
            let value = vec.remove(*old_index);
            vec.insert(*new_index, value);
        }
        VecDiff::Push { value } => vec.push(*value),
        VecDiff::Pop => {
            assert!(vec.pop().is_some());
        }
        VecDiff::Clear => vec.clear(),
    }
}

fn copy(diff: &VecDiff<char>) -> VecDiff<char> {
    match diff {
        VecDiff::Replace { values } => VecDiff::Replace { values: values.clone() },
        VecDiff::InsertAt { index, value } => VecDiff::InsertAt { index: *index, value: *value },
        VecDiff::UpdateAt { index, value } => VecDiff::UpdateAt { index: *index, value: *value },
        VecDiff::RemoveAt { index } => VecDiff::RemoveAt { index: *index },
        VecDiff::Move { old_index, new_index } => {
            VecDiff::Move { old_index: *old_index, new_index: *new_index }
        }
        VecDiff::Push { value } => VecDiff::Push { value: *value },
        VecDiff::Pop => VecDiff::Pop,
        VecDiff::Clear => VecDiff::Clear,
    }
}

impl Stage {
    fn new() -> Stage {
        Stage {
            map: AnimatedMap::new(double(300.0)),
            events: VecDeque::new(),
            ended: false,
            upstream: vec![],
            downstream: vec![],
            leaving: BTreeSet::new(),
            over: BTreeSet::new(),
            at_once: false,
            next: 0,
            polled: vec![],
        }
    }

    /// A stage that shows these elements.
    fn with(values: &str) -> Stage {
        let mut stage = Stage::new();
        stage.send(VecDiff::Replace { values: values.chars().collect() });
        assert!(matches!(stage.poll(), Poll::Ready(Some(VecDiff::Replace { .. }))));
        stage
    }

    fn send(&mut self, change: VecDiff<char>) {
        self.events.push_back(Change(change));
    }

    fn end(&mut self) {
        self.events.push_back(End);
    }

    /// Runs one poll to its answer, and checks that both sides still agree.
    fn poll(&mut self) -> Poll<Option<VecDiff<char>>> {
        self.polled.clear();
        let mut request = self.map.poll_vec_change();
        loop {
            request = match request {
                Request::PollUpstream => {
                    assert!(!self.ended);
                    match self.events.pop_front() {
                        None => self.map.on_pending(),
                        Some(End) => {
                            self.ended = true;
                            self.map.on_end()
                        }
                        Some(Change(change)) => {
                            assert!(self.map.accepts(&change));
                            apply(&mut self.upstream, &change);
                            let count = self.map.entrance(&change).count as u32;
                            let fresh = (self.next..self.next + count).collect();
                            self.next += count;
                            self.map.on_change(change, fresh)
                        }
                    }
                }
                Request::Leave { index, target } => {
                    assert_eq!(target.into_f64().to_bits(), 0);
                    let id = *self.map.animation(index);
                    if self.at_once {
                        self.map.on_leaving(None)
                    } else {
                        self.leaving.insert(id);
                        self.map.on_leaving(Some(id))
                    }
                }
                Request::PollExit { index } => {
                    assert!(self.map.removing(index).is_some());
                    self.polled.push(index);
                    let id = *self.map.exit_mut(index);
                    assert_eq!(id, *self.map.animation(index));
                    self.map.on_exit(self.over.contains(&id))
                }
                Request::Return(answer) => {
                    if let Poll::Ready(Some(diff)) = &answer {
                        apply(&mut self.downstream, diff);
                    }
                    self.check();
                    return answer;
                }
            };
        }
    }

    fn check(&self) {
        assert_eq!(self.map.len(), self.downstream.len());
        let mut staying = vec![];
        for (i, value) in self.downstream.iter().enumerate() {
            if !self.leaving.contains(self.map.animation(i)) {
                staying.push(*value);
            }
        }
        assert_eq!(staying, self.upstream);
    }

    fn shown(&self) -> String {
        self.downstream.iter().collect()
    }

    /// The exit of the element at `index` is over.
    fn finish(&mut self, index: usize) {
        self.over.insert(*self.map.animation(index));
    }
}

fn ready(diff: VecDiff<char>) -> Poll<Option<VecDiff<char>>> {
    Poll::Ready(Some(diff))
}

#[test]
fn an_open_map_waits_and_an_ended_map_ends() {
    let mut stage = Stage::new();
    assert_eq!(stage.poll(), Poll::Pending);
    stage.end();
    assert_eq!(stage.poll(), Poll::Ready(None));
    assert_eq!(stage.poll(), Poll::Ready(None));
}

#[test]
fn changes_that_remove_nothing_pass_through() {
    let mut stage = Stage::with("abc");
    stage.send(VecDiff::Push { value: 'd' });
    assert_eq!(stage.poll(), ready(VecDiff::Push { value: 'd' }));
    stage.send(VecDiff::InsertAt { index: 1, value: 'x' });
    assert_eq!(stage.poll(), ready(VecDiff::InsertAt { index: 1, value: 'x' }));
    stage.send(VecDiff::UpdateAt { index: 2, value: 'B' });
    assert_eq!(stage.poll(), ready(VecDiff::UpdateAt { index: 2, value: 'B' }));
    stage.send(VecDiff::Move { old_index: 4, new_index: 0 });
    assert_eq!(stage.poll(), ready(VecDiff::Move { old_index: 4, new_index: 0 }));
    assert_eq!(stage.shown(), "daxBc");
    stage.send(VecDiff::Clear);
    assert_eq!(stage.poll(), ready(VecDiff::Clear));
    assert_eq!(stage.shown(), "");
    assert_eq!(stage.poll(), Poll::Pending);
}

#[test]
fn one_change_is_reported_at_a_time() {
    let mut stage = Stage::new();
    stage.send(VecDiff::Push { value: 'a' });
    stage.send(VecDiff::Push { value: 'b' });
    assert_eq!(stage.poll(), ready(VecDiff::Push { value: 'a' }));
    assert_eq!(stage.shown(), "a");
    assert_eq!(stage.poll(), ready(VecDiff::Push { value: 'b' }));
    assert_eq!(stage.poll(), Poll::Pending);
}

#[test]
fn a_removed_element_stays_until_its_exit_is_over() {
    let mut stage = Stage::with("abc");
    stage.send(VecDiff::RemoveAt { index: 1 });
    assert_eq!(stage.poll(), Poll::Pending);
    assert_eq!(stage.shown(), "abc");
    assert_eq!(stage.map.removing(0), None);
    assert_eq!(stage.map.removing(1), Some(stage.map.animation(1)));
    assert_eq!(stage.poll(), Poll::Pending);
    stage.finish(1);
    assert_eq!(stage.poll(), ready(VecDiff::RemoveAt { index: 1 }));
    assert_eq!(stage.shown(), "ac");
    assert_eq!(stage.poll(), Poll::Pending);
}

#[test]
fn an_element_that_is_out_of_sight_is_removed_at_once() {
    let mut stage = Stage::with("abc");
    stage.at_once = true;
    stage.send(VecDiff::RemoveAt { index: 1 });
    assert_eq!(stage.poll(), ready(VecDiff::RemoveAt { index: 1 }));
    stage.send(VecDiff::RemoveAt { index: 1 });
    assert_eq!(stage.poll(), ready(VecDiff::Pop));
    stage.send(VecDiff::Pop);
    assert_eq!(stage.poll(), ready(VecDiff::Pop));
    assert_eq!(stage.shown(), "");
}

#[test]
fn indices_skip_the_elements_on_their_way_out() {
    let mut stage = Stage::with("abcde");
    stage.send(VecDiff::RemoveAt { index: 1 });
    stage.send(VecDiff::RemoveAt { index: 2 });
    assert_eq!(stage.poll(), Poll::Pending);
    assert_eq!(stage.upstream, vec!['a', 'c', 'e']);
    stage.send(VecDiff::UpdateAt { index: 1, value: 'C' });
    assert_eq!(stage.poll(), ready(VecDiff::UpdateAt { index: 2, value: 'C' }));
    stage.send(VecDiff::InsertAt { index: 2, value: 'x' });
    assert_eq!(stage.poll(), ready(VecDiff::InsertAt { index: 4, value: 'x' }));
    assert_eq!(stage.shown(), "abCdxe");
    stage.send(VecDiff::Move { old_index: 0, new_index: 3 });
    assert_eq!(stage.poll(), ready(VecDiff::Move { old_index: 0, new_index: 5 }));
    assert_eq!(stage.shown(), "bCdxea");
    stage.send(VecDiff::Move { old_index: 2, new_index: 1 });
    assert_eq!(stage.poll(), ready(VecDiff::Move { old_index: 4, new_index: 3 }));
    assert_eq!(stage.shown(), "bCdexa");
}

#[test]
fn popping_takes_the_last_element_that_stays() {
    let mut stage = Stage::with("abc");
    stage.send(VecDiff::Pop);
    stage.send(VecDiff::Pop);
    assert_eq!(stage.poll(), Poll::Pending);
    assert_eq!(stage.upstream, vec!['a']);
    stage.send(VecDiff::InsertAt { index: 1, value: 'x' });
    assert_eq!(stage.poll(), ready(VecDiff::InsertAt { index: 3, value: 'x' }));
    assert_eq!(stage.shown(), "abcx");
    stage.finish(1);
    assert_eq!(stage.poll(), ready(VecDiff::RemoveAt { index: 1 }));
    stage.finish(1);
    assert_eq!(stage.poll(), ready(VecDiff::RemoveAt { index: 1 }));
    assert_eq!(stage.shown(), "ax");
}

#[test]
fn exits_are_polled_from_the_back() {
    let mut stage = Stage::with("abcd");
    stage.send(VecDiff::RemoveAt { index: 0 });
    stage.send(VecDiff::RemoveAt { index: 1 });
    stage.send(VecDiff::RemoveAt { index: 1 });
    assert_eq!(stage.poll(), Poll::Pending);
    assert_eq!(stage.polled, vec![3, 2, 0]);
    stage.finish(0);
    stage.finish(2);
    assert_eq!(stage.poll(), ready(VecDiff::RemoveAt { index: 2 }));
    assert_eq!(stage.polled, vec![3, 2]);
    stage.finish(2);
    assert_eq!(stage.poll(), ready(VecDiff::Pop));
    assert_eq!(stage.polled, vec![2]);
    assert_eq!(stage.poll(), ready(VecDiff::RemoveAt { index: 0 }));
    assert_eq!(stage.shown(), "b");
}

#[test]
fn a_map_ends_after_the_last_exit() {
    let mut stage = Stage::with("ab");
    stage.send(VecDiff::Pop);
    stage.end();
    assert_eq!(stage.poll(), Poll::Pending);
    assert_eq!(stage.poll(), Poll::Pending);
    stage.finish(1);
    assert_eq!(stage.poll(), ready(VecDiff::Pop));
    assert_eq!(stage.poll(), Poll::Ready(None));
    assert_eq!(stage.shown(), "a");
}

#[test]
fn replacing_and_clearing_cut_exits_short() {
    let mut stage = Stage::with("abc");
    stage.send(VecDiff::Pop);
    assert_eq!(stage.poll(), Poll::Pending);
    stage.send(VecDiff::Replace { values: vec!['x', 'y'] });
    assert_eq!(stage.poll(), ready(VecDiff::Replace { values: vec!['x', 'y'] }));
    assert_eq!(stage.shown(), "xy");
    stage.send(VecDiff::Pop);
    stage.send(VecDiff::Clear);
    assert_eq!(stage.poll(), ready(VecDiff::Clear));
    assert_eq!(stage.poll(), Poll::Pending);
}

#[test]
fn new_elements_come_in_and_replaced_ones_are_there() {
    let map: AnimatedMap<u32, u32> = AnimatedMap::new(double(300.0));
    assert_eq!(map.duration(), double(300.0));
    let entrance = map.entrance(&VecDiff::Replace { values: vec!['a', 'b'] });
    assert_eq!(entrance.count, 2);
    assert_eq!(entrance.duration, double(300.0));
    assert_eq!(entrance.initial, percentage(1.0));
    assert_eq!(entrance.target, None);
    for change in [VecDiff::Push { value: 'a' }, VecDiff::InsertAt { index: 0, value: 'a' }] {
        let entrance = map.entrance(&change);
        assert_eq!(entrance.count, 1);
        assert_eq!(entrance.duration, double(300.0));
        assert_eq!(entrance.initial, percentage(0.0));
        assert_eq!(entrance.target, Some(percentage(1.0)));
    }
    assert_eq!(map.entrance(&VecDiff::<char>::Pop).count, 0);
    assert_eq!(map.entrance(&VecDiff::<char>::Clear).count, 0);
    assert_eq!(map.entrance(&VecDiff::<char>::RemoveAt { index: 0 }).count, 0);
}

#[test]
fn changes_of_missing_elements_are_not_accepted() {
    let mut stage = Stage::with("ab");
    stage.send(VecDiff::Pop);
    assert_eq!(stage.poll(), Poll::Pending);
    let map = &stage.map;
    assert!(map.accepts(&VecDiff::UpdateAt { index: 0, value: 'x' }));
    assert!(!map.accepts(&VecDiff::UpdateAt { index: 1, value: 'x' }));
    assert!(map.accepts(&VecDiff::<char>::RemoveAt { index: 0 }));
    assert!(!map.accepts(&VecDiff::<char>::RemoveAt { index: 1 }));
    assert!(map.accepts(&VecDiff::<char>::Move { old_index: 0, new_index: 0 }));
    assert!(!map.accepts(&VecDiff::<char>::Move { old_index: 1, new_index: 0 }));
    assert!(map.accepts(&VecDiff::<char>::Pop));
    assert!(map.accepts(&VecDiff::InsertAt { index: 9, value: 'x' }));
    stage.send(VecDiff::Pop);
    assert_eq!(stage.poll(), Poll::Pending);
    assert!(!stage.map.accepts(&VecDiff::<char>::Pop));
}

#[test]
fn both_sides_agree_whatever_happens() {
    let mut seed: u64 = 7;
    let mut random = move |bound: usize| {
        seed = seed.wrapping_mul(6364136223846793005).wrapping_add(1442695040888963407);
        (seed >> 33) as usize % bound
    };
    for _ in 0..200 {
        let mut stage = Stage::new();
        // The upstream vector after everything that was sent.
        let mut sent: Vec<char> = vec![];
        let mut letter = 'a';
        for _ in 0..60 {
            let len = sent.len();
            letter = if letter == 'z' { 'a' } else { (letter as u8 + 1) as char };
            let change = match random(10) {
                0 | 1 => VecDiff::Push { value: letter },
                2 | 3 => VecDiff::InsertAt { index: random(len + 1), value: letter },
                4 if len > 0 => VecDiff::UpdateAt { index: random(len), value: letter },
                5 | 6 if len > 0 => VecDiff::RemoveAt { index: random(len) },
                7 if len > 0 => VecDiff::Move { old_index: random(len), new_index: random(len) },
                8 if len > 0 => VecDiff::Pop,
                9 if random(8) == 0 => VecDiff::Clear,
                9 if random(8) == 0 => VecDiff::Replace { values: vec![letter, 'x', 'y'] },
                _ => VecDiff::Push { value: letter },
            };
            apply(&mut sent, &change);
            stage.send(copy(&change));
            stage.at_once = random(4) == 0;
            if stage.map.len() > 0 && random(2) == 0 {
                let index = random(stage.map.len());
                stage.finish(index);
            }
            let _ = stage.poll();
        }
        stage.end();
        for i in 0..stage.map.len() {
            stage.finish(i);
        }
        let mut polls = 0;
        while stage.poll() != Poll::Ready(None) {
            for i in 0..stage.map.len() {
                stage.finish(i);
            }
            polls += 1;
            assert!(polls < 1000);
        }
        assert_eq!(stage.downstream, sent);
    }
}
