//! The time of the frames that are drawn, for all who follow it.
//!
//! The frames come from the display, which reports them while it is asked to.
//! It is asked to from the time on that somebody follows the frames, up to the
//! first frame that nobody follows.

use crate::arithmetic::size;
use crate::clock::Command;
use crate::double::{lemma_magnitude_monotone, Double, FRACTIONS};
use crate::order::{
    lemma_finite,
    lemma_finite_value,
    lemma_minus,
    lemma_minus_order,
    lemma_negated,
    lemma_rounded_error,
    lemma_rounded_exact,
    lemma_rounded_monotone,
};
use crate::poll::Poll;
use vstd::prelude::*;

verus! {

/// What a follower has seen.
#[derive(Clone, Copy, Debug, PartialEq, Eq, Structural)]
pub enum TimestampsEnum {
    /// Nothing yet.
    First,
    /// Not the last frame.
    Changed,
    /// The last frame.
    NotChanged,
}

/// A follower of the frames.
#[derive(Debug)]
pub struct TimestampsState<W> {
    /// Which of all followers this is.
    pub id: u64,
    /// Whether it still follows.
    pub alive: bool,
    /// What it has seen.
    pub state: TimestampsEnum,
    /// What to wake at the next frame.
    pub waker: Option<W>,
}

/// All who follow the frames, and the time of the last one.
pub struct TimestampsGlobal<W> {
    raf: bool,
    states: Vec<TimestampsState<W>>,
    next_id: u64,
    value: Option<Double>,
}

/// One who follows the frames.
#[derive(Debug)]
pub struct Timestamps {
    id: u64,
}

/// What there is to know of a `TimestampsGlobal`.
pub struct TimestampsView<W> {
    /// Whether the display reports its frames.
    pub raf: bool,
    /// The followers, from the first to the last.
    pub states: Seq<TimestampsState<W>>,
    /// Which follower is the next one.
    pub next_id: int,
    /// The time of the last frame.
    pub value: Option<Double>,
}

impl<W> View for TimestampsGlobal<W> {
    type V = TimestampsView<W>;

    closed spec fn view(&self) -> TimestampsView<W> {
        TimestampsView {
            raf: self.raf,
            states: self.states@,
            next_id: self.next_id as int,
            value: self.value,
        }
    }
}

impl View for Timestamps {
    type V = u64;

    closed spec fn view(&self) -> u64 {
        self.id
    }
}

/// A follower of whom nothing has been asked yet.
pub open spec fn newcomer<W>(id: u64) -> TimestampsState<W> {
    TimestampsState { id, alive: true, state: TimestampsEnum::First, waker: None }
}

impl<W> TimestampsState<W> {
    /// The follower after a frame.
    pub open spec fn framed(self) -> TimestampsState<W> {
        TimestampsState { state: TimestampsEnum::Changed, waker: None, ..self }
    }

    /// The follower after it has gone.
    pub open spec fn gone(self) -> TimestampsState<W> {
        TimestampsState { alive: false, waker: None, ..self }
    }

    /// The follower after it has asked for the time, when the last frame was at
    /// `value`, and the answer. It waits for the next frame if it has seen the
    /// last one.
    pub open spec fn polled(
        self,
        value: Option<Double>,
        waker: W,
    ) -> (TimestampsState<W>, Poll<Option<Option<Double>>>) {
        match self.state {
            TimestampsEnum::Changed => (
                TimestampsState { state: TimestampsEnum::NotChanged, ..self },
                Poll::Ready(Some(value)),
            ),
            TimestampsEnum::First => (
                TimestampsState { state: TimestampsEnum::NotChanged, ..self },
                Poll::Ready(Some(None)),
            ),
            TimestampsEnum::NotChanged => (
                TimestampsState { waker: Some(waker), ..self },
                Poll::Pending,
            ),
        }
    }
}

impl<W> TimestampsView<W> {
    /// The followers are in the order in which they came, and the display
    /// reports its frames exactly while there are any.
    pub open spec fn wf(self) -> bool {
        &&& in_order(self.states, self.next_id)
        &&& 0 <= self.next_id
        &&& self.raf <==> self.states.len() > 0
    }

    /// Whether the follower number `id` is at place `i` and has not gone.
    pub open spec fn is_at(self, id: u64, i: int) -> bool {
        &&& 0 <= i < self.states.len()
        &&& self.states[i].id == id
        &&& self.states[i].alive
    }

    /// Whether `id` is one who follows the frames.
    pub open spec fn follows(self, id: u64) -> bool {
        exists|i: int| self.is_at(id, i)
    }

    /// What is known of the follower number `id`.
    pub open spec fn follower(self, id: u64) -> TimestampsState<W> {
        self.states[choose|i: int| self.is_at(id, i)]
    }

    /// What is known of the follower number `id` is replaced.
    pub open spec fn with(self, id: u64, state: TimestampsState<W>) -> TimestampsView<W> {
        TimestampsView {
            states: self.states.update(choose|i: int| self.is_at(id, i), state),
            ..self
        }
    }

    /// All after somebody more follows.
    pub open spec fn joined(self) -> TimestampsView<W> {
        TimestampsView {
            raf: true,
            states: self.states.push(newcomer(self.next_id as u64)),
            next_id: self.next_id + 1,
            ..self
        }
    }

    /// All after a frame at `time`: those who still follow have not seen it,
    /// and the others are forgotten.
    pub open spec fn framed(self, time: Double) -> TimestampsView<W> {
        let states = framed_states(self.states);
        TimestampsView {
            raf: self.raf && states.len() > 0,
            states,
            value: Some(time),
            ..self
        }
    }
}

/// What can happen to those who follow the frames.
pub enum Event<W> {
    /// Somebody more follows.
    Join,
    /// A follower asks for the time, and waits with a waker if there is none.
    Ask(u64, W),
    /// A follower goes.
    Leave(u64),
    /// The display draws a frame.
    Frame(Double),
}

impl<W> TimestampsView<W> {
    /// Whether there is somebody who has not gone.
    pub open spec fn is_followed(self) -> bool {
        exists|i: int| 0 <= i < self.states.len() && (#[trigger] self.states[i]).alive
    }

    /// Whether this can happen. The display draws a frame only while it is asked
    /// to report it.
    pub open spec fn allows(self, event: Event<W>) -> bool {
        match event {
            Event::Join => self.next_id < u64::MAX,
            Event::Ask(id, waker) => self.follows(id),
            Event::Leave(id) => self.follows(id),
            Event::Frame(time) => self.raf,
        }
    }

    /// All after this has happened, and what becomes of the loop that draws the
    /// frames.
    pub open spec fn after(self, event: Event<W>) -> (TimestampsView<W>, Command<()>) {
        match event {
            Event::Join => (
                self.joined(),
                if self.raf {
                    Command::Keep
                } else {
                    Command::Start(())
                },
            ),
            Event::Ask(id, waker) => (
                self.with(id, self.follower(id).polled(self.value, waker).0),
                Command::Keep,
            ),
            Event::Leave(id) => (self.with(id, self.follower(id).gone()), Command::Keep),
            Event::Frame(time) => (
                self.framed(time),
                if framed_states(self.states).len() == 0 {
                    Command::Stop
                } else {
                    Command::Keep
                },
            ),
        }
    }
}

/// How many loops draw frames after these commands.
pub open spec fn loops(commands: Seq<Command<()>>) -> int
    decreases commands.len(),
{
    if commands.len() == 0 {
        0
    } else {
        loops(commands.drop_last()) + match commands.last() {
            Command::Keep => 0int,
            Command::Stop => -1,
            Command::Start(_) => 1,
        }
    }
}

/// The followers after a frame.
pub open spec fn framed_states<W>(states: Seq<TimestampsState<W>>) -> Seq<TimestampsState<W>> {
    states.filter(|s: TimestampsState<W>| s.alive).map_values(|s: TimestampsState<W>| s.framed())
}

/// Those who wait for a frame, from the first to the last.
pub open spec fn waiting<W>(states: Seq<TimestampsState<W>>) -> Seq<W> {
    states.filter(|s: TimestampsState<W>| s.alive && s.waker is Some).map_values(
        |s: TimestampsState<W>| s.waker->0,
    )
}

/// A frame for one follower more.
pub proof fn lemma_frame_step<W>(states: Seq<TimestampsState<W>>, i: int)
    requires
        0 <= i < states.len(),
    ensures
        framed_states(states.take(i + 1)) == if states[i].alive {
            framed_states(states.take(i)).push(states[i].framed())
        } else {
            framed_states(states.take(i))
        },
        waiting(states.take(i + 1)) == if states[i].alive && states[i].waker is Some {
            waiting(states.take(i)).push(states[i].waker->0)
        } else {
            waiting(states.take(i))
        },
{
    let before = states.take(i);
    assert(states.take(i + 1) =~= before.push(states[i]));
    before.lemma_filter_push(states[i], |s: TimestampsState<W>| s.alive);
    before.lemma_filter_push(states[i], |s: TimestampsState<W>| s.alive && s.waker is Some);
    assert(framed_states(states.take(i + 1)) =~= if states[i].alive {
        framed_states(before).push(states[i].framed())
    } else {
        framed_states(before)
    });
    assert(waiting(states.take(i + 1)) =~= if states[i].alive && states[i].waker is Some {
        waiting(before).push(states[i].waker->0)
    } else {
        waiting(before)
    });
}

/// Whether followers are in the order of their numbers, all of them below
/// `bound`.
pub open spec fn in_order<W>(states: Seq<TimestampsState<W>>, bound: int) -> bool {
    &&& forall|i: int, j: int|
        0 <= i < j < states.len() ==> (#[trigger] states[i]).id < (#[trigger] states[j]).id
    &&& forall|i: int| 0 <= i < states.len() ==> (#[trigger] states[i]).id < bound
}

/// A frame keeps the order of the followers.
pub proof fn lemma_framed_order<W>(states: Seq<TimestampsState<W>>, bound: int)
    requires
        in_order(states, bound),
    ensures
        in_order(framed_states(states), bound),
        framed_states(states).len() <= states.len(),
    decreases states.len(),
{
    if states.len() > 0 {
        let last = states.len() - 1;
        let before = states.take(last);
        assert(states.take(last + 1) =~= states);
        lemma_frame_step(states, last);
        assert(in_order(before, states[last].id as int)) by {
            assert forall|i: int, j: int| 0 <= i < j < before.len() implies (
            #[trigger] before[i]).id < (#[trigger] before[j]).id by {
                assert(states[i].id < states[j].id);
            }
            assert forall|i: int| 0 <= i < before.len() implies (#[trigger] before[i]).id
                < states[last].id by {
                assert(states[i].id < states[last].id);
            }
        }
        lemma_framed_order(before, states[last].id as int);
        assert(states[last].id < bound);
    } else {
        assert(framed_states(states).len() == 0) by {
            states.lemma_filter_len(|s: TimestampsState<W>| s.alive);
        }
    }
}

/// Whoever has not gone is still there after a frame.
pub proof fn lemma_kept<W>(states: Seq<TimestampsState<W>>, j: int) -> (i: int)
    requires
        0 <= j < states.len(),
        states[j].alive,
    ensures
        0 <= i < framed_states(states).len(),
        framed_states(states)[i] == states[j].framed(),
    decreases states.len(),
{
    let last = states.len() - 1;
    let before = states.take(last);
    assert(states.take(last + 1) =~= states);
    lemma_frame_step(states, last);
    if j < last {
        lemma_kept(before, j)
    } else {
        framed_states(before).len() as int
    }
}

impl<W> TimestampsGlobal<W> {
    /// Nobody follows, and there has been no frame.
    pub fn new() -> (r: TimestampsGlobal<W>)
        ensures
            r@ == (TimestampsView::<W> {
                raf: false,
                states: Seq::empty(),
                next_id: 0,
                value: None,
            }),
            r@.wf(),
    {
        TimestampsGlobal { raf: false, states: Vec::new(), next_id: 0, value: None }
    }

    /// Which follower is the next one.
    pub fn next_id(&self) -> (r: u64)
        ensures
            r == self@.next_id,
    {
        self.next_id
    }

    /// The place of the follower number `id`.
    fn find(&self, id: u64) -> (r: usize)
        requires
            self@.wf(),
            self@.follows(id),
        ensures
            r == choose|i: int| self@.is_at(id, i),
            self@.is_at(id, r as int),
    {
        let ghost place = choose|i: int| self@.is_at(id, i);
        let mut low: usize = 0;
        let mut high: usize = self.states.len();
        while high - low > 1
            invariant
                low <= place < high <= self.states.len(),
                self@.wf(),
                self@.is_at(id, place),
            decreases high - low,
        {
            let middle: usize = low + (high - low) / 2;
            if self.states[middle].id <= id {
                assert(self@.states[middle as int].id <= self@.states[place].id);
                low = middle;
            } else {
                assert(self@.states[place].id < self@.states[middle as int].id);
                high = middle;
            }
        }
        low
    }

    /// The display has drawn a frame at `time`: whom to wake, and whether it
    /// need not report any more frames.
    pub fn on_frame(&mut self, time: Double) -> (r: (Vec<W>, Command<()>))
        requires
            old(self)@.wf(),
        ensures
            final(self)@ == old(self)@.framed(time),
            r.0@ == waiting(old(self)@.states),
            r.1 == if final(self)@.states.len() == 0 {
                Command::Stop
            } else {
                Command::<()>::Keep
            },
            (final(self)@, r.1) == old(self)@.after(Event::Frame(time)),
            final(self)@.wf(),
    {
        let ghost all = self.states@;
        let mut states: Vec<TimestampsState<W>> = Vec::new();
        std::mem::swap(&mut states, &mut self.states);
        let mut kept: Vec<TimestampsState<W>> = Vec::new();
        let mut wakers: Vec<W> = Vec::new();
        self.value = Some(time);
        for state in iter: states
            invariant
                iter.seq() == all,
                kept@ == framed_states(all.take(iter.index())),
                wakers@ == waiting(all.take(iter.index())),
        {
            proof {
                lemma_frame_step(all, iter.index());
            }
            if state.alive {
                kept.push(
                    TimestampsState {
                        id: state.id,
                        alive: true,
                        state: TimestampsEnum::Changed,
                        waker: None,
                    },
                );
                match state.waker {
                    Some(waker) => wakers.push(waker),
                    None => {},
                }
            }
        }
        proof {
            assert(all.take(all.len() as int) =~= all);
            lemma_framed_order(all, self.next_id as int);
        }
        self.states = kept;
        if self.states.len() == 0 {
            self.raf = false;
            (wakers, Command::Stop)
        } else {
            (wakers, Command::Keep)
        }
    }

    /// The follower `follower` has gone.
    pub fn release(&mut self, follower: &Timestamps)
        requires
            old(self)@.wf(),
            old(self)@.follows(follower@),
        ensures
            final(self)@ == old(self)@.with(follower@, old(self)@.follower(follower@).gone()),
            final(self)@ == old(self)@.after(Event::Leave(follower@)).0,
            final(self)@.wf(),
    {
        let i: usize = self.find(follower.id);
        self.states[i].alive = false;
        self.states[i].waker = None;
        assert(self@.states =~= old(self)@.states.update(
            i as int,
            old(self)@.states[i as int].gone(),
        ));
    }
}

/// Somebody more follows the frames: who it is, and whether the display is to
/// report them from now on.
pub fn timestamps<W>(global: &mut TimestampsGlobal<W>) -> (r: (Timestamps, Command<()>))
    requires
        old(global)@.wf(),
        old(global)@.next_id < u64::MAX,
    ensures
        final(global)@ == old(global)@.joined(),
        r.0@ == old(global)@.next_id,
        r.1 == if old(global)@.raf {
            Command::Keep
        } else {
            Command::Start(())
        },
        (final(global)@, r.1) == old(global)@.after(Event::Join),
        final(global)@.wf(),
        final(global)@.follows(r.0@),
{
    let id: u64 = global.next_id;
    global.states.push(
        TimestampsState { id, alive: true, state: TimestampsEnum::First, waker: None },
    );
    global.next_id = id + 1;
    let command = if global.raf {
        Command::Keep
    } else {
        global.raf = true;
        Command::Start(())
    };
    assert(global@.is_at(id, global@.states.len() - 1));
    (Timestamps { id }, command)
}

impl Timestamps {
    /// Asks for the time of the last frame, once for each frame: at first there
    /// is none, and where there is nothing new, `waker` waits for it.
    pub fn poll_change<W>(
        &self,
        global: &mut TimestampsGlobal<W>,
        waker: W,
    ) -> (r: Poll<Option<Option<Double>>>)
        requires
            old(global)@.wf(),
            old(global)@.follows(self@),
        ensures
            ({
                let (state, answer) = old(global)@.follower(self@).polled(
                    old(global)@.value,
                    waker,
                );
                final(global)@ == old(global)@.with(self@, state) && r == answer
            }),
            final(global)@ == old(global)@.after(Event::Ask(self@, waker)).0,
            final(global)@.wf(),
            final(global)@.follows(self@),
    {
        let i: usize = global.find(self.id);
        match global.states[i].state {
            TimestampsEnum::Changed => {
                global.states[i].state = TimestampsEnum::NotChanged;
                assert(global@.is_at(self@, i as int));
                Poll::Ready(Some(global.value))
            },
            TimestampsEnum::First => {
                global.states[i].state = TimestampsEnum::NotChanged;
                assert(global@.is_at(self@, i as int));
                Poll::Ready(Some(None))
            },
            TimestampsEnum::NotChanged => {
                global.states[i].waker = Some(waker);
                assert(global@.is_at(self@, i as int));
                Poll::Pending
            },
        }
    }
}

/// The time that has passed since the first frame, at a frame at
/// `current_time`. The time of the first frame is kept in `starting_time`.
pub fn timestamps_absolute_difference(
    starting_time: &mut Option<Double>,
    current_time: Option<Double>,
) -> (r: Option<Double>)
    ensures
        (*final(starting_time), r) == elapsed(*old(starting_time), current_time),
{
    match current_time {
        None => None,
        Some(current_time) => {
            let start = match *starting_time {
                Some(start) => start,
                None => current_time,
            };
            *starting_time = Some(start);
            Some(current_time.sub(start))
        },
    }
}

/// The time that has passed since the last frame, at a frame at
/// `current_time`. The time of the last frame is kept in `previous_time`.
pub fn timestamps_difference(
    previous_time: &mut Option<Double>,
    current_time: Option<Double>,
) -> (r: Option<Double>)
    ensures
        *final(previous_time) == current_time,
        r == difference(*old(previous_time), current_time),
{
    let diff = match current_time {
        None => None,
        Some(current) => match *previous_time {
            Some(previous) => Some(current.sub(previous)),
            None => Some(Double::zero()),
        },
    };
    *previous_time = current_time;
    diff
}

/// The time that has passed since the last frame, if that was at `previous`, at
/// one at `current`.
pub open spec fn difference(previous: Option<Double>, current: Option<Double>) -> Option<Double> {
    match (current, previous) {
        (Some(time), Some(last)) => Some(time.minus(last)),
        (Some(time), None) => Some(Double { bits: 0 }),
        (None, _) => None,
    }
}

/// The time of the first frame after one at `current`, if it was `start`
/// before, and the time that has passed since.
pub open spec fn elapsed(
    start: Option<Double>,
    current: Option<Double>,
) -> (Option<Double>, Option<Double>) {
    match (current, start) {
        (None, _) => (start, None),
        (Some(time), None) => (Some(time), Some(time.minus(time))),
        (Some(time), Some(first)) => (start, Some(time.minus(first))),
    }
}

/// The time of the first frame after these reports.
pub open spec fn first_time(reports: Seq<Option<Double>>) -> Option<Double>
    decreases reports.len(),
{
    if reports.len() == 0 {
        None
    } else {
        elapsed(first_time(reports.drop_last()), reports.last()).0
    }
}

/// The time of the first frame is the first time that is reported, whatever is
/// reported later.
pub proof fn law_first_time(reports: Seq<Option<Double>>, first: int)
    requires
        0 <= first < reports.len(),
        reports[first] is Some,
        forall|i: int| 0 <= i < first ==> #[trigger] reports[i] is None,
    ensures
        first_time(reports) == reports[first],
    decreases reports.len(),
{
    let before = reports.drop_last();
    if first < before.len() {
        law_first_time(before, first);
    } else {
        lemma_no_time(before);
    }
}

proof fn lemma_no_time(reports: Seq<Option<Double>>)
    requires
        forall|i: int| 0 <= i < reports.len() ==> #[trigger] reports[i] is None,
    ensures
        first_time(reports) is None,
    decreases reports.len(),
{
    if reports.len() > 0 {
        lemma_no_time(reports.drop_last());
        assert(reports[reports.len() - 1] is None);
    }
}

/// At the first frame no time has passed, and at a later frame no less than at
/// an earlier one.
pub proof fn law_time_passes(start: Double, sooner: Double, later: Double)
    requires
        start.finite(),
        sooner.up_to(later),
    ensures
        elapsed(None, Some(start)) == (Some(start), Some(Double { bits: 0 })),
        elapsed(Some(start), Some(sooner)).1->0.up_to(elapsed(Some(start), Some(later)).1->0),
{
    lemma_negated(start);
    lemma_minus_order(sooner, later, start);
}

/// The time of the last frame after these reports.
pub open spec fn last_time(reports: Seq<Option<Double>>) -> Option<Double> {
    if reports.len() == 0 {
        None
    } else {
        reports.last()
    }
}

/// What each of these reports tells of the time since the last frame.
pub open spec fn differences(reports: Seq<Option<Double>>) -> Seq<Option<Double>> {
    Seq::new(reports.len(), |i: int| difference(last_time(reports.take(i)), reports[i]))
}

/// What each of these reports tells of the time since the first frame.
pub open spec fn elapsed_times(reports: Seq<Option<Double>>) -> Seq<Option<Double>> {
    Seq::new(reports.len(), |i: int| elapsed(first_time(reports.take(i)), reports[i]).1)
}

/// What a follower is told when the frames are at these times: at first nothing.
pub open spec fn reports(times: Seq<Double>) -> Seq<Option<Double>> {
    Seq::new(
        times.len() + 1,
        |i: int|
            if i == 0 {
                None
            } else {
                Some(times[i - 1])
            },
    )
}

/// The exact sum of all times that are told.
pub open spec fn total(items: Seq<Option<Double>>) -> int
    decreases items.len(),
{
    if items.len() == 0 {
        0
    } else {
        total(items.drop_last()) + match items.last() {
            Some(time) => time.value(),
            None => 0,
        }
    }
}

/// How much the times change from each to the next, forward or back, all in all.
pub open spec fn travelled(times: Seq<Double>) -> int
    decreases times.len(),
{
    if times.len() < 2 {
        0
    } else {
        travelled(times.drop_last()) + size(times.last().value() - times[times.len() - 2].value())
    }
}

/// What is told of the frames at these times: the difference to the last frame,
/// and the difference to the first one.
pub proof fn law_differences(times: Seq<Double>, i: int)
    requires
        0 <= i < times.len(),
    ensures
        differences(reports(times))[0] is None,
        elapsed_times(reports(times))[0] is None,
        differences(reports(times))[i + 1] == Some(
            if i == 0 {
                Double { bits: 0 }
            } else {
                times[i].minus(times[i - 1])
            },
        ),
        elapsed_times(reports(times))[i + 1] == Some(times[i].minus(times[0])),
{
    let told = reports(times);
    let before = told.take(i + 1);
    assert(before.last() == told[i]);
    if i == 0 {
        lemma_no_time(before);
    } else {
        law_first_time(before, 1);
    }
}

/// The times since each last frame add up to the time since the first one, but
/// for the rounding of each: together they are off by one part in `2^53` of what
/// the times change all in all.
pub proof fn law_differences_add_up(times: Seq<Double>)
    requires
        times.len() > 0,
        forall|i: int| 0 <= i < times.len() ==> (#[trigger] times[i]).finite(),
        forall|i: int|
            0 < i < times.len() ==> (#[trigger] times[i]).minus(times[i - 1]).finite(),
    ensures
        2 * FRACTIONS * size(
            total(differences(reports(times))) - (times.last().value() - times[0].value()),
        ) <= travelled(times),
    decreases times.len(),
{
    let n = times.len() as int;
    if n == 1 {
        lemma_one_time(times);
    } else {
        let front = times.drop_last();
        assert forall|i: int| 0 < i < front.len() implies (#[trigger] front[i]).minus(
            front[i - 1],
        ).finite() by {
            assert(times[i].minus(times[i - 1]).finite());
        }
        law_differences_add_up(front);
        lemma_one_more(times);
        lemma_difference_error(times[n - 1], times[n - 2]);
    }
}

/// What is told of one time is that nothing has passed.
proof fn lemma_one_time(times: Seq<Double>)
    requires
        times.len() == 1,
    ensures
        total(differences(reports(times))) == 0,
{
    let items = differences(reports(times));
    law_differences(times, 0);
    reveal_with_fuel(total, 3);
    assert(items.drop_last().last() == items[0]);
    assert(items.last() == items[1]);
    assert((Double { bits: 0 }).value() == 0) by {
        lemma_magnitude_monotone(0, 0);
    }
}

/// What one more time adds.
proof fn lemma_one_more(times: Seq<Double>)
    requires
        times.len() > 1,
    ensures
        total(differences(reports(times))) == total(differences(reports(times.drop_last())))
            + times[times.len() - 1].minus(times[times.len() - 2]).value(),
{
    let n = times.len() as int;
    let front = times.drop_last();
    let (items, fewer) = (differences(reports(times)), differences(reports(front)));
    law_differences(times, n - 1);
    assert forall|i: int| 0 <= i < n implies items[i] == fewer[i] by {
        assert(reports(front).take(i) =~= reports(times).take(i));
    }
    assert(items.drop_last() =~= fewer);
    assert(items.last() == items[n]);
}

/// How much a difference is off.
proof fn lemma_difference_error(x: Double, y: Double)
    requires
        x.finite(),
        y.finite(),
        x.minus(y).finite(),
    ensures
        2 * FRACTIONS * size(x.minus(y).value() - (x.value() - y.value())) <= size(
            x.value() - y.value(),
        ),
{
    lemma_minus(x, y);
    lemma_finite_value(x.minus(y));
    lemma_rounded_error(x.value() - y.value(), 1);
}

/// Where the times do not fall, no time that is told is below zero. The times
/// since each last frame add up to the time since the first one, and both are
/// the time that has passed, but for one part in `2^53` of it.
pub proof fn law_differences_of_rising_times(times: Seq<Double>)
    requires
        times.len() > 0,
        forall|i: int| 0 <= i < times.len() ==> (#[trigger] times[i]).finite(),
        forall|i: int, j: int|
            0 <= i <= j < times.len() ==> (#[trigger] times[i]).up_to(#[trigger] times[j]),
        times.last().minus(times[0]).finite(),
    ensures
        forall|i: int|
            0 < i <= times.len() ==> (#[trigger] differences(reports(times))[i])->0.nonnegative()
                && elapsed_times(reports(times))[i]->0.nonnegative(),
        2 * FRACTIONS * size(
            total(differences(reports(times))) - (times.last().value() - times[0].value()),
        ) <= times.last().value() - times[0].value(),
        2 * FRACTIONS * size(
            elapsed_times(reports(times)).last()->0.value() - (times.last().value()
                - times[0].value()),
        ) <= times.last().value() - times[0].value(),
{
    assert forall|i: int| 0 < i <= times.len() implies (#[trigger] differences(
        reports(times),
    )[i])->0.nonnegative() && elapsed_times(reports(times))[i]->0.nonnegative() by {
        lemma_rising_item(times, i - 1);
    }
    lemma_rising_total(times);
}

/// Whether these are finite times that do not fall, over a time that can be
/// measured.
spec fn rises(times: Seq<Double>) -> bool {
    &&& times.len() > 0
    &&& forall|i: int| 0 <= i < times.len() ==> (#[trigger] times[i]).finite()
    &&& forall|i: int, j: int|
        0 <= i <= j < times.len() ==> (#[trigger] times[i]).up_to(#[trigger] times[j])
    &&& times.last().minus(times[0]).finite()
}

/// The time between two of these times.
proof fn lemma_rising_part(times: Seq<Double>, i: int, j: int)
    requires
        rises(times),
        0 <= i <= j < times.len(),
    ensures
        times[j].minus(times[i]).finite(),
        times[j].minus(times[i]).nonnegative(),
{
    let last = times.len() - 1;
    assert(times[0].up_to(times[i]) && times[i].up_to(times[j]) && times[j].up_to(times[last]));
    lemma_part_of_time(times[0], times[i], times[j], times[last]);
}

/// What is told at one of these times.
proof fn lemma_rising_item(times: Seq<Double>, i: int)
    requires
        rises(times),
        0 <= i < times.len(),
    ensures
        differences(reports(times))[i + 1]->0.nonnegative(),
        elapsed_times(reports(times))[i + 1]->0.nonnegative(),
{
    law_differences(times, i);
    lemma_rising_part(times, 0, i);
    if i > 0 {
        lemma_rising_part(times, i - 1, i);
    }
}

/// What is told at these times, all in all.
proof fn lemma_rising_total(times: Seq<Double>)
    requires
        rises(times),
    ensures
        2 * FRACTIONS * size(
            total(differences(reports(times))) - (times.last().value() - times[0].value()),
        ) <= times.last().value() - times[0].value(),
        2 * FRACTIONS * size(
            elapsed_times(reports(times)).last()->0.value() - (times.last().value()
                - times[0].value()),
        ) <= times.last().value() - times[0].value(),
{
    let n = times.len() as int;
    let (first, last) = (times[0], times[n - 1]);
    assert forall|i: int| 0 < i < n implies (#[trigger] times[i]).minus(
        times[i - 1],
    ).finite() by {
        lemma_rising_part(times, i - 1, i);
    }
    law_differences_add_up(times);
    lemma_travelled(times);
    law_differences(times, n - 1);
    assert(first.finite() && last.finite() && first.up_to(last));
    lemma_minus(last, first);
    lemma_finite_value(last.minus(first));
    lemma_rounded_error(last.value() - first.value(), 1);
}

/// A part of a time that can be measured can be measured, and is not below zero.
proof fn lemma_part_of_time(first: Double, x: Double, y: Double, last: Double)
    requires
        first.finite(),
        x.finite(),
        y.finite(),
        last.finite(),
        first.up_to(x),
        x.up_to(y),
        y.up_to(last),
        last.minus(first).finite(),
    ensures
        y.minus(x).finite(),
        y.minus(x).nonnegative(),
{
    lemma_minus(y, x);
    lemma_minus(last, first);
    lemma_rounded_exact(Double { bits: 0 }, 1);
    lemma_rounded_monotone(0, y.value() - x.value(), 1);
    lemma_rounded_monotone(y.value() - x.value(), last.value() - first.value(), 1);
    lemma_finite_value(last.minus(first));
    lemma_finite(y.minus(x));
}

/// Times that do not fall change by what is between the first and the last one.
proof fn lemma_travelled(times: Seq<Double>)
    requires
        times.len() > 0,
        forall|i: int, j: int|
            0 <= i <= j < times.len() ==> (#[trigger] times[i]).up_to(#[trigger] times[j]),
    ensures
        travelled(times) == times.last().value() - times[0].value(),
    decreases times.len(),
{
    if times.len() > 1 {
        lemma_travelled(times.drop_last());
        assert(times[times.len() - 2].up_to(times[times.len() - 1]));
    }
}

/// Only one follower has a given number.
pub proof fn lemma_follower<W>(m: TimestampsView<W>, id: u64, i: int)
    requires
        m.wf(),
        m.is_at(id, i),
    ensures
        m.follows(id),
        m.follower(id) == m.states[i],
        forall|j: int| m.is_at(id, j) ==> j == i,
{
    assert forall|j: int| m.is_at(id, j) implies j == i by {
        if j < i {
            assert(m.states[j].id < m.states[i].id);
        }
        if i < j {
            assert(m.states[i].id < m.states[j].id);
        }
    }
}

/// Whoever joins is told first that there is no time yet.
pub proof fn law_first_answer<W>(m: TimestampsView<W>, waker: W)
    requires
        m.wf(),
        m.next_id < u64::MAX,
    ensures
        ({
            let id = m.next_id as u64;
            &&& m.joined().wf()
            &&& m.joined().follows(id)
            &&& m.joined().follower(id).polled(m.joined().value, waker).1 == Poll::Ready(
                Some(None::<Double>),
            )
        }),
{
    let n = m.joined();
    assert(n.is_at(m.next_id as u64, m.states.len() as int));
    assert(in_order(n.states, n.next_id));
    lemma_follower(n, m.next_id as u64, m.states.len() as int);
}

/// A frame reaches all who follow: whoever asks next is told the time of the
/// last frame, whatever was there before.
pub proof fn law_frame_is_seen<W>(m: TimestampsView<W>, id: u64, time: Double, waker: W)
    requires
        m.wf(),
        m.follows(id),
    ensures
        m.framed(time).wf(),
        m.framed(time).follows(id),
        m.framed(time).follower(id) == m.follower(id).framed(),
        m.framed(time).follower(id).polled(m.framed(time).value, waker).1 == Poll::Ready(
            Some(Some(time)),
        ),
{
    let j = choose|j: int| m.is_at(id, j);
    let n = m.framed(time);
    let i = lemma_kept(m.states, j);
    lemma_framed_order(m.states, m.next_id);
    assert(n.is_at(id, i));
    lemma_follower(n, id, i);
}

/// Each frame is told once: whoever has been told, and asks again, waits.
pub proof fn law_told_once<W>(
    state: TimestampsState<W>,
    value: Option<Double>,
    first: W,
    second: W,
)
    ensures
        state.polled(value, first).0.polled(value, second).1 is Pending,
        state.polled(value, first).0.polled(value, second).0.waker == Some(second),
{
}

/// What becomes of one follower does not change what is known of another.
pub proof fn law_followers_are_independent<W>(
    m: TimestampsView<W>,
    id: u64,
    other: u64,
    state: TimestampsState<W>,
)
    requires
        m.wf(),
        m.follows(id),
        m.follows(other),
        id != other,
        state.id == id,
    ensures
        m.with(id, state).wf(),
        m.with(id, state).follows(other),
        m.with(id, state).follower(other) == m.follower(other),
{
    let i = choose|i: int| m.is_at(id, i);
    let j = choose|j: int| m.is_at(other, j);
    let n = m.with(id, state);
    assert(in_order(n.states, n.next_id));
    assert(n.is_at(other, j));
    lemma_follower(n, other, j);
}

/// Whoever waits is woken at the next frame, and only once: nobody waits after
/// it.
pub proof fn law_frame_wakes<W>(m: TimestampsView<W>, id: u64, time: Double)
    requires
        m.wf(),
        m.follows(id),
        m.follower(id).waker is Some,
    ensures
        waiting(m.states).contains(m.follower(id).waker->0),
        waiting(m.framed(time).states).len() == 0,
{
    let j = choose|j: int| m.is_at(id, j);
    let waits = |s: TimestampsState<W>| s.alive && s.waker is Some;
    m.states.lemma_filter_contains(waits, j);
    let k = choose|k: int|
        0 <= k < m.states.filter(waits).len() && m.states.filter(waits)[k] == m.states[j];
    assert(waiting(m.states)[k] == m.states[j].waker->0);
    lemma_nobody_waits(m.states);
}

proof fn lemma_nobody_waits<W>(states: Seq<TimestampsState<W>>)
    ensures
        waiting(framed_states(states)).len() == 0,
{
    let frames = framed_states(states);
    let waits = |s: TimestampsState<W>| s.alive && s.waker is Some;
    if frames.filter(waits).len() > 0 {
        frames.lemma_filter_pred(waits, 0);
        frames.lemma_filter_contains_rev(waits, frames.filter(waits)[0]);
        let i = choose|i: int| 0 <= i < frames.len() && frames[i] == frames.filter(waits)[0];
        assert(frames[i].waker is None);
    }
}

/// Once all have gone, the next frame is the last one that the display is to
/// report.
pub proof fn law_stops_when_all_have_gone<W>(m: TimestampsView<W>, time: Double)
    requires
        m.wf(),
        forall|i: int| 0 <= i < m.states.len() ==> !(#[trigger] m.states[i]).alive,
    ensures
        m.framed(time).states.len() == 0,
        !m.framed(time).raf,
{
    let alive = |s: TimestampsState<W>| s.alive;
    if m.states.filter(alive).len() > 0 {
        m.states.lemma_filter_pred(alive, 0);
        m.states.lemma_filter_contains_rev(alive, m.states.filter(alive)[0]);
    }
}

/// What happens leaves the followers in order, and starts and stops the loop as
/// it should.
pub proof fn lemma_after<W>(m: TimestampsView<W>, event: Event<W>)
    requires
        m.wf(),
        m.allows(event),
    ensures
        m.after(event).0.wf(),
        m.after(event).1 is Start <==> event is Join && !m.raf,
        m.after(event).1 is Stop <==> event is Frame && !m.is_followed(),
        m.after(event).0.raf <==> m.after(event).1 is Start || m.raf && !(m.after(event).1 is Stop),
{
    let n = m.after(event).0;
    match event {
        Event::Join => {
            assert(in_order(n.states, n.next_id));
        },
        Event::Ask(id, waker) => {
            lemma_with(m, id, m.follower(id).polled(m.value, waker).0);
        },
        Event::Leave(id) => {
            lemma_with(m, id, m.follower(id).gone());
        },
        Event::Frame(time) => {
            lemma_framed_order(m.states, m.next_id);
            if m.is_followed() {
                let j = choose|j: int| 0 <= j < m.states.len() && (#[trigger] m.states[j]).alive;
                let i = lemma_kept(m.states, j);
            } else {
                law_stops_when_all_have_gone(m, time);
            }
        },
    }
}

/// Replacing what is known of a follower leaves the followers in order.
proof fn lemma_with<W>(m: TimestampsView<W>, id: u64, state: TimestampsState<W>)
    requires
        m.wf(),
        m.follows(id),
        state.id == id,
    ensures
        m.with(id, state).wf(),
{
    let i = choose|i: int| m.is_at(id, i);
    assert(m.is_at(id, i));
    let n = m.with(id, state);
    assert(in_order(n.states, n.next_id));
}

/// Whatever happens, at most one loop draws frames. It is started by who joins
/// while there is none, and stopped exactly by the first frame that nobody
/// follows any more; so it runs whenever somebody follows.
pub proof fn law_one_loop<W>(
    views: Seq<TimestampsView<W>>,
    events: Seq<Event<W>>,
    commands: Seq<Command<()>>,
    n: int,
)
    requires
        views.len() == events.len() + 1,
        views.len() == commands.len() + 1,
        0 <= n < views.len(),
        views[0].wf(),
        !views[0].raf,
        forall|i: int|
            0 <= i < events.len() ==> views[i].allows(#[trigger] events[i]) && (
                views[i + 1],
                commands[i],
            ) == views[i].after(events[i]),
    ensures
        views[n].wf(),
        0 <= loops(commands.take(n)) <= 1,
        loops(commands.take(n)) == 1 <==> views[n].raf,
        views[n].is_followed() ==> loops(commands.take(n)) == 1,
        n < events.len() ==> {
            &&& commands[n] is Start <==> events[n] is Join && loops(commands.take(n)) == 0
            &&& commands[n] is Stop <==> events[n] is Frame && !views[n].is_followed()
        },
    decreases n,
{
    if n > 0 {
        law_one_loop(views, events, commands, n - 1);
        let event = events[n - 1];
        lemma_after(views[n - 1], event);
        assert(commands.take(n).drop_last() =~= commands.take(n - 1));
    }
    if n < events.len() {
        let event = events[n];
        lemma_after(views[n], event);
    }
}

} // verus!
