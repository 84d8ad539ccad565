//! What followers of the frames are told, by the history of what has happened.

use crate::accuracy::{law_difference, near_sum};
use crate::clock::Command;
use crate::double::Double;
use crate::poll::Poll;
use crate::timestamps::{
    difference,
    elapsed,
    framed_states,
    lemma_after,
    lemma_follower,
    lemma_frame_step,
    lemma_framed_order,
    lemma_kept,
    waiting,
    Event,
    TimestampsEnum,
    TimestampsState,
    TimestampsView,
};
use vstd::prelude::*;

verus! {

/// How many have joined.
pub open spec fn joins<W>(events: Seq<Event<W>>) -> int
    decreases events.len(),
{
    if events.len() == 0 {
        0
    } else {
        joins(events.drop_last()) + if events.last() is Join {
            1int
        } else {
            0
        }
    }
}

/// Who has joined and has not left: the followers are numbered as they join.
pub open spec fn present<W>(events: Seq<Event<W>>, id: int) -> bool
    decreases events.len(),
{
    if events.len() == 0 {
        false
    } else {
        match events.last() {
            Event::Join => present(events.drop_last(), id) || id == joins(events.drop_last()),
            Event::Leave(who) => present(events.drop_last(), id) && id != who,
            _ => present(events.drop_last(), id),
        }
    }
}

/// Whether these views are what comes of these events, one after the other, for
/// followers of whom nobody was there before, and commands what they ask for.
pub open spec fn is_history<W>(
    views: Seq<TimestampsView<W>>,
    events: Seq<Event<W>>,
    commands: Seq<Command<()>>,
) -> bool {
    &&& views.len() == events.len() + 1
    &&& commands.len() == events.len()
    &&& views[0].states.len() == 0
    &&& views[0].next_id == 0
    &&& !views[0].raf
    &&& forall|i: int|
        0 <= i < events.len() ==> views[i].allows(#[trigger] events[i]) && (
            views[i + 1],
            commands[i],
        ) == views[i].after(events[i])
}

/// Whoever was kept at a frame was there before it.
proof fn lemma_kept_from<W>(states: Seq<TimestampsState<W>>, i: int) -> (j: int)
    requires
        0 <= i < framed_states(states).len(),
    ensures
        0 <= j < states.len(),
        states[j].alive,
        framed_states(states)[i].id == states[j].id,
        framed_states(states)[i].alive,
    decreases states.len(),
{
    if states.len() == 0 {
        lemma_framed_order(states, 0);
        0
    } else {
        let last = states.len() - 1;
        let before = states.take(last);
        assert(states.take(last + 1) =~= states);
        lemma_frame_step(states, last);
        if i < framed_states(before).len() {
            lemma_kept_from(before, i)
        } else {
            last
        }
    }
}

/// Who follows after something has happened: whoever joins does, whoever leaves
/// does not, whatever was seen before, and nothing changes for anybody else.
pub proof fn law_who_follows<W>(m: TimestampsView<W>, event: Event<W>, id: u64)
    requires
        m.wf(),
        m.allows(event),
    ensures
        m.after(event).0.wf(),
        m.after(event).0.follows(id) <==> match event {
            Event::Join => m.follows(id) || id == m.next_id,
            Event::Leave(who) => m.follows(id) && id != who,
            _ => m.follows(id),
        },
        m.after(event).0.next_id == m.next_id + if event is Join {
            1int
        } else {
            0
        },
{
    let n = m.after(event).0;
    lemma_after(m, event);
    if m.follows(id) {
        let j = choose|j: int| m.is_at(id, j);
        lemma_follower(m, id, j);
        match event {
            Event::Join => {
                assert(n.is_at(id, j));
            },
            Event::Ask(who, _) => {
                let k = choose|k: int| m.is_at(who, k);
                assert(m.is_at(who, k));
                assert(n.is_at(id, j));
            },
            Event::Leave(who) => {
                let k = choose|k: int| m.is_at(who, k);
                assert(m.is_at(who, k));
                if id != who {
                    assert(n.is_at(id, j));
                }
            },
            Event::Frame(_) => {
                let i = lemma_kept(m.states, j);
                assert(n.is_at(id, i));
            },
        }
    }
    if event is Join && id == m.next_id {
        assert(n.is_at(id, m.states.len() as int));
    }
    if n.follows(id) {
        let i = choose|i: int| n.is_at(id, i);
        match event {
            Event::Join => {
                if i < m.states.len() {
                    assert(m.is_at(id, i));
                }
            },
            Event::Ask(who, _) => {
                let k = choose|k: int| m.is_at(who, k);
                assert(m.is_at(who, k));
                assert(m.is_at(id, i));
            },
            Event::Leave(who) => {
                let k = choose|k: int| m.is_at(who, k);
                assert(m.is_at(who, k));
                assert(i != k);
                assert(m.is_at(id, i));
                if id == who {
                    lemma_follower(m, id, k);
                }
            },
            Event::Frame(_) => {
                let j = lemma_kept_from(m.states, i);
                assert(m.is_at(id, j));
            },
        }
    }
}

/// Those who follow are those who have joined and have not left.
pub proof fn law_present_follow<W>(
    views: Seq<TimestampsView<W>>,
    events: Seq<Event<W>>,
    commands: Seq<Command<()>>,
    n: int,
    id: u64,
)
    requires
        is_history(views, events, commands),
        0 <= n < views.len(),
    ensures
        views[n].wf(),
        views[n].next_id == joins(events.take(n)),
        views[n].follows(id) <==> present(events.take(n), id as int),
    decreases n,
{
    if n > 0 {
        law_present_follow(views, events, commands, n - 1, id);
        let event = events[n - 1];
        assert(views[n - 1].allows(event));
        law_who_follows(views[n - 1], event, id);
        assert(events.take(n).drop_last() =~= events.take(n - 1));
    } else {
        assert(!views[0].follows(id)) by {
            if views[0].follows(id) {
                let i = choose|i: int| views[0].is_at(id, i);
                assert(views[0].is_at(id, i));
            }
        }
    }
}

/// The loop that draws the frames runs while somebody has joined who has not left.
/// It is started by who joins when it does not run, and stopped exactly by the
/// first frame after the last one has left.
pub proof fn law_loop_by_history<W>(
    views: Seq<TimestampsView<W>>,
    events: Seq<Event<W>>,
    commands: Seq<Command<()>>,
    n: int,
)
    requires
        is_history(views, events, commands),
        0 <= n < events.len(),
    ensures
        commands[n] is Stop <==> events[n] is Frame && forall|id: u64|
            !(#[trigger] present(events.take(n), id as int)),
        commands[n] is Start <==> events[n] is Join && !views[n].raf,
        (exists|id: u64| #[trigger] present(events.take(n), id as int)) ==> views[n].raf,
        views[n + 1].raf <==> commands[n] is Start || views[n].raf && !(commands[n] is Stop),
{
    let m = views[n];
    let event = events[n];
    assert(m.allows(event));
    law_present_follow(views, events, commands, n, 0);
    lemma_after(m, event);
    assert(m.is_followed() <==> exists|id: u64| #[trigger] present(events.take(n), id as int)) by {
        if m.is_followed() {
            let i = choose|i: int| 0 <= i < m.states.len() && (#[trigger] m.states[i]).alive;
            let id = m.states[i].id;
            assert(m.is_at(id, i));
            law_present_follow(views, events, commands, n, id);
        }
        if exists|id: u64| #[trigger] present(events.take(n), id as int) {
            let id = choose|id: u64| #[trigger] present(events.take(n), id as int);
            law_present_follow(views, events, commands, n, id);
            let i = choose|i: int| m.is_at(id, i);
            assert(m.is_at(id, i));
            assert(m.states[i].alive);
        }
    }
}

/// Whether the event at `k` is the one with which the follower `id` joined.
pub open spec fn joined_at<W>(events: Seq<Event<W>>, k: int, id: u64) -> bool {
    events[k] is Join && joins(events.take(k)) == id
}

/// Whether the event at `k` is a question of the follower `id`.
pub open spec fn asked_at<W>(events: Seq<Event<W>>, k: int, id: u64) -> bool {
    events[k] matches Event::Ask(who, _) && who == id
}

/// Whether a frame was drawn after the event at `k` and before the one at `n`.
pub open spec fn framed_between<W>(events: Seq<Event<W>>, k: int, n: int) -> bool {
    exists|f: int| k < f < n && (#[trigger] events[f]) is Frame
}

/// What a follower is told. It joined, or asked last, at `k`, and asks at `n`.
/// Where frames were drawn since, it is told the time of the last one. Otherwise it
/// is told that there is none if it has just joined, and waits if it has asked.
pub proof fn law_told_by_history<W>(
    views: Seq<TimestampsView<W>>,
    events: Seq<Event<W>>,
    commands: Seq<Command<()>>,
    k: int,
    n: int,
    id: u64,
    waker: W,
)
    requires
        is_history(views, events, commands),
        0 <= k < n < views.len(),
        joined_at(events, k, id) || asked_at(events, k, id),
        forall|i: int|
            k < i < n ==> !asked_at(events, i, id) && #[trigger] events[i] != Event::<W>::Leave(id),
    ensures
        views[n].follows(id),
        ({
            let (state, answer) = views[n].follower(id).polled(views[n].value, waker);
            &&& forall|f: int|
                k < f < n && events[f] is Frame && !framed_between(events, f, n)
                    ==> (#[trigger] events[f] matches Event::Frame(time) && answer == Poll::Ready(
                    Some(Some(time)),
                ))
            &&& !framed_between(events, k, n) && joined_at(events, k, id) ==> answer == Poll::Ready(
                Some(None::<Double>),
            )
            &&& !framed_between(events, k, n) && asked_at(events, k, id) ==> {
                &&& answer is Pending
                &&& state.waker == Some(waker)
            }
            &&& answer is Ready ==> state.waker == views[n].follower(id).waker
        }),
{
    lemma_told(views, events, commands, k, n, id);
    let s = views[n].follower(id);
    assert forall|f: int|
        k < f < n && events[f] is Frame && !framed_between(events, f, n) implies (
    #[trigger] events[f] matches Event::Frame(time) && s.polled(views[n].value, waker).1
        == Poll::Ready(Some(Some(time)))) by {
        assert(framed_between(events, k, n));
    }
}

/// What is known of a follower since it joined, or asked last, at `k`.
proof fn lemma_told<W>(
    views: Seq<TimestampsView<W>>,
    events: Seq<Event<W>>,
    commands: Seq<Command<()>>,
    k: int,
    n: int,
    id: u64,
)
    requires
        is_history(views, events, commands),
        0 <= k < n < views.len(),
        joined_at(events, k, id) || asked_at(events, k, id),
        forall|i: int|
            k < i < n ==> !asked_at(events, i, id) && #[trigger] events[i] != Event::<W>::Leave(id),
    ensures
        views[n].wf(),
        views[n].follows(id),
        framed_between(events, k, n) ==> views[n].follower(id).state is Changed
            && views[n].follower(id).waker is None,
        !framed_between(events, k, n) && joined_at(events, k, id) ==> views[n].follower(
            id,
        ).state is First && views[n].follower(id).waker is None,
        !framed_between(events, k, n) && asked_at(events, k, id) ==> views[n].follower(
            id,
        ).state is NotChanged,
        forall|f: int|
            k < f < n && events[f] is Frame && !framed_between(events, f, n) ==> (
            #[trigger] events[f] matches Event::Frame(time) && views[n].value == Some(time)),
    decreases n,
{
    let m = views[n - 1];
    let event = events[n - 1];
    assert(m.allows(event));
    law_present_follow(views, events, commands, n - 1, id);
    law_who_follows(m, event, id);
    if k == n - 1 {
        lemma_touch(m, event, id, joined_at(events, k, id));
    } else {
        lemma_told(views, events, commands, k, n - 1, id);
        assert(!asked_at(events, n - 1, id) && events[n - 1] != Event::<W>::Leave(id));
        lemma_untouched(m, event, id);
        assert forall|a: int| framed_between(events, a, n - 1) implies framed_between(
            events,
            a,
            n,
        ) by {
            let f = choose|f: int| a < f < n - 1 && (#[trigger] events[f]) is Frame;
            assert(a < f < n && events[f] is Frame);
        }
        if event is Frame {
            assert(framed_between(events, k, n)) by {
                assert(k < n - 1 < n && events[n - 1] is Frame);
            }
            assert forall|f: int|
                k < f < n && events[f] is Frame && !framed_between(events, f, n) implies (
            #[trigger] events[f] matches Event::Frame(time) && views[n].value == Some(time)) by {
                if f < n - 1 {
                    assert(f < n - 1 < n && events[n - 1] is Frame);
                }
            }
        } else {
            assert forall|a: int| framed_between(events, a, n) implies framed_between(
                events,
                a,
                n - 1,
            ) by {
                let f = choose|f: int| a < f < n && (#[trigger] events[f]) is Frame;
                assert(f != n - 1);
                assert(a < f < n - 1 && events[f] is Frame);
            }
        }
    }
}

/// What is known of a follower that has just joined, or asked.
proof fn lemma_touch<W>(m: TimestampsView<W>, event: Event<W>, id: u64, joined: bool)
    requires
        m.wf(),
        m.allows(event),
        joined ==> event is Join && id == m.next_id,
        !joined ==> (event matches Event::Ask(who, _) && who == id),
    ensures
        m.after(event).0.follows(id),
        joined ==> m.after(event).0.follower(id).state is First && m.after(event).0.follower(
            id,
        ).waker is None,
        !joined ==> m.after(event).0.follower(id).state is NotChanged,
{
    let n = m.after(event).0;
    law_who_follows(m, event, id);
    if joined {
        lemma_follower(n, id, m.states.len() as int);
    } else {
        let k = choose|k: int| m.is_at(id, k);
        assert(m.is_at(id, k));
        assert(n.is_at(id, k));
        lemma_follower(n, id, k);
    }
}

/// What somebody else does changes nothing for a follower; only a frame does.
proof fn lemma_untouched<W>(m: TimestampsView<W>, event: Event<W>, id: u64)
    requires
        m.wf(),
        m.allows(event),
        m.follows(id),
        !(event matches Event::Ask(who, _) && who == id),
        event != Event::<W>::Leave(id),
    ensures
        m.after(event).0.follows(id),
        event matches Event::Frame(time) ==> {
            &&& m.after(event).0.value == Some(time)
            &&& m.after(event).0.follower(id).state is Changed
            &&& m.after(event).0.follower(id).waker is None
        },
        !(event is Frame) ==> {
            &&& m.after(event).0.value == m.value
            &&& m.after(event).0.follower(id) == m.follower(id)
        },
{
    let n = m.after(event).0;
    law_who_follows(m, event, id);
    let j = choose|j: int| m.is_at(id, j);
    assert(m.is_at(id, j));
    lemma_follower(m, id, j);
    match event {
        Event::Join => {
            assert(n.is_at(id, j));
            lemma_follower(n, id, j);
        },
        Event::Ask(who, _) => {
            let k = choose|k: int| m.is_at(who, k);
            assert(m.is_at(who, k));
            assert(n.is_at(id, j));
            lemma_follower(n, id, j);
        },
        Event::Leave(who) => {
            let k = choose|k: int| m.is_at(who, k);
            assert(m.is_at(who, k));
            assert(who != id);
            assert(n.is_at(id, j));
            lemma_follower(n, id, j);
        },
        Event::Frame(_) => {
            let i = lemma_kept(m.states, j);
            assert(n.is_at(id, i));
            lemma_follower(n, id, i);
        },
    }
}

/// Only who has seen the last frame waits for the next one.
spec fn waits_rightly<W>(m: TimestampsView<W>) -> bool {
    forall|i: int|
        0 <= i < m.states.len() ==> (#[trigger] m.states[i]).state is NotChanged
            || m.states[i].waker is None
}

proof fn lemma_waits_rightly<W>(
    views: Seq<TimestampsView<W>>,
    events: Seq<Event<W>>,
    commands: Seq<Command<()>>,
    n: int,
)
    requires
        is_history(views, events, commands),
        0 <= n < views.len(),
    ensures
        waits_rightly(views[n]),
    decreases n,
{
    if n > 0 {
        let (m, event) = (views[n - 1], events[n - 1]);
        lemma_waits_rightly(views, events, commands, n - 1);
        assert(m.allows(event));
        law_present_follow(views, events, commands, n - 1, 0);
        match event {
            Event::Frame(_) => {
                lemma_framed_waits(m.states);
            },
            Event::Ask(id, _) => {
                let k = choose|k: int| m.is_at(id, k);
                assert(m.is_at(id, k));
            },
            Event::Leave(id) => {
                let k = choose|k: int| m.is_at(id, k);
                assert(m.is_at(id, k));
            },
            Event::Join => {},
        }
    }
}

/// Nobody waits after a frame.
proof fn lemma_framed_waits<W>(states: Seq<TimestampsState<W>>)
    ensures
        forall|i: int|
            0 <= i < framed_states(states).len() ==> (#[trigger] framed_states(
                states,
            )[i]).waker is None,
    decreases states.len(),
{
    if states.len() == 0 {
        lemma_framed_order(states, 0);
    } else {
        let last = states.len() - 1;
        assert(states.take(last + 1) =~= states);
        lemma_frame_step(states, last);
        lemma_framed_waits(states.take(last));
    }
}

/// Who waits. A follower that asked last at `k` waits, with the waker that it left
/// then, exactly if it got no answer; it does not wait any more once a frame has been
/// drawn, and one that has not asked yet does not wait either.
pub proof fn law_who_waits<W>(
    views: Seq<TimestampsView<W>>,
    events: Seq<Event<W>>,
    commands: Seq<Command<()>>,
    k: int,
    n: int,
    id: u64,
)
    requires
        is_history(views, events, commands),
        0 <= k < n < views.len(),
        joined_at(events, k, id) || asked_at(events, k, id),
        forall|i: int|
            k < i < n ==> !asked_at(events, i, id) && #[trigger] events[i] != Event::<W>::Leave(id),
    ensures
        views[n].follows(id),
        framed_between(events, k, n) ==> views[n].follower(id).waker is None,
        joined_at(events, k, id) ==> views[n].follower(id).waker is None,
        !framed_between(events, k, n) ==> (events[k] matches Event::Ask(who, waker) ==> views[n]
            .follower(id).waker == match views[k].follower(id).polled(views[k].value, waker).1 {
            Poll::Pending => Some(waker),
            Poll::Ready(_) => None,
        }),
    decreases n,
{
    lemma_told(views, events, commands, k, n, id);
    if asked_at(events, k, id) && !framed_between(events, k, n) {
        let m = views[n - 1];
        let event = events[n - 1];
        assert(m.allows(event));
        law_present_follow(views, events, commands, n - 1, id);
        if k == n - 1 {
            lemma_waits_rightly(views, events, commands, k);
            let i = choose|i: int| m.is_at(id, i);
            assert(m.is_at(id, i));
            assert(views[n].is_at(id, i));
            lemma_follower(views[n], id, i);
        } else {
            assert(!framed_between(events, k, n - 1)) by {
                if framed_between(events, k, n - 1) {
                    let f = choose|f: int| k < f < n - 1 && (#[trigger] events[f]) is Frame;
                    assert(k < f < n && events[f] is Frame);
                }
            }
            law_who_waits(views, events, commands, k, n - 1, id);
            assert(!asked_at(events, n - 1, id) && events[n - 1] != Event::<W>::Leave(id));
            assert(!(event is Frame)) by {
                if event is Frame {
                    assert(k < n - 1 < n && events[n - 1] is Frame);
                }
            }
            lemma_untouched(m, event, id);
        }
    }
}

/// A frame goes through the followers in the order in which they joined. Whoever has
/// gone is forgotten; whoever has not is kept with its number, has not seen the
/// frame, and does not wait any more. Those who waited are woken in this order.
pub proof fn law_frame_in_order<W>(states: Seq<TimestampsState<W>>, i: int)
    requires
        0 <= i < states.len(),
    ensures
        framed_states(states.take(0)).len() == 0,
        waiting(states.take(0)).len() == 0,
        framed_states(states.take(i + 1)) == if states[i].alive {
            framed_states(states.take(i)).push(
                TimestampsState {
                    id: states[i].id,
                    alive: true,
                    state: TimestampsEnum::Changed,
                    waker: None,
                },
            )
        } else {
            framed_states(states.take(i))
        },
        waiting(states.take(i + 1)) == match states[i].waker {
            Some(waker) => if states[i].alive {
                waiting(states.take(i)).push(waker)
            } else {
                waiting(states.take(i))
            },
            None => waiting(states.take(i)),
        },
{
    lemma_frame_step(states, i);
    lemma_framed_order(states.take(0), 0);
    let none = states.take(0);
    none.lemma_filter_len(|s: TimestampsState<W>| s.alive && s.waker is Some);
}

/// Where no time is reported, no time has passed, and the first frame is as it was. A
/// first report makes its time that of the first frame, and no time has passed. After
/// that the time that has passed is the difference of two times, to the first frame or
/// to the last one.
pub proof fn law_report(start: Option<Double>, previous: Option<Double>, time: Double)
    requires
        time.finite(),
        start matches Some(first) ==> first.finite(),
        previous matches Some(last) ==> last.finite(),
    ensures
        elapsed(start, None) == (start, None::<Double>),
        difference(previous, None) is None,
        elapsed(start, Some(time)).0 == match start {
            Some(first) => Some(first),
            None => Some(time),
        },
        elapsed(start, Some(time)).1 matches Some(passed) && {
            let first = match start {
                Some(first) => first,
                None => time,
            };
            &&& !passed.nan()
            &&& passed.finite() ==> near_sum(passed.value(), time.value(), -first.value())
        },
        difference(previous, Some(time)) matches Some(passed) && match previous {
            Some(last) => {
                &&& !passed.nan()
                &&& passed.finite() ==> near_sum(passed.value(), time.value(), -last.value())
            },
            None => passed.bits == 0,
        },
{
    match start {
        Some(first) => {
            law_difference(time, first, time);
        },
        None => {
            law_difference(time, time, time);
        },
    }
    if let Some(last) = previous {
        law_difference(time, last, time);
    }
}

} // verus!
