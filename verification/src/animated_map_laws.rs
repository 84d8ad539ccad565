//! What becomes of the elements of an animated vector and of their animations.

use crate::animated_map::{
    arrivals,
    live,
    AnimatedMapState,
    AnimatedMapView,
    Phase,
    Request,
    Step,
};
use crate::poll::Poll;
use crate::selection::{count, lemma_len};
use crate::vec_diff::{Patch, VecDiff};
use vstd::prelude::*;

verus! {

/// Animations stay with their elements: what is reported downstream is done to the
/// elements of the map too. A new element has the animation that was made for it,
/// and is not on its way out; every other element keeps its animation and its exit.
/// Where nothing is reported, no element comes, goes or moves; only one that begins
/// its exit gets it then.
pub proof fn law_animations_stay_with_their_elements<A, R, V>(
    pre: AnimatedMapView<A, R>,
    step: Step<V, A, R>,
    post: AnimatedMapView<A, R>,
    request: Request<V>,
)
    requires
        pre.awaits(step),
        pre.steps(step, post, request),
    ensures
        ({
            let (old, new) = (pre.animations, post.animations);
            match request {
                Request::Return(Poll::Ready(Some(diff))) => match diff {
                    VecDiff::Replace { values } => {
                        &&& step matches Step::Change(_, fresh) && {
                            &&& new.len() == values@.len()
                            &&& new.len() == fresh.len()
                            &&& forall|i: int|
                                0 <= i < new.len() ==> (#[trigger] new[i]).animation == fresh[i]
                                    && new[i].removing is None
                        }
                    },
                    VecDiff::InsertAt { index, value } => {
                        &&& step matches Step::Change(_, fresh) && {
                            &&& index <= old.len()
                            &&& new.len() == old.len() + 1
                            &&& new[index as int].animation == fresh[0]
                            &&& new[index as int].removing is None
                            &&& forall|i: int| 0 <= i < index ==> #[trigger] new[i] == old[i]
                            &&& forall|i: int|
                                index <= i < old.len() ==> new[i + 1] == #[trigger] old[i]
                        }
                    },
                    VecDiff::UpdateAt { index, value } => index < old.len() && new == old,
                    VecDiff::RemoveAt { index } => {
                        &&& index < old.len()
                        &&& new.len() == old.len() - 1
                        &&& forall|i: int| 0 <= i < index ==> #[trigger] new[i] == old[i]
                        &&& forall|i: int| index < i < old.len() ==> new[i - 1] == #[trigger] old[i]
                    },
                    VecDiff::Move { old_index, new_index } => {
                        &&& old_index < old.len()
                        &&& new_index < old.len()
                        &&& new.len() == old.len()
                        &&& new[new_index as int] == old[old_index as int]
                        &&& new.remove(new_index as int) == old.remove(old_index as int)
                    },
                    VecDiff::Push { value } => {
                        &&& step matches Step::Change(_, fresh) && {
                            &&& new.len() == old.len() + 1
                            &&& new.last().animation == fresh[0]
                            &&& new.last().removing is None
                            &&& forall|i: int| 0 <= i < old.len() ==> #[trigger] new[i] == old[i]
                        }
                    },
                    VecDiff::Pop => {
                        &&& new.len() == old.len() - 1
                        &&& forall|i: int| 0 <= i < new.len() ==> #[trigger] new[i] == old[i]
                    },
                    VecDiff::Clear => new.len() == 0,
                },
                _ => {
                    &&& new.len() == old.len()
                    &&& forall|i: int|
                        0 <= i < new.len() ==> (#[trigger] new[i]).animation == old[i].animation
                    &&& forall|i: int|
                        0 <= i < new.len() ==> (#[trigger] new[i]).removing == match (
                            step,
                            pre.phase,
                        ) {
                            (
                                Step::Leaving(Some(exit)),
                                Phase::Leaving { index },
                            ) => if i == index {
                                Some(exit)
                            } else {
                                old[i].removing
                            },
                            _ => old[i].removing,
                        }
                },
            }
        }),
        post.duration == pre.duration,
        post.upstream == (pre.upstream && !(step is End)),
{
    match request {
        Request::Return(Poll::Ready(Some(VecDiff::Move { old_index, new_index }))) => {
            assert(post.animations.remove(new_index as int) =~= pre.animations.remove(
                old_index as int,
            ));
        },
        _ => {},
    }
}

/// How many elements in front of `place` are not on their way out.
pub open spec fn staying_before<A, R>(states: Seq<AnimatedMapState<A, R>>, place: int) -> nat
    decreases place,
{
    if place <= 0 {
        0
    } else {
        staying_before(states, place - 1) + if states[place - 1].removing is None {
            1nat
        } else {
            0
        }
    }
}

/// Whether `place` is where the element number `index` is that stays.
pub open spec fn stands_at<A, R>(
    states: Seq<AnimatedMapState<A, R>>,
    index: int,
    place: int,
) -> bool {
    &&& 0 <= place < states.len()
    &&& states[place].removing is None
    &&& staying_before(states, place) == index
}

/// Whether `place` is where the element goes that becomes the number `index` of
/// those that stay: directly in front of the one that has this number, or behind
/// everything if there is none.
pub open spec fn belongs_at<A, R>(
    states: Seq<AnimatedMapState<A, R>>,
    index: int,
    place: int,
) -> bool {
    ||| stands_at(states, index, place)
    ||| place == states.len() && staying_before(states, states.len() as int) <= index
}

/// Counting by a mask is counting.
proof fn lemma_count<A, R>(states: Seq<AnimatedMapState<A, R>>, place: int)
    requires
        0 <= place <= states.len(),
    ensures
        count(live(states).take(place)) == staying_before(states, place),
    decreases place,
{
    let mask = live(states);
    if place > 0 {
        lemma_count(states, place - 1);
        assert(mask.take(place).drop_last() =~= mask.take(place - 1));
        assert(mask.take(place).last() == mask[place - 1]);
    }
}

/// The same for all elements.
proof fn lemma_count_all<A, R>(states: Seq<AnimatedMapState<A, R>>)
    ensures
        count(live(states)) == staying_before(states, states.len() as int),
{
    lemma_count(states, states.len() as int);
    assert(live(states).take(states.len() as int) =~= live(states));
}

/// A change of the upstream vector is reported downstream as the same change, with
/// the same values, for the elements that it means there: elements that are on their
/// way out do not count upstream. An element that is taken out is sent to zero first.
pub proof fn law_change_is_reported<A, R, V>(
    pre: AnimatedMapView<A, R>,
    change: VecDiff<V>,
    fresh: Seq<A>,
    post: AnimatedMapView<A, R>,
    request: Request<V>,
)
    requires
        pre.awaits(Step::Change(change, fresh)),
        pre.steps(Step::Change(change, fresh), post, request),
    ensures
        ({
            let states = pre.animations;
            match change {
                VecDiff::Replace { values } => request == Request::Return(
                    Poll::Ready(Some(VecDiff::Replace { values })),
                ),
                VecDiff::InsertAt { index, value } => {
                    &&& request matches Request::Return(
                        Poll::Ready(Some(VecDiff::InsertAt { index: p, value: v })),
                    )
                    &&& v == value
                    &&& belongs_at(states, index as int, p as int)
                },
                VecDiff::UpdateAt { index, value } => {
                    &&& request matches Request::Return(
                        Poll::Ready(Some(VecDiff::UpdateAt { index: p, value: v })),
                    )
                    &&& v == value
                    &&& stands_at(states, index as int, p as int)
                },
                VecDiff::RemoveAt { index } => {
                    &&& request matches Request::Leave { index: p, target }
                    &&& stands_at(states, index as int, p as int)
                    &&& target.0.bits == 0
                    &&& post.phase == Phase::Leaving { index: p }
                },
                VecDiff::Move { old_index, new_index } => {
                    &&& request matches Request::Return(
                        Poll::Ready(Some(VecDiff::Move { old_index: p, new_index: q })),
                    )
                    &&& stands_at(states, old_index as int, p as int)
                    &&& belongs_at(states.remove(p as int), new_index as int, q as int)
                },
                VecDiff::Push { value } => request == Request::Return(
                    Poll::Ready(Some(VecDiff::Push { value })),
                ),
                VecDiff::Pop => {
                    &&& request matches Request::Leave { index: p, target }
                    &&& states[p as int].removing is None
                    &&& p < states.len()
                    &&& forall|i: int| p < i < states.len() ==> #[trigger] states[i].removing is Some
                    &&& target.0.bits == 0
                    &&& post.phase == Phase::Leaving { index: p }
                },
                VecDiff::Clear => request == Request::Return(
                    Poll::Ready(Some(VecDiff::<V>::Clear)),
                ),
            }
        }),
        request is Leave || post.phase is Idle,
{
    let states = pre.animations;
    let mask = live(states);
    lemma_count_all(states);
    match change {
        VecDiff::InsertAt { index, value } => {
            let p = request->Return_0->Ready_0->Some_0->InsertAt_index as int;
            lemma_count(states, p);
        },
        VecDiff::UpdateAt { index, value } => {
            let p = request->Return_0->Ready_0->Some_0->UpdateAt_index as int;
            lemma_count(states, p);
        },
        VecDiff::RemoveAt { index } => {
            lemma_count(states, request->Leave_index as int);
        },
        VecDiff::Move { old_index, new_index } => {
            let p = request->Return_0->Ready_0->Some_0->old_index as int;
            let q = request->Return_0->Ready_0->Some_0->new_index as int;
            let rest = states.remove(p);
            lemma_count(states, p);
            assert(live(rest) =~= mask.remove(p));
            lemma_count_all(rest);
            lemma_count(rest, q);
        },
        VecDiff::Pop => {
            let p = request->Leave_index as int;
            lemma_count(states, p);
            assert forall|i: int| p < i < states.len() implies #[trigger] states[
                i
            ].removing is Some by {
                if states[i].removing is None {
                    lemma_staying_grows(states, p + 1, i);
                    lemma_staying_grows(states, i + 1, states.len() as int);
                }
            }
        },
        _ => {},
    }
}

/// The further one looks, the more elements stay.
proof fn lemma_staying_grows<A, R>(states: Seq<AnimatedMapState<A, R>>, i: int, j: int)
    requires
        0 <= i <= j,
    ensures
        staying_before(states, i) <= staying_before(states, j),
    decreases j,
{
    if i < j {
        lemma_staying_grows(states, i, j - 1);
    }
}

/// An element that is gone is reported as taken out from the end if it was the last
/// one, and by its place otherwise. It is gone as soon as it is out of sight.
pub proof fn law_element_goes<A, R, V>(
    pre: AnimatedMapView<A, R>,
    step: Step<V, A, R>,
    post: AnimatedMapView<A, R>,
    request: Request<V>,
    index: usize,
)
    requires
        pre.awaits(step),
        pre.steps(step, post, request),
        match step {
            Step::Leaving(None) => pre.phase == (Phase::Leaving { index }),
            Step::Exit(true) => pre.phase == (Phase::Exiting { index, is_done: !pre.upstream }),
            _ => false,
        },
    ensures
        request == if index == pre.animations.len() - 1 {
            Request::Return(Poll::Ready(Some(VecDiff::<V>::Pop)))
        } else {
            Request::Return(Poll::Ready(Some(VecDiff::<V>::RemoveAt { index })))
        },
        post.phase is Idle,
{
}

/// An element that is not out of sight yet begins its exit, and the upstream vector is
/// polled again.
pub proof fn law_exit_begins<A, R, V>(
    pre: AnimatedMapView<A, R>,
    exit: R,
    post: AnimatedMapView<A, R>,
    request: Request<V>,
)
    requires
        pre.awaits(Step::<V, A, R>::Leaving(Some(exit))),
        pre.steps(Step::Leaving(Some(exit)), post, request),
    ensures
        request is PollUpstream,
        post.phase is Upstream,
{
}

/// The exits are polled one by one, from the back. A poll begins with the upstream
/// vector while it is open. Once that has nothing to report, or has ended, the last
/// element is polled that is on its way out, and after one whose exit is not over the
/// one before it. When there is none left, downstream ends if the upstream vector has
/// ended and nothing is on its way out, and waits otherwise.
pub proof fn law_exits_are_polled_from_the_back<A, R, V>(
    pre: AnimatedMapView<A, R>,
    step: Step<V, A, R>,
    post: AnimatedMapView<A, R>,
    request: Request<V>,
)
    requires
        pre.awaits(step),
        pre.steps(step, post, request),
        step is Poll || step is End || step is Pending || step == Step::<V, A, R>::Exit(false),
    ensures
        step is Poll && pre.upstream ==> request is PollUpstream && post.phase is Upstream,
        !(step is Poll && pre.upstream) ==> {
            let states = pre.animations;
            let bound = match pre.phase {
                Phase::Exiting { index, .. } => index as int,
                _ => states.len() as int,
            };
            let ended = !pre.upstream || step is End;
            match request {
                Request::PollExit { index } => {
                    &&& index < bound
                    &&& states[index as int].removing is Some
                    &&& forall|j: int| index < j < bound ==> #[trigger] states[j].removing is None
                    &&& post.phase == Phase::Exiting { index, is_done: ended }
                },
                Request::Return(answer) => {
                    &&& forall|j: int| 0 <= j < bound ==> #[trigger] states[j].removing is None
                    &&& post.phase is Idle
                    &&& answer is Ready <==> ended && forall|j: int|
                        0 <= j < states.len() ==> #[trigger] states[j].removing is None
                    &&& answer matches Poll::Ready(diff) ==> diff is None
                },
                _ => false,
            }
        },
{
}

/// A change is accepted exactly if the elements that it names are upstream.
pub proof fn law_accepts_exactly<A, R, V>(
    map: AnimatedMapView<A, R>,
    upstream: Seq<V>,
    downstream: Seq<V>,
    change: Patch<V>,
)
    requires
        map.wf(),
        map.mirrors(upstream, downstream),
    ensures
        map.accepts(change) <==> match change {
            Patch::UpdateAt(index, _) => index < upstream.len(),
            Patch::RemoveAt(index) => index < upstream.len(),
            Patch::Move(old_index, _) => old_index < upstream.len(),
            Patch::Pop => 0 < upstream.len(),
            _ => true,
        },
        arrivals(change) == match change {
            Patch::Replace(values) => values.len(),
            Patch::InsertAt(_, _) => 1,
            Patch::Push(_) => 1,
            _ => 0,
        },
{
    lemma_len(downstream, map.staying());
}

} // verus!
