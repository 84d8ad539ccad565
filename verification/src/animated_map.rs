//! A vector whose elements animate in when they come and out when they go.
//!
//! An `AnimatedMap` stands between an upstream vector and a downstream one.
//! Upstream changes pass through at once, except that an element which is
//! taken out upstream stays downstream until its exit animation is over. The
//! map keeps one entry for each downstream element, and translates the indices
//! of the one vector into those of the other.
//!
//! The map does not poll anything itself. Each of its steps returns a
//! `Request` that says what to poll next or what to answer, and the outcome is
//! handed back with the step that the request names.

use crate::double::{Double, ONE_BITS};
use crate::percentage::Percentage;
use crate::poll::Poll;
use crate::selection::{
    count,
    is_landing,
    is_place,
    lemma_at,
    lemma_full,
    lemma_insert,
    lemma_len,
    lemma_place,
    select,
};
use crate::vec_diff::{Patch, VecDiff};
use vstd::pervasive::unreached;
use vstd::prelude::*;

verus! {

/// One downstream element: its animation, and, once it has been taken out
/// upstream, what to poll for the end of its exit.
pub struct AnimatedMapState<A, R> {
    pub animation: A,
    pub removing: Option<R>,
}

/// What the map waits for.
#[derive(Clone, Copy, Debug)]
pub enum Phase {
    /// Nothing: no poll is under way.
    Idle,
    /// The answer of the upstream vector.
    Upstream,
    /// Whether the element at `index`, just taken out upstream, is out of
    /// sight already.
    Leaving { index: usize },
    /// Whether the exit of the element at `index` is over. The upstream vector
    /// has ended if `is_done`, and has no change to report otherwise.
    Exiting { index: usize, is_done: bool },
}

/// What the driver of the map does next.
#[derive(Debug, PartialEq)]
pub enum Request<V> {
    /// Poll the upstream vector, and call `on_change`, `on_end` or
    /// `on_pending`.
    PollUpstream,
    /// Animate the element at `index` to `target`, poll for its arrival there,
    /// and call `on_leaving`.
    Leave { index: usize, target: Percentage },
    /// Poll the exit of the element at `index`, and call `on_exit`.
    PollExit { index: usize },
    /// Answer the poll.
    Return(Poll<Option<VecDiff<V>>>),
}

/// The animations that a change calls for.
#[derive(Clone, Copy, Debug)]
pub struct Entrance {
    /// How many elements are new.
    pub count: usize,
    /// How long the whole way from `0.0` to `1.0` takes.
    pub duration: Double,
    /// Where each animation starts.
    pub initial: Percentage,
    /// Where each animation goes at once, if it does not stay where it starts.
    pub target: Option<Percentage>,
}

pub struct AnimatedMap<A, R> {
    duration: Double,
    animations: Vec<AnimatedMapState<A, R>>,
    upstream: bool,
    phase: Phase,
}

/// What there is to know of an `AnimatedMap`: the duration of its animations,
/// the downstream elements, whether the upstream vector is still open, and
/// what the map waits for.
pub struct AnimatedMapView<A, R> {
    pub duration: Double,
    pub animations: Seq<AnimatedMapState<A, R>>,
    pub upstream: bool,
    pub phase: Phase,
}

impl<A, R> View for AnimatedMap<A, R> {
    type V = AnimatedMapView<A, R>;

    closed spec fn view(&self) -> AnimatedMapView<A, R> {
        AnimatedMapView {
            duration: self.duration,
            animations: self.animations@,
            upstream: self.upstream,
            phase: self.phase,
        }
    }
}

/// Which elements are not on their way out.
pub open spec fn live<A, R>(states: Seq<AnimatedMapState<A, R>>) -> Seq<bool> {
    Seq::new(states.len(), |i: int| states[i].removing is None)
}

/// Whether `i` is the last element below `bound` that is on its way out.
pub open spec fn is_last_removing<A, R>(
    states: Seq<AnimatedMapState<A, R>>,
    bound: int,
    i: int,
) -> bool {
    &&& 0 <= i < bound <= states.len()
    &&& states[i].removing is Some
    &&& forall|j: int| i < j < bound ==> #[trigger] states[j].removing is None
}

/// Whether no element below `bound` is on its way out.
pub open spec fn none_removing<A, R>(states: Seq<AnimatedMapState<A, R>>, bound: int) -> bool {
    forall|j: int| 0 <= j < bound ==> #[trigger] states[j].removing is None
}

/// An element with the given animation that is here to stay.
pub open spec fn staying_state<A, R>(animation: A) -> AnimatedMapState<A, R> {
    AnimatedMapState { animation, removing: None }
}

/// The request to report `diff` downstream.
pub open spec fn emit<V>(diff: VecDiff<V>) -> Request<V> {
    Request::Return(Poll::Ready(Some(diff)))
}

/// The change that takes out the element at `index` of `len` elements.
pub open spec fn removal<V>(index: usize, len: nat) -> VecDiff<V> {
    if index == len - 1 {
        VecDiff::Pop
    } else {
        VecDiff::RemoveAt { index }
    }
}

impl<A, R> AnimatedMapView<A, R> {
    /// The map waits only for elements that it has.
    pub open spec fn wf(self) -> bool {
        match self.phase {
            Phase::Idle => true,
            Phase::Upstream => self.upstream,
            Phase::Leaving { index } => {
                &&& self.upstream
                &&& index < self.animations.len()
                &&& self.animations[index as int].removing is None
            },
            Phase::Exiting { index, is_done } => {
                &&& index < self.animations.len()
                &&& self.animations[index as int].removing is Some
                &&& is_done == !self.upstream
            },
        }
    }

    /// Which downstream elements are there upstream too.
    pub open spec fn staying(self) -> Seq<bool> {
        match self.phase {
            Phase::Leaving { index } => live(self.animations).update(index as int, false),
            _ => live(self.animations),
        }
    }

    /// The downstream vector holds one item for each element of the map, and
    /// those that stay are the upstream vector.
    pub open spec fn mirrors<V>(self, upstream: Seq<V>, downstream: Seq<V>) -> bool {
        &&& downstream.len() == self.animations.len()
        &&& select(downstream, self.staying()) == upstream
    }

    /// Whether the elements that `change` names are there.
    pub open spec fn accepts<V>(self, change: Patch<V>) -> bool {
        match change {
            Patch::UpdateAt(index, _) => index < count(self.staying()),
            Patch::RemoveAt(index) => index < count(self.staying()),
            Patch::Move(old_index, _) => old_index < count(self.staying()),
            Patch::Pop => 0 < count(self.staying()),
            _ => true,
        }
    }

    /// The map with these elements, waiting for this.
    pub open spec fn with(
        self,
        animations: Seq<AnimatedMapState<A, R>>,
        phase: Phase,
    ) -> AnimatedMapView<A, R> {
        AnimatedMapView { animations, phase, ..self }
    }

    /// The map becomes `post`, and asks for `request`, when the upstream vector
    /// reports `change` and the new elements have the animations `fresh`.
    pub open spec fn changes<V>(
        self,
        change: VecDiff<V>,
        fresh: Seq<A>,
        post: AnimatedMapView<A, R>,
        request: Request<V>,
    ) -> bool {
        let states = self.animations;
        match change {
            VecDiff::Replace { values } => {
                &&& post == self.with(fresh.map_values(|a: A| staying_state(a)), Phase::Idle)
                &&& request == emit(change)
            },
            VecDiff::InsertAt { index, value } => {
                &&& request matches Request::Return(
                    Poll::Ready(Some(VecDiff::InsertAt { index: p, value: v })),
                )
                &&& v == value
                &&& is_landing(self.staying(), index as int, p as int)
                &&& post == self.with(states.insert(p as int, staying_state(fresh[0])), Phase::Idle)
            },
            VecDiff::UpdateAt { index, value } => {
                &&& request matches Request::Return(
                    Poll::Ready(Some(VecDiff::UpdateAt { index: p, value: v })),
                )
                &&& v == value
                &&& is_place(self.staying(), index as int, p as int)
                &&& post == self.with(states, Phase::Idle)
            },
            VecDiff::RemoveAt { index } => {
                &&& request matches Request::Leave { index: p, target }
                &&& target.0.bits == 0
                &&& is_place(self.staying(), index as int, p as int)
                &&& post == self.with(states, Phase::Leaving { index: p })
            },
            VecDiff::Move { old_index, new_index } => {
                &&& request matches Request::Return(
                    Poll::Ready(Some(VecDiff::Move { old_index: p, new_index: q })),
                )
                &&& is_place(self.staying(), old_index as int, p as int)
                &&& is_landing(self.staying().remove(p as int), new_index as int, q as int)
                &&& post == self.with(
                    states.remove(p as int).insert(q as int, states[p as int]),
                    Phase::Idle,
                )
            },
            VecDiff::Push { value } => {
                &&& post == self.with(states.push(staying_state(fresh[0])), Phase::Idle)
                &&& request == emit(change)
            },
            VecDiff::Pop => {
                &&& request matches Request::Leave { index: p, target }
                &&& target.0.bits == 0
                &&& is_place(self.staying(), count(self.staying()) - 1, p as int)
                &&& post == self.with(states, Phase::Leaving { index: p })
            },
            VecDiff::Clear => {
                &&& post == self.with(Seq::empty(), Phase::Idle)
                &&& request == emit(change)
            },
        }
    }

    /// The map becomes `post`, and asks for `request`, when it looks below
    /// `bound` for an element whose exit may be over: the last such element is
    /// polled. Where there is none, downstream ends if the upstream vector has
    /// ended and no element at all is on its way out.
    pub open spec fn scans<V>(
        self,
        bound: int,
        post: AnimatedMapView<A, R>,
        request: Request<V>,
    ) -> bool {
        match request {
            Request::PollExit { index } => {
                &&& is_last_removing(self.animations, bound, index as int)
                &&& post == self.with(
                    self.animations,
                    Phase::Exiting { index, is_done: !self.upstream },
                )
            },
            Request::Return(answer) => {
                &&& none_removing(self.animations, bound)
                &&& post == self.with(self.animations, Phase::Idle)
                &&& answer == if !self.upstream && none_removing(
                    self.animations,
                    self.animations.len() as int,
                ) {
                    Poll::Ready(None::<VecDiff<V>>)
                } else {
                    Poll::Pending
                }
            },
            _ => false,
        }
    }

    /// The element at `index` is gone, and this is reported.
    pub open spec fn drops<V>(
        self,
        index: usize,
        post: AnimatedMapView<A, R>,
        request: Request<V>,
    ) -> bool {
        &&& post == self.with(self.animations.remove(index as int), Phase::Idle)
        &&& request == emit(removal::<V>(index, self.animations.len()))
    }
}

/// One step of a map: what its driver tells it.
pub enum Step<V, A, R> {
    /// It is polled.
    Poll,
    /// The upstream vector has changed; these are the animations of the new
    /// elements.
    Change(VecDiff<V>, Seq<A>),
    /// The upstream vector has ended.
    End,
    /// The upstream vector has nothing to report.
    Pending,
    /// The element just taken out upstream is out of sight, or will be.
    Leaving(Option<R>),
    /// The exit that was polled is over, or not.
    Exit(bool),
}

impl<A, R> AnimatedMapView<A, R> {
    /// Whether the map waits for this step.
    pub open spec fn awaits<V>(self, step: Step<V, A, R>) -> bool {
        &&& self.wf()
        &&& match step {
            Step::Poll => self.phase is Idle,
            Step::Change(change, fresh) => {
                &&& self.phase is Upstream
                &&& self.accepts(change@)
                &&& fresh.len() == arrivals(change@)
            },
            Step::End => self.phase is Upstream,
            Step::Pending => self.phase is Upstream,
            Step::Leaving(pending) => self.phase is Leaving,
            Step::Exit(is_ready) => self.phase is Exiting,
        }
    }

    /// The map becomes `post`, and asks for `request`, when it takes a step.
    pub open spec fn steps<V>(
        self,
        step: Step<V, A, R>,
        post: AnimatedMapView<A, R>,
        request: Request<V>,
    ) -> bool {
        let len = self.animations.len() as int;
        match step {
            Step::Poll => if self.upstream {
                &&& request is PollUpstream
                &&& post == self.with(self.animations, Phase::Upstream)
            } else {
                self.scans(len, post, request)
            },
            Step::Change(change, fresh) => self.changes(change, fresh, post, request),
            Step::End => (AnimatedMapView { upstream: false, ..self }).scans(len, post, request),
            Step::Pending => self.scans(len, post, request),
            Step::Leaving(pending) => {
                &&& self.phase matches Phase::Leaving { index }
                &&& match pending {
                    None => self.drops(index, post, request),
                    Some(_) => {
                        &&& request is PollUpstream
                        &&& post == self.with(
                            self.animations.update(
                                index as int,
                                AnimatedMapState {
                                    animation: self.animations[index as int].animation,
                                    removing: pending,
                                },
                            ),
                            Phase::Upstream,
                        )
                    },
                }
            },
            Step::Exit(is_ready) => {
                &&& self.phase matches Phase::Exiting { index, is_done }
                &&& if is_ready {
                    self.drops(index, post, request)
                } else {
                    self.scans(index as int, post, request)
                }
            },
        }
    }
}

/// The upstream vector after a step.
pub open spec fn upstream_after<V, A, R>(step: Step<V, A, R>, upstream: Seq<V>) -> Seq<V> {
    match step {
        Step::Change(change, fresh) => change@.apply(upstream),
        _ => upstream,
    }
}

/// Whether a step is possible for this upstream vector.
pub open spec fn possible<V, A, R>(step: Step<V, A, R>, upstream: Seq<V>) -> bool {
    match step {
        Step::Change(change, fresh) => change@.fits(upstream.len() as int),
        _ => true,
    }
}

/// The downstream vector after what `request` reports, if anything.
pub open spec fn downstream_after<V>(request: Request<V>, downstream: Seq<V>) -> Seq<V> {
    match request {
        Request::Return(Poll::Ready(Some(diff))) => diff@.apply(downstream),
        _ => downstream,
    }
}

/// Whether what `request` reports, if anything, can be applied to a downstream
/// vector of length `len`.
pub open spec fn reportable<V>(request: Request<V>, len: int) -> bool {
    match request {
        Request::Return(Poll::Ready(Some(diff))) => diff@.fits(len),
        _ => true,
    }
}

/// A change that can be made to the upstream vector is one that the map
/// accepts.
pub proof fn law_accepts_what_fits<A, R, V>(
    map: AnimatedMapView<A, R>,
    upstream: Seq<V>,
    downstream: Seq<V>,
    change: Patch<V>,
)
    requires
        map.wf(),
        map.mirrors(upstream, downstream),
        change.fits(upstream.len() as int),
    ensures
        map.accepts(change),
{
    lemma_len(downstream, map.staying());
}

/// Where a map mirrors an upstream vector, it still does after a change of it:
/// what the map reports can be applied downstream, and the downstream elements
/// that stay are the changed upstream vector.
proof fn lemma_change<A, R, V>(
    pre: AnimatedMapView<A, R>,
    post: AnimatedMapView<A, R>,
    change: VecDiff<V>,
    fresh: Seq<A>,
    request: Request<V>,
    upstream: Seq<V>,
    downstream: Seq<V>,
)
    requires
        pre.wf(),
        pre.phase is Upstream,
        pre.mirrors(upstream, downstream),
        change@.fits(upstream.len() as int),
        fresh.len() == arrivals(change@),
        pre.changes(change, fresh, post, request),
    ensures
        reportable(request, downstream.len() as int),
        post.mirrors(change@.apply(upstream), downstream_after(request, downstream)),
{
    let mask = pre.staying();
    let next = post.staying();
    lemma_len(downstream, mask);
    match change {
        VecDiff::Replace { values } => {
            lemma_full(values@, next);
        },
        VecDiff::InsertAt { index, value } => {
            let p = request->Return_0->Ready_0->Some_0->InsertAt_index as int;
            lemma_insert(downstream, mask, p, value);
            assert(mask.take(mask.len() as int) =~= mask);
            assert(next =~= mask.insert(p, true));
        },
        VecDiff::UpdateAt { index, value } => {
            let p = request->Return_0->Ready_0->Some_0->UpdateAt_index as int;
            lemma_at(downstream, mask, p, value);
        },
        VecDiff::RemoveAt { index } => {
            let p = request->Leave_index as int;
            lemma_at(downstream, mask, p, downstream[p]);
        },
        VecDiff::Move { old_index, new_index } => {
            let p = request->Return_0->Ready_0->Some_0->old_index as int;
            let q = request->Return_0->Ready_0->Some_0->new_index as int;
            let x = downstream[p];
            let rest = mask.remove(p);
            lemma_at(downstream, mask, p, x);
            lemma_len(downstream.remove(p), rest);
            lemma_insert(downstream.remove(p), rest, q, x);
            assert(rest.take(rest.len() as int) =~= rest);
            assert(next =~= rest.insert(q, true));
        },
        VecDiff::Push { value } => {
            let p = downstream.len() as int;
            lemma_insert(downstream, mask, p, value);
            assert(mask.take(p) =~= mask);
            assert(next =~= mask.insert(p, true));
            assert(downstream.push(value) =~= downstream.insert(p, value));
            assert(upstream.push(value) =~= upstream.insert(upstream.len() as int, value));
        },
        VecDiff::Pop => {
            let p = request->Leave_index as int;
            lemma_at(downstream, mask, p, downstream[p]);
            assert(upstream.drop_last() =~= upstream.remove(upstream.len() - 1));
        },
        VecDiff::Clear => {},
    }
}

/// Where an element is gone that was not upstream any more, the map mirrors the
/// same upstream vector, and the removal can be applied downstream.
proof fn lemma_drop<A, R, V>(
    pre: AnimatedMapView<A, R>,
    post: AnimatedMapView<A, R>,
    index: usize,
    request: Request<V>,
    upstream: Seq<V>,
    downstream: Seq<V>,
)
    requires
        pre.wf(),
        match pre.phase {
            Phase::Leaving { index: i } => i == index,
            Phase::Exiting { index: i, is_done } => i == index,
            _ => false,
        },
        pre.mirrors(upstream, downstream),
        pre.drops(index, post, request),
    ensures
        reportable(request, downstream.len() as int),
        post.mirrors(upstream, downstream_after(request, downstream)),
{
    let p = index as int;
    lemma_at(downstream, pre.staying(), p, downstream[p]);
    assert(post.staying() =~= pre.staying().remove(p));
    if p == downstream.len() - 1 {
        assert(downstream.drop_last() =~= downstream.remove(p));
    }
}

/// A map that is new mirrors an empty vector.
pub proof fn law_starts_empty<A, R, V>(duration: Double)
    ensures
        (AnimatedMapView::<A, R> {
            duration,
            animations: Seq::empty(),
            upstream: true,
            phase: Phase::Idle,
        }).mirrors(Seq::<V>::empty(), Seq::<V>::empty()),
{
}

/// A map mirrors its upstream vector at every step: what it reports can be
/// applied downstream, and the downstream elements that stay are the upstream
/// vector.
pub proof fn law_step_is_mirrored<A, R, V>(
    pre: AnimatedMapView<A, R>,
    step: Step<V, A, R>,
    post: AnimatedMapView<A, R>,
    request: Request<V>,
    upstream: Seq<V>,
    downstream: Seq<V>,
)
    requires
        pre.awaits(step),
        pre.steps(step, post, request),
        possible(step, upstream),
        pre.mirrors(upstream, downstream),
    ensures
        reportable(request, downstream.len() as int),
        post.mirrors(upstream_after(step, upstream), downstream_after(request, downstream)),
{
    match step {
        Step::Change(change, fresh) => {
            lemma_change(pre, post, change, fresh, request, upstream, downstream);
        },
        Step::Leaving(None) => {
            lemma_drop(pre, post, pre.phase->Leaving_index, request, upstream, downstream);
        },
        Step::Exit(true) => {
            lemma_drop(pre, post, pre.phase->Exiting_index, request, upstream, downstream);
        },
        _ => {
            assert(post.staying() =~= pre.staying());
        },
    }
}

/// However long a map runs, its downstream vector, without the elements that
/// are on their way out, is its upstream vector.
pub proof fn law_run_is_mirrored<A, R, V>(
    maps: Seq<AnimatedMapView<A, R>>,
    steps: Seq<Step<V, A, R>>,
    requests: Seq<Request<V>>,
    upstreams: Seq<Seq<V>>,
    downstreams: Seq<Seq<V>>,
    n: int,
)
    requires
        maps.len() == upstreams.len(),
        maps.len() == downstreams.len(),
        maps.len() == steps.len() + 1,
        maps.len() == requests.len() + 1,
        0 <= n < maps.len(),
        maps[0].mirrors(upstreams[0], downstreams[0]),
        forall|i: int|
            0 <= i < steps.len() ==> {
                &&& maps[i].awaits(#[trigger] steps[i])
                &&& maps[i].steps(steps[i], maps[i + 1], requests[i])
                &&& possible(steps[i], upstreams[i])
                &&& upstreams[i + 1] == upstream_after(steps[i], upstreams[i])
                &&& downstreams[i + 1] == downstream_after(requests[i], downstreams[i])
            },
    ensures
        maps[n].mirrors(upstreams[n], downstreams[n]),
    decreases n,
{
    if n > 0 {
        law_run_is_mirrored(maps, steps, requests, upstreams, downstreams, n - 1);
        let step = steps[n - 1];
        law_step_is_mirrored(
            maps[n - 1],
            step,
            maps[n],
            requests[n - 1],
            upstreams[n - 1],
            downstreams[n - 1],
        );
    }
}

/// A map ends only when its upstream vector has ended, and then its downstream
/// vector is its upstream vector. It keeps its driver waiting only while its
/// upstream vector is open or an element is on its way out.
pub proof fn law_end<A, R, V>(
    pre: AnimatedMapView<A, R>,
    step: Step<V, A, R>,
    post: AnimatedMapView<A, R>,
    request: Request<V>,
    upstream: Seq<V>,
    downstream: Seq<V>,
)
    requires
        pre.awaits(step),
        pre.steps(step, post, request),
        possible(step, upstream),
        pre.mirrors(upstream, downstream),
    ensures
        request == Request::Return(Poll::Ready(None::<VecDiff<V>>)) ==> {
            &&& !post.upstream
            &&& downstream == upstream
        },
        request == Request::<V>::Return(Poll::Pending) ==> {
            ||| post.upstream
            ||| !none_removing(post.animations, post.animations.len() as int)
        },
{
    law_step_is_mirrored(pre, step, post, request, upstream, downstream);
    if request == Request::Return(Poll::Ready(None::<VecDiff<V>>)) {
        lemma_full(downstream, post.staying());
    }
}

impl<A, R> AnimatedMapView<A, R> {
    /// How many steps it takes at most to answer the poll that is under way.
    pub open spec fn steps_left(self) -> nat {
        let len = self.animations.len();
        match self.phase {
            Phase::Idle => 0,
            Phase::Upstream => 2 * count(live(self.animations)) + len + 1,
            Phase::Leaving { index } => 2 * count(live(self.animations)) + len,
            Phase::Exiting { index, is_done } => (index + 1) as nat,
        }
    }
}

/// A poll is answered: each of its steps leaves fewer steps to take, even if
/// the upstream vector always has a change to report, and no step is left
/// exactly where the request is an answer.
pub proof fn law_poll_is_answered<A, R, V>(
    pre: AnimatedMapView<A, R>,
    step: Step<V, A, R>,
    post: AnimatedMapView<A, R>,
    request: Request<V>,
)
    requires
        pre.awaits(step),
        pre.steps(step, post, request),
    ensures
        !(step is Poll) ==> post.steps_left() < pre.steps_left(),
        request is Return <==> post.steps_left() == 0,
{
    let mask = live(pre.animations);
    match step {
        Step::Leaving(Some(_)) => {
            let p = pre.phase->Leaving_index as int;
            let less = mask.update(p, false);
            assert(live(post.animations) =~= less);
            lemma_at(mask, mask, p, true);
            lemma_len(mask, mask);
            lemma_len(mask, less);
        },
        Step::Leaving(None) => {
            lemma_at(mask, mask, pre.phase->Leaving_index as int, true);
        },
        _ => {},
    }
}

/// While no element is on its way out, the downstream vector is the upstream
/// vector.
pub proof fn law_settled<A, R, V>(
    map: AnimatedMapView<A, R>,
    upstream: Seq<V>,
    downstream: Seq<V>,
)
    requires
        map.mirrors(upstream, downstream),
        none_removing(map.animations, map.animations.len() as int),
        !(map.phase is Leaving),
    ensures
        downstream == upstream,
{
    lemma_full(downstream, map.staying());
}

/// How many elements a change adds.
pub open spec fn arrivals<V>(change: Patch<V>) -> nat {
    match change {
        Patch::Replace(values) => values.len(),
        Patch::InsertAt(_, _) => 1,
        Patch::Push(_) => 1,
        _ => 0,
    }
}

impl<A, R> AnimatedMap<A, R> {
    /// An empty map over an open upstream vector.
    pub fn new(duration: Double) -> (r: AnimatedMap<A, R>)
        ensures
            r@ == (AnimatedMapView::<A, R> {
                duration,
                animations: Seq::empty(),
                upstream: true,
                phase: Phase::Idle,
            }),
            r@.wf(),
    {
        AnimatedMap { duration, animations: Vec::new(), upstream: true, phase: Phase::Idle }
    }

    /// The place of the staying element number `parent_index`.
    fn find_index(&self, parent_index: usize) -> (r: Option<usize>)
        ensures
            match r {
                Some(p) => is_place(live(self@.animations), parent_index as int, p as int),
                None => count(live(self@.animations)) <= parent_index,
            },
    {
        let ghost mask = live(self.animations@);
        let mut seen: usize = 0;
        let mut i: usize = 0;
        while i < self.animations.len()
            invariant
                i <= self.animations.len(),
                mask == live(self.animations@),
                seen == count(mask.take(i as int)),
                seen <= i,
                seen <= parent_index,
            decreases self.animations.len() - i,
        {
            proof {
                assert(mask.take(i + 1).drop_last() =~= mask.take(i as int));
            }
            if self.animations[i].removing.is_none() {
                if seen == parent_index {
                    return Some(i);
                } else {
                    seen += 1;
                }
            }
            i += 1;
        }
        assert(mask.take(i as int) =~= mask);
        None
    }

    /// The place of the last staying element.
    fn find_last_index(&self) -> (r: Option<usize>)
        ensures
            match r {
                Some(p) => is_place(
                    live(self@.animations),
                    count(live(self@.animations)) - 1,
                    p as int,
                ),
                None => count(live(self@.animations)) == 0,
            },
    {
        let ghost mask = live(self.animations@);
        let mut i: usize = self.animations.len();
        assert(mask.take(i as int) =~= mask);
        while i > 0
            invariant
                i <= self.animations.len(),
                mask == live(self.animations@),
                count(mask.take(i as int)) == count(mask),
            decreases i,
        {
            proof {
                assert(mask.take(i as int).drop_last() =~= mask.take(i - 1));
            }
            i -= 1;
            if self.animations[i].removing.is_none() {
                return Some(i);
            }
        }
        None
    }

    /// Takes the element at `index` out, and says so.
    fn remove_index<V>(&mut self, index: usize) -> (r: Request<V>)
        requires
            index < old(self)@.animations.len(),
        ensures
            old(self)@.drops(index, final(self)@, r),
    {
        let last: usize = self.animations.len() - 1;
        self.phase = Phase::Idle;
        if index == last {
            self.animations.pop();
            assert(old(self)@.animations.drop_last() =~= old(self)@.animations.remove(
                index as int,
            ));
            Request::Return(Poll::Ready(Some(VecDiff::Pop)))
        } else {
            self.animations.remove(index);
            Request::Return(Poll::Ready(Some(VecDiff::RemoveAt { index })))
        }
    }

    /// Looks below `bound` for an element whose exit may be over. It goes from
    /// the back, so that more removals are removals of the last element.
    /// `is_removing` says whether an element from `bound` on is on its way out.
    fn scan<V>(&mut self, bound: usize, is_removing: bool) -> (r: Request<V>)
        requires
            bound <= old(self)@.animations.len(),
            is_removing == exists|j: int|
                bound <= j < old(self)@.animations.len() && (
                #[trigger] old(self)@.animations[j]).removing is Some,
        ensures
            old(self)@.scans(bound as int, final(self)@, r),
            final(self)@.wf(),
    {
        let is_done = !self.upstream;
        let mut i: usize = bound;
        while i > 0
            invariant
                i <= bound <= self.animations.len(),
                self@ == old(self)@,
                is_done == !self.upstream,
                forall|j: int| i <= j < bound ==> #[trigger] self.animations[j].removing is None,
            decreases i,
        {
            i -= 1;
            if self.animations[i].removing.is_some() {
                self.phase = Phase::Exiting { index: i, is_done };
                return Request::PollExit { index: i };
            }
        }
        self.phase = Phase::Idle;
        if is_done && !is_removing {
            Request::Return(Poll::Ready(None))
        } else {
            Request::Return(Poll::Pending)
        }
    }

    /// Starts a poll of the map: the upstream vector is polled while it is
    /// open, and then the elements on their way out.
    pub fn poll_vec_change<V>(&mut self) -> (r: Request<V>)
        ensures
            old(self)@.upstream ==> {
                &&& r is PollUpstream
                &&& final(self)@ == old(self)@.with(old(self)@.animations, Phase::Upstream)
            },
            !old(self)@.upstream ==> old(self)@.scans(
                old(self)@.animations.len() as int,
                final(self)@,
                r,
            ),
            old(self)@.steps(Step::Poll, final(self)@, r),
            final(self)@.wf(),
    {
        if self.upstream {
            self.phase = Phase::Upstream;
            Request::PollUpstream
        } else {
            let bound: usize = self.animations.len();
            self.scan(bound, false)
        }
    }

    /// The animations to make for the new elements of `change`. Elements that
    /// replace the whole vector are there at once; others come in.
    pub fn entrance<V>(&self, change: &VecDiff<V>) -> (r: Entrance)
        ensures
            r.count == arrivals(change@),
            r.duration == self@.duration,
            change is Replace ==> r.initial.0.bits == ONE_BITS && r.target is None,
            !(change is Replace) ==> {
                &&& r.initial.0.bits == 0
                &&& r.target matches Some(target) && target.0.bits == ONE_BITS
            },
    {
        let zero = Percentage::new_unchecked(Double::zero());
        let one = Percentage::new_unchecked(Double::one());
        let count: usize = match change {
            VecDiff::Replace { values } => {
                return Entrance {
                    count: values.len(),
                    duration: self.duration,
                    initial: one,
                    target: None,
                };
            },
            VecDiff::InsertAt { .. } => 1,
            VecDiff::Push { .. } => 1,
            _ => 0,
        };
        Entrance { count, duration: self.duration, initial: zero, target: Some(one) }
    }

    /// Whether the elements that `change` names are there.
    pub fn accepts<V>(&self, change: &VecDiff<V>) -> (r: bool)
        requires
            !(self@.phase is Leaving),
        ensures
            r == self@.accepts(change@),
    {
        let place: Option<usize> = match change {
            VecDiff::UpdateAt { index, .. } => self.find_index(*index),
            VecDiff::RemoveAt { index } => self.find_index(*index),
            VecDiff::Move { old_index, .. } => self.find_index(*old_index),
            VecDiff::Pop => self.find_last_index(),
            _ => {
                return true;
            },
        };
        proof {
            if let Some(p) = place {
                let mask = live(self@.animations);
                lemma_place(mask, count(mask.take(p as int)) as int, p as int);
            }
        }
        place.is_some()
    }

    /// The upstream vector has reported `change`; `fresh` holds an animation
    /// for each new element.
    pub fn on_change<V>(&mut self, change: VecDiff<V>, fresh: Vec<A>) -> (r: Request<V>)
        requires
            old(self)@.wf(),
            old(self)@.phase is Upstream,
            old(self)@.accepts(change@),
            fresh@.len() == arrivals(change@),
        ensures
            old(self)@.changes(change, fresh@, final(self)@, r),
            old(self)@.steps(Step::Change(change, fresh@), final(self)@, r),
            final(self)@.wf(),
    {
        let ghost mask = live(self@.animations);
        let zero = Percentage::new_unchecked(Double::zero());
        let mut fresh = fresh;
        match change {
            VecDiff::Replace { values } => {
                let animations = staying_states(fresh);
                self.animations = animations;
                self.phase = Phase::Idle;
                Request::Return(Poll::Ready(Some(VecDiff::Replace { values })))
            },
            VecDiff::InsertAt { index, value } => {
                let animation = fresh.remove(0);
                let index: usize = match self.find_index(index) {
                    Some(p) => {
                        proof {
                            lemma_place(mask, index as int, p as int);
                        }
                        p
                    },
                    None => self.animations.len(),
                };
                self.animations.insert(index, AnimatedMapState { animation, removing: None });
                self.phase = Phase::Idle;
                Request::Return(Poll::Ready(Some(VecDiff::InsertAt { index, value })))
            },
            VecDiff::UpdateAt { index, value } => {
                let index: usize = self.find_index(index).unwrap();
                self.phase = Phase::Idle;
                Request::Return(Poll::Ready(Some(VecDiff::UpdateAt { index, value })))
            },
            VecDiff::RemoveAt { index } => {
                let index: usize = self.find_index(index).unwrap();
                self.phase = Phase::Leaving { index };
                Request::Leave { index, target: zero }
            },
            VecDiff::Move { old_index, new_index } => {
                let p: usize = self.find_index(old_index).unwrap();
                let state = self.animations.remove(p);
                assert(live(self.animations@) =~= mask.remove(p as int));
                let q: usize = match self.find_index(new_index) {
                    Some(q) => {
                        proof {
                            lemma_place(live(self.animations@), new_index as int, q as int);
                        }
                        q
                    },
                    None => self.animations.len(),
                };
                self.animations.insert(q, state);
                self.phase = Phase::Idle;
                Request::Return(Poll::Ready(Some(VecDiff::Move { old_index: p, new_index: q })))
            },
            VecDiff::Push { value } => {
                let animation = fresh.remove(0);
                self.animations.push(AnimatedMapState { animation, removing: None });
                self.phase = Phase::Idle;
                Request::Return(Poll::Ready(Some(VecDiff::Push { value })))
            },
            VecDiff::Pop => {
                let index: usize = self.find_last_index().unwrap();
                self.phase = Phase::Leaving { index };
                Request::Leave { index, target: zero }
            },
            VecDiff::Clear => {
                self.animations.clear();
                self.phase = Phase::Idle;
                Request::Return(Poll::Ready(Some(VecDiff::Clear)))
            },
        }
    }

    /// The upstream vector has ended.
    pub fn on_end<V>(&mut self) -> (r: Request<V>)
        requires
            old(self)@.wf(),
            old(self)@.phase is Upstream,
        ensures
            (AnimatedMapView::<A, R> { upstream: false, ..old(self)@ }).scans(
                old(self)@.animations.len() as int,
                final(self)@,
                r,
            ),
            old(self)@.steps(Step::End, final(self)@, r),
            final(self)@.wf(),
    {
        self.upstream = false;
        let bound: usize = self.animations.len();
        self.scan(bound, false)
    }

    /// The upstream vector has nothing to report.
    pub fn on_pending<V>(&mut self) -> (r: Request<V>)
        requires
            old(self)@.wf(),
            old(self)@.phase is Upstream,
        ensures
            old(self)@.scans(old(self)@.animations.len() as int, final(self)@, r),
            old(self)@.steps(Step::Pending, final(self)@, r),
            final(self)@.wf(),
    {
        let bound: usize = self.animations.len();
        self.scan(bound, false)
    }

    /// The element that was just taken out upstream is out of sight already,
    /// or its exit can be polled through `pending`. In the second case the
    /// upstream vector is polled again.
    pub fn on_leaving<V>(&mut self, pending: Option<R>) -> (r: Request<V>)
        requires
            old(self)@.wf(),
            old(self)@.phase is Leaving,
        ensures
            old(self)@.phase matches Phase::Leaving { index } && match pending {
                None => old(self)@.drops(index, final(self)@, r),
                Some(_) => {
                    &&& r is PollUpstream
                    &&& final(self)@ == old(self)@.with(
                        old(self)@.animations.update(
                            index as int,
                            AnimatedMapState {
                                animation: old(self)@.animations[index as int].animation,
                                removing: pending,
                            },
                        ),
                        Phase::Upstream,
                    )
                },
            },
            old(self)@.steps(Step::Leaving(pending), final(self)@, r),
            final(self)@.wf(),
    {
        match self.phase {
            Phase::Leaving { index } => {
                if pending.is_none() {
                    self.remove_index(index)
                } else {
                    self.animations[index].removing = pending;
                    self.phase = Phase::Upstream;
                    Request::PollUpstream
                }
            },
            _ => unreached(),
        }
    }

    /// The exit that was polled is over if `is_ready`.
    pub fn on_exit<V>(&mut self, is_ready: bool) -> (r: Request<V>)
        requires
            old(self)@.wf(),
            old(self)@.phase is Exiting,
        ensures
            old(self)@.phase matches Phase::Exiting { index, is_done } && if is_ready {
                old(self)@.drops(index, final(self)@, r)
            } else {
                old(self)@.scans(index as int, final(self)@, r)
            },
            old(self)@.steps(Step::Exit(is_ready), final(self)@, r),
            final(self)@.wf(),
    {
        match self.phase {
            Phase::Exiting { index, is_done } => {
                if is_ready {
                    self.remove_index(index)
                } else {
                    assert(self@.animations[index as int].removing is Some);
                    self.scan(index, true)
                }
            },
            _ => unreached(),
        }
    }

    /// How long the whole way of an element's animation takes.
    pub fn duration(&self) -> (r: Double)
        ensures
            r == self@.duration,
    {
        self.duration
    }

    /// What to poll for the end of the exit of the element at `index`, if it is on
    /// its way out.
    pub fn removing(&self, index: usize) -> (r: Option<&R>)
        requires
            index < self@.animations.len(),
        ensures
            match r {
                Some(exit) => self@.animations[index as int].removing == Some(*exit),
                None => self@.animations[index as int].removing is None,
            },
    {
        self.animations[index].removing.as_ref()
    }

    /// How many elements there are downstream.
    pub fn len(&self) -> (r: usize)
        ensures
            r == self@.animations.len(),
    {
        self.animations.len()
    }

    /// The animation of the downstream element at `index`.
    pub fn animation(&self, index: usize) -> (r: &A)
        requires
            index < self@.animations.len(),
        ensures
            *r == self@.animations[index as int].animation,
    {
        &self.animations[index].animation
    }

    /// What to poll for the end of the exit of the element at `index`.
    pub fn exit_mut(&mut self, index: usize) -> (r: &mut R)
        requires
            index < old(self)@.animations.len(),
            old(self)@.animations[index as int].removing is Some,
        ensures
            Some(*r) == old(self)@.animations[index as int].removing,
            final(self)@ == old(self)@.with(
                old(self)@.animations.update(
                    index as int,
                    AnimatedMapState {
                        animation: old(self)@.animations[index as int].animation,
                        removing: Some(*final(r)),
                    },
                ),
                old(self)@.phase,
            ),
    {
        self.animations[index].removing.as_mut().unwrap()
    }
}

/// An element that is here to stay for each animation.
fn staying_states<A, R>(animations: Vec<A>) -> (r: Vec<AnimatedMapState<A, R>>)
    ensures
        r@ == animations@.map_values(|a: A| staying_state::<A, R>(a)),
{
    let ghost all = animations@;
    let mut states: Vec<AnimatedMapState<A, R>> = Vec::with_capacity(animations.len());
    for animation in iter: animations
        invariant
            iter.seq() == all,
            states@ == all.take(iter.index()).map_values(|a: A| staying_state::<A, R>(a)),
    {
        states.push(AnimatedMapState { animation, removing: None });
    }
    states
}

} // verus!
