//! The scheduler: which stream may start, and when all are done.
//!
//! The scheduler and the execution units talk through two queues. The
//! dispatch queue carries streams that may start, the completion queue
//! carries streams that are done. The scheduler counts, for each stream, the
//! dependencies that are not done yet, and dispatches a stream when its count
//! falls to zero.

use crate::sequences::{lemma_not_before, lemma_take_next};
use crate::streams::{strictly_ascending, Stream};
use std::collections::VecDeque;
use vstd::prelude::*;

verus! {

/// The token that tells an execution unit to stop.
pub const STOP: usize = usize::MAX;

/// Whether every stream names each of its dependencies once and depends on
/// streams with a smaller number only.
pub open spec fn schedulable(streams: Seq<Stream>) -> bool {
    forall|u: int|
        0 <= u < streams.len() ==> {
            &&& (#[trigger] streams[u]).dependencies@.no_duplicates()
            &&& forall|k: int|
                0 <= k < streams[u].dependencies@.len() ==> (#[trigger] streams[u].dependencies@[k])
                    < u
        }
}

/// How many of `dependencies` are not among `done`.
pub open spec fn unresolved(dependencies: Seq<usize>, done: Seq<usize>) -> nat
    decreases dependencies.len(),
{
    if dependencies.len() == 0 {
        0
    } else if done.contains(dependencies.last()) {
        unresolved(dependencies.drop_last(), done)
    } else {
        unresolved(dependencies.drop_last(), done) + 1
    }
}

/// Those of `dependents`, in their order, whose count of unresolved
/// dependencies stands at one, so that one more completion sets them free.
pub open spec fn released(dependents: Seq<usize>, pending: Seq<usize>) -> Seq<usize>
    decreases dependents.len(),
{
    if dependents.len() == 0 {
        Seq::empty()
    } else if pending[dependents.last() as int] == 1 {
        released(dependents.drop_last(), pending).push(dependents.last())
    } else {
        released(dependents.drop_last(), pending)
    }
}

/// The streams below `upto`, in ascending order, that wait for nothing.
pub open spec fn idle(pending: Seq<usize>, upto: int) -> Seq<usize>
    decreases upto,
{
    if upto <= 0 {
        Seq::empty()
    } else if pending[upto - 1] == 0 {
        idle(pending, upto - 1).push((upto - 1) as usize)
    } else {
        idle(pending, upto - 1)
    }
}

/// The streams below `upto`, in ascending order, that depend on nothing.
pub open spec fn sources(streams: Seq<Stream>, upto: int) -> Seq<usize>
    decreases upto,
{
    if upto <= 0 {
        Seq::empty()
    } else if streams[upto - 1].dependencies@.len() == 0 {
        sources(streams, upto - 1).push((upto - 1) as usize)
    } else {
        sources(streams, upto - 1)
    }
}

/// Whether `list` holds, in ascending order, the streams below `upto` that
/// depend on stream `d`, and of stream `upto` itself if `d` is among the
/// first `k` of its dependencies.
pub open spec fn lists_dependents(
    list: Seq<usize>,
    streams: Seq<Stream>,
    d: int,
    upto: int,
    k: int,
) -> bool {
    &&& strictly_ascending(list)
    &&& (forall|v: usize|
        #[trigger] list.contains(v) <==> ((v < upto && v < streams.len()
            && streams[v as int].dependencies@.contains(d as usize)) || (v == upto && v
            < streams.len() && streams[v as int].dependencies@.take(k).contains(d as usize))))
}

/// With nothing done, every dependency is unresolved.
pub proof fn lemma_unresolved_at_start(dependencies: Seq<usize>)
    ensures
        unresolved(dependencies, Seq::empty()) == dependencies.len(),
    decreases dependencies.len(),
{
    if dependencies.len() > 0 {
        lemma_unresolved_at_start(dependencies.drop_last());
    }
}

/// At the start, the streams that wait for nothing are the streams that
/// depend on nothing.
pub proof fn lemma_sources(streams: Seq<Stream>, pending: Seq<usize>, upto: int)
    requires
        0 <= upto <= streams.len(),
        pending.len() == streams.len(),
        forall|u: int|
            0 <= u < streams.len() ==> (#[trigger] pending[u]) == unresolved(
                streams[u].dependencies@,
                Seq::empty(),
            ),
    ensures
        idle(pending, upto) == sources(streams, upto),
    decreases upto,
{
    if upto > 0 {
        lemma_sources(streams, pending, upto - 1);
        lemma_unresolved_at_start(streams[upto - 1].dependencies@);
        assert(pending[upto - 1] == unresolved(streams[upto - 1].dependencies@, Seq::empty()));
    }
}

/// No dependency is unresolved exactly when all of them are done.
pub proof fn lemma_unresolved_none(dependencies: Seq<usize>, done: Seq<usize>)
    ensures
        unresolved(dependencies, done) == 0 <==> forall|k: int|
            0 <= k < dependencies.len() ==> done.contains(#[trigger] dependencies[k]),
    decreases dependencies.len(),
{
    if dependencies.len() > 0 {
        let front = dependencies.drop_last();
        lemma_unresolved_none(front, done);
        if unresolved(dependencies, done) == 0 {
            assert forall|k: int| 0 <= k < dependencies.len() implies done.contains(
                #[trigger] dependencies[k],
            ) by {
                if k < front.len() {
                    assert(front[k] == dependencies[k]);
                }
            }
        } else if done.contains(dependencies.last()) {
            let k = choose|k: int| 0 <= k < front.len() && !done.contains(#[trigger] front[k]);
            assert(front[k] == dependencies[k]);
        } else {
            assert(dependencies[dependencies.len() - 1] == dependencies.last());
        }
    }
}

/// A completion resolves one dependency of the streams that wait for it and
/// none of the others.
pub proof fn lemma_unresolved_after(dependencies: Seq<usize>, done: Seq<usize>, c: usize)
    requires
        dependencies.no_duplicates(),
        !done.contains(c),
    ensures
        dependencies.contains(c) ==> unresolved(dependencies, done) == unresolved(
            dependencies,
            done.push(c),
        ) + 1,
        !dependencies.contains(c) ==> unresolved(dependencies, done) == unresolved(
            dependencies,
            done.push(c),
        ),
    decreases dependencies.len(),
{
    if dependencies.len() > 0 {
        let front = dependencies.drop_last();
        let last = dependencies.last();
        lemma_unresolved_after(front, done, c);
        assert(dependencies[dependencies.len() - 1] == last);
        assert(done.push(c).contains(last) <==> (done.contains(last) || last == c)) by {
            if done.contains(last) {
                let at = choose|at: int| 0 <= at < done.len() && done[at] == last;
                assert(done.push(c)[at] == last);
            }
            if last == c {
                assert(done.push(c)[done.len() as int] == c);
            }
        }
        if front.contains(c) {
            let at = choose|at: int| 0 <= at < front.len() && front[at] == c;
            assert(dependencies[at] == c);
            assert(last != c);
        }
        if dependencies.contains(c) && last != c {
            let at = choose|at: int| 0 <= at < dependencies.len() && dependencies[at] == c;
            assert(front[at] == c);
        }
    }
}

/// The state of the scheduler.
pub struct Scheduler {
    dependents: Vec<Vec<usize>>,
    pending_dependencies: Vec<usize>,
    completed_streams: usize,
}

impl Scheduler {
    /// For each stream, how many of its dependencies are not done.
    pub closed spec fn pending(&self) -> Seq<usize> {
        self.pending_dependencies@
    }

    /// For each stream, the streams that depend on it.
    pub closed spec fn dependents(&self) -> Seq<Seq<usize>> {
        Seq::new(self.dependents@.len(), |d: int| self.dependents@[d]@)
    }

    /// How many streams are done.
    pub closed spec fn completed(&self) -> nat {
        self.completed_streams as nat
    }

    /// The number of streams.
    pub open spec fn len(&self) -> nat {
        self.pending().len()
    }

    /// What holds of a scheduler at all times.
    pub open spec fn wf(&self) -> bool {
        &&& self.dependents().len() == self.len()
        &&& self.completed() <= self.len()
        &&& forall|d: int|
            0 <= d < self.len() ==> {
                &&& (#[trigger] self.dependents()[d]).no_duplicates()
                &&& forall|k: int|
                    0 <= k < self.dependents()[d].len() ==> (#[trigger] self.dependents()[d][k])
                        < self.len()
            }
    }

    /// Whether the scheduler stands where the streams of `done` are done, in
    /// that order, and no others.
    pub open spec fn tracks(&self, streams: Seq<Stream>, done: Seq<usize>) -> bool {
        &&& self.wf()
        &&& self.len() == streams.len()
        &&& self.completed() == done.len()
        &&& forall|d: int|
            0 <= d < streams.len() ==> lists_dependents(
                #[trigger] self.dependents()[d],
                streams,
                d,
                streams.len() as int,
                0,
            )
        &&& forall|u: int|
            0 <= u < streams.len() ==> (#[trigger] self.pending()[u]) == unresolved(
                streams[u].dependencies@,
                done,
            )
    }

    /// Whether the completion of stream `c` can be taken in: it is a stream,
    /// not all are done, and every stream that depends on it still waits.
    pub open spec fn can_retire(&self, c: usize) -> bool {
        &&& c < self.len()
        &&& self.completed() < self.len()
        &&& forall|k: int|
            0 <= k < self.dependents()[c as int].len() ==> self.pending()[(
            #[trigger] self.dependents()[c as int][k]) as int] > 0
    }

    /// Whether `after` is this scheduler once the completion of stream `c`
    /// is taken in.
    pub open spec fn retires(&self, c: usize, after: Scheduler) -> bool {
        &&& after.dependents() == self.dependents()
        &&& after.completed() == self.completed() + 1
        &&& after.len() == self.len()
        &&& forall|u: usize|
            u < self.len() ==> (#[trigger] after.pending()[u as int]) == if self.dependents()[c as int].contains(
                u,
            ) {
                self.pending()[u as int] - 1
            } else {
                self.pending()[u as int] as int
            }
    }

    /// Whether the completion of `stream` can be taken in.
    pub fn accepts(&self, stream: usize) -> (fine: bool)
        requires
            self.wf(),
        ensures
            fine == self.can_retire(stream),
    {
        if stream >= self.pending_dependencies.len() || self.completed_streams
            >= self.pending_dependencies.len() {
            return false;
        }
        let ghost list = self.dependents()[stream as int];
        assert(list == self.dependents@[stream as int]@);
        let mut k: usize = 0;
        while k < self.dependents[stream].len()
            invariant
                self.wf(),
                stream < self.len(),
                list == self.dependents()[stream as int],
                list == self.dependents@[stream as int]@,
                k <= list.len(),
                forall|m: int| 0 <= m < k ==> self.pending()[(#[trigger] list[m]) as int] > 0,
            decreases list.len() - k,
        {
            let dependent = self.dependents[stream][k];
            assert(list[k as int] < self.len());
            if self.pending_dependencies[dependent] == 0 {
                return false;
            }
            k += 1;
        }
        true
    }

    /// How many streams are done.
    pub fn completed_streams(&self) -> (count: usize)
        ensures
            count == self.completed(),
    {
        self.completed_streams
    }

    /// A scheduler for these streams, with none of them done. The streams
    /// that depend on nothing go on the dispatch queue at once, in ascending
    /// order.
    pub fn new(streams: &[Stream], dispatch_queue: &mut VecDeque<usize>) -> (scheduler: Self)
        requires
            schedulable(streams@),
        ensures
            scheduler.tracks(streams@, Seq::empty()),
            final(dispatch_queue)@ == old(dispatch_queue)@ + sources(
                streams@,
                streams@.len() as int,
            ),
    {
        let n = streams.len();
        let mut pending_dependencies: Vec<usize> = Vec::new();
        let mut dependents: Vec<Vec<usize>> = Vec::new();
        let mut u: usize = 0;
        while u < n
            invariant
                u <= n,
                n == streams@.len(),
                pending_dependencies@.len() == u,
                dependents@.len() == u,
                forall|v: int|
                    0 <= v < u ==> (#[trigger] pending_dependencies@[v]) == unresolved(
                        streams@[v].dependencies@,
                        Seq::empty(),
                    ),
                forall|d: int| 0 <= d < u ==> (#[trigger] dependents@[d])@.len() == 0,
            decreases n - u,
        {
            proof {
                lemma_unresolved_at_start(streams@[u as int].dependencies@);
            }
            pending_dependencies.push(streams[u].dependencies.len());
            dependents.push(Vec::new());
            u += 1;
        }
        let mut u: usize = 0;
        while u < n
            invariant
                u <= n,
                n == streams@.len(),
                schedulable(streams@),
                dependents@.len() == n,
                forall|d: int|
                    0 <= d < n ==> lists_dependents(
                        (#[trigger] dependents@[d])@,
                        streams@,
                        d,
                        u as int,
                        0,
                    ),
            decreases n - u,
        {
            let mut k: usize = 0;
            while k < streams[u].dependencies.len()
                invariant
                    u < n,
                    n == streams@.len(),
                    schedulable(streams@),
                    k <= streams@[u as int].dependencies@.len(),
                    dependents@.len() == n,
                    forall|d: int|
                        0 <= d < n ==> lists_dependents(
                            (#[trigger] dependents@[d])@,
                            streams@,
                            d,
                            u as int,
                            k as int,
                        ),
                decreases streams@[u as int].dependencies@.len() - k,
            {
                let dependency = streams[u].dependencies[k];
                let ghost before = dependents@;
                let ghost list = streams@[u as int].dependencies@;
                assert(list[k as int] < u);
                assert(lists_dependents(
                    before[dependency as int]@,
                    streams@,
                    dependency as int,
                    u as int,
                    k as int,
                ));
                push_dependent(&mut dependents, dependency, u);
                assert forall|d: int| 0 <= d < n implies lists_dependents(
                    (#[trigger] dependents@[d])@,
                    streams@,
                    d,
                    u as int,
                    k + 1,
                ) by {
                    let old_list = before[d]@;
                    let new_list = dependents@[d]@;
                    assert(lists_dependents(old_list, streams@, d, u as int, k as int));
                    lemma_take_next(list, k as int, d as usize);
                    if d == dependency {
                        lemma_not_before(list, k as int);
                        assert(!old_list.contains(u));
                        assert(new_list == old_list.push(u));
                        assert forall|a: int, b: int| 0 <= a < b < new_list.len() implies new_list[a]
                            < new_list[b] by {
                            assert(old_list.contains(old_list[a]));
                        }
                        assert forall|v: usize| #[trigger]
                            new_list.contains(v) <==> ((v < u && v < streams@.len()
                                && streams@[v as int].dependencies@.contains(d as usize)) || (v == u
                                && v < streams@.len() && streams@[v as int].dependencies@.take(
                                k + 1,
                            ).contains(d as usize))) by {
                            if new_list.contains(v) {
                                let at = choose|at: int|
                                    0 <= at < new_list.len() && new_list[at] == v;
                                if at < old_list.len() {
                                    assert(old_list.contains(v));
                                }
                            }
                            if old_list.contains(v) {
                                let at = choose|at: int|
                                    0 <= at < old_list.len() && old_list[at] == v;
                                assert(new_list[at] == v);
                            }
                            if v == u {
                                assert(new_list[old_list.len() as int] == v);
                            }
                        }
                    }
                }
                k += 1;
            }
            proof {
                let list = streams@[u as int].dependencies@;
                assert(list.take(list.len() as int) == list);
                assert forall|d: int| 0 <= d < n implies lists_dependents(
                    (#[trigger] dependents@[d])@,
                    streams@,
                    d,
                    u + 1,
                    0,
                ) by {
                    assert(lists_dependents(dependents@[d]@, streams@, d, u as int, k as int));
                    assert forall|v: usize|
                        v == u + 1 && v < streams@.len() implies !streams@[v as int].dependencies@.take(
                        0,
                    ).contains(d as usize) by {}
                }
            }
            u += 1;
        }
        let scheduler = Scheduler { dependents, pending_dependencies, completed_streams: 0 };
        proof {
            assert forall|d: int| 0 <= d < n implies lists_dependents(
                #[trigger] scheduler.dependents()[d],
                streams@,
                d,
                n as int,
                0,
            ) && scheduler.dependents()[d].no_duplicates() && (forall|k: int|
                0 <= k < scheduler.dependents()[d].len() ==> (#[trigger] scheduler.dependents()[d][k])
                    < n) by {
                let list = scheduler.dependents()[d];
                assert(list == dependents@[d]@);
                assert(lists_dependents(list, streams@, d, n as int, 0));
                assert forall|a: int, b: int|
                    0 <= a < list.len() && 0 <= b < list.len() && a != b implies list[a]
                    != list[b] by {
                    if a < b {
                        assert(list[a] < list[b]);
                    } else {
                        assert(list[b] < list[a]);
                    }
                }
                assert forall|k: int| 0 <= k < list.len() implies (#[trigger] list[k]) < n by {
                    assert(list.contains(list[k]));
                }
            }
            lemma_sources(streams@, scheduler.pending(), n as int);
        }
        scheduler.dispatch_idle(dispatch_queue);
        scheduler
    }

    /// Puts `stream` on the dispatch queue if it waits for nothing.
    pub fn maybe_dispatch(&self, stream: usize, dispatch_queue: &mut VecDeque<usize>)
        requires
            stream < self.len(),
        ensures
            final(dispatch_queue)@ == if self.pending()[stream as int] == 0 {
                old(dispatch_queue)@.push(stream)
            } else {
                old(dispatch_queue)@
            },
    {
        let pending_dependencies = self.pending_dependencies[stream];
        if pending_dependencies == 0 {
            dispatch_queue.push_back(stream);
        }
    }

    /// Dispatches all streams that wait for nothing, in ascending order.
    fn dispatch_idle(&self, dispatch_queue: &mut VecDeque<usize>)
        ensures
            final(dispatch_queue)@ == old(dispatch_queue)@ + idle(
                self.pending(),
                self.len() as int,
            ),
    {
        let mut stream: usize = 0;
        while stream < self.pending_dependencies.len()
            invariant
                stream <= self.len(),
                dispatch_queue@ == old(dispatch_queue)@ + idle(self.pending(), stream as int),
            decreases self.len() - stream,
        {
            self.maybe_dispatch(stream, dispatch_queue);
            stream += 1;
        }
    }

    /// Takes one completion from the completion queue, if there is one:
    /// counts it, lowers the count of every stream that depends on the
    /// completed one, and dispatches those whose count falls to zero. When
    /// all streams are done it dispatches the stop token and returns false.
    pub fn step(
        &mut self,
        completion_queue: &mut VecDeque<usize>,
        dispatch_queue: &mut VecDeque<usize>,
    ) -> (more: bool)
        requires
            old(self).wf(),
            old(completion_queue)@.len() > 0 ==> old(self).can_retire(old(completion_queue)@[0]),
        ensures
            final(self).wf(),
            more == (final(self).completed() != final(self).len()),
            old(completion_queue)@.len() == 0 ==> {
                &&& final(completion_queue)@ == old(completion_queue)@
                &&& final(self).pending() == old(self).pending()
                &&& final(self).dependents() == old(self).dependents()
                &&& final(self).completed() == old(self).completed()
                &&& final(dispatch_queue)@ == if more {
                    old(dispatch_queue)@
                } else {
                    old(dispatch_queue)@.push(STOP)
                }
            },
            old(completion_queue)@.len() > 0 ==> {
                &&& final(completion_queue)@ == old(completion_queue)@.skip(1)
                &&& old(self).retires(old(completion_queue)@[0], *final(self))
                &&& final(dispatch_queue)@ == if more {
                    old(dispatch_queue)@ + released(
                        old(self).dependents()[old(completion_queue)@[0] as int],
                        old(self).pending(),
                    )
                } else {
                    (old(dispatch_queue)@ + released(
                        old(self).dependents()[old(completion_queue)@[0] as int],
                        old(self).pending(),
                    )).push(STOP)
                }
            },
    {
        let n = self.pending_dependencies.len();
        let stream = completion_queue.pop_front();
        if let Some(stream) = stream {
            self.completed_streams += 1;
            let ghost list = old(self).dependents()[stream as int];
            let ghost before = old(self).pending();
            assert(list == self.dependents@[stream as int]@);
            let mut k: usize = 0;
            while k < self.dependents[stream].len()
                invariant
                    old(self).wf(),
                    old(self).can_retire(stream),
                    self.dependents == old(self).dependents,
                    list == old(self).dependents()[stream as int],
                    list == self.dependents@[stream as int]@,
                    before == old(self).pending(),
                    self.completed_streams == old(self).completed_streams + 1,
                    k <= list.len(),
                    self.pending_dependencies@.len() == before.len(),
                    forall|u: usize|
                        u < before.len() ==> (#[trigger] self.pending_dependencies@[u as int])
                            == if list.take(k as int).contains(u) {
                            before[u as int] - 1
                        } else {
                            before[u as int] as int
                        },
                    dispatch_queue@ == old(dispatch_queue)@ + released(list.take(k as int), before),
                decreases list.len() - k,
            {
                let dependent = self.dependents[stream][k];
                proof {
                    assert(list[k as int] == dependent);
                    assert(dependent < before.len());
                    assert(before[dependent as int] > 0);
                    lemma_not_before(list, k as int);
                    lemma_take_next(list, k as int, dependent);
                    assert(list.take(k + 1).drop_last() == list.take(k as int));
                    assert(list.take(k + 1).last() == dependent);
                }
                let count = self.pending_dependencies[dependent] - 1;
                self.pending_dependencies.set(dependent, count);
                self.maybe_dispatch(dependent, dispatch_queue);
                proof {
                    assert forall|u: usize| u < before.len() implies (
                    #[trigger] self.pending_dependencies@[u as int]) == if list.take(
                        k + 1,
                    ).contains(u) {
                        before[u as int] - 1
                    } else {
                        before[u as int] as int
                    } by {
                        lemma_take_next(list, k as int, u);
                    }
                }
                k += 1;
            }
            assert(list.take(k as int) == list);
            assert(self.dependents() == old(self).dependents());
        }
        if self.completed_streams == self.dependents.len() {
            dispatch_queue.push_back(STOP);
            false
        } else {
            true
        }
    }
}

/// Whether no entry of `list` occurs twice and all are below `bound`.
fn distinct_below(list: &Vec<usize>, bound: usize) -> (fine: bool)
    ensures
        fine == (list@.no_duplicates() && forall|k: int|
            0 <= k < list@.len() ==> (#[trigger] list@[k]) < bound),
{
    let mut k: usize = 0;
    while k < list.len()
        invariant
            k <= list@.len(),
            forall|a: int, b: int| 0 <= a < k && 0 <= b < a ==> list@[a] != list@[b],
            forall|m: int| 0 <= m < k ==> (#[trigger] list@[m]) < bound,
        decreases list@.len() - k,
    {
        if list[k] >= bound {
            return false;
        }
        let mut m: usize = 0;
        while m < k
            invariant
                m <= k < list@.len(),
                forall|b: int| 0 <= b < m ==> list@[k as int] != list@[b],
            decreases k - m,
        {
            if list[m] == list[k] {
                return false;
            }
            m += 1;
        }
        k += 1;
    }
    assert forall|a: int, b: int|
        0 <= a < list@.len() && 0 <= b < list@.len() && a != b implies list@[a] != list@[b] by {
        if a < b {
            assert(list@[b] != list@[a]);
        }
    }
    true
}

/// Whether every stream names each of its dependencies once and depends on
/// streams with a smaller number only.
pub fn is_schedulable(streams: &[Stream]) -> (fine: bool)
    ensures
        fine == schedulable(streams@),
{
    let mut u: usize = 0;
    while u < streams.len()
        invariant
            u <= streams@.len(),
            forall|v: int|
                0 <= v < u ==> {
                    &&& (#[trigger] streams@[v]).dependencies@.no_duplicates()
                    &&& forall|k: int|
                        0 <= k < streams@[v].dependencies@.len() ==> (
                        #[trigger] streams@[v].dependencies@[k]) < v
                },
        decreases streams@.len() - u,
    {
        if !distinct_below(&streams[u].dependencies, u) {
            return false;
        }
        u += 1;
    }
    true
}

/// Adds stream `u` to the streams that depend on stream `d`.
fn push_dependent(dependents: &mut Vec<Vec<usize>>, d: usize, u: usize)
    requires
        d < old(dependents)@.len(),
    ensures
        final(dependents)@.len() == old(dependents)@.len(),
        final(dependents)@[d as int]@ == old(dependents)@[d as int]@.push(u),
        forall|t: int|
            0 <= t < old(dependents)@.len() && t != d ==> final(dependents)@[t] == old(
                dependents,
            )@[t],
{
    let list = &mut dependents[d];
    list.push(u);
}

} // verus!
