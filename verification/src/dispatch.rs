//! The order in which the scheduler dispatches the streams.
//!
//! First come the streams that depend on nothing, in ascending order. Then,
//! for each stream that is done, in the order in which the streams were
//! dispatched, the streams that it sets free, in ascending order. This is
//! the order in which one execution unit runs the streams. It is a valid
//! schedule, and it leaves no stream out.

use crate::handlers::all_below;
use crate::schedule::{below, complete_schedule, lemma_below, lemma_full_range, valid_schedule};
use crate::scheduler::{
    idle, lemma_sources, lemma_unresolved_after, lemma_unresolved_at_start,
    lemma_unresolved_none, lists_dependents, released, schedulable, sources, unresolved,
    Scheduler,
};
use crate::sequences::lemma_push_contains;
use crate::streams::{strictly_ascending, Stream};
use vstd::prelude::*;

verus! {

/// The streams below `upto`, in ascending order, that the completion of
/// stream `c` sets free once the streams of `done` are done: those that
/// depend on `c` and on no other stream that is not done.
pub open spec fn freed(streams: Seq<Stream>, done: Seq<usize>, c: usize, upto: int) -> Seq<usize>
    decreases upto,
{
    if upto <= 0 {
        Seq::empty()
    } else if streams[upto - 1].dependencies@.contains(c) && unresolved(
        streams[upto - 1].dependencies@,
        done,
    ) == 1 {
        freed(streams, done, c, upto - 1).push((upto - 1) as usize)
    } else {
        freed(streams, done, c, upto - 1)
    }
}

/// The streams in the order in which they are dispatched, as far as that is
/// settled when the first `k` of them are done: first the streams that
/// depend on nothing, then, for each stream that is done, in the order in
/// which they were dispatched, the streams that it sets free.
pub open spec fn dispatched(streams: Seq<Stream>, k: nat) -> Seq<usize>
    decreases k,
{
    if k == 0 {
        sources(streams, streams.len() as int)
    } else {
        let before = dispatched(streams, (k - 1) as nat);
        if k - 1 < before.len() {
            before + freed(streams, before.take(k - 1), before[k - 1], streams.len() as int)
        } else {
            before
        }
    }
}

/// The order in which the pipeline runs the streams: the order in which
/// they are dispatched.
pub open spec fn pipeline_order(streams: Seq<Stream>) -> Seq<usize> {
    dispatched(streams, streams.len())
}

/// Whether `queue` holds, each once, the streams that have not run and
/// wait for nothing, given the streams `order` that have run and the streams
/// `done` that the scheduler knows to be done.
pub open spec fn holds_ready(
    queue: Seq<usize>,
    streams: Seq<Stream>,
    order: Seq<usize>,
    done: Seq<usize>,
) -> bool {
    &&& queue.no_duplicates()
    &&& all_below(queue, streams.len())
    &&& forall|u: usize|
        u < streams.len() ==> (#[trigger] queue.contains(u) <==> (!order.contains(u) && unresolved(
            streams[u as int].dependencies@,
            done,
        ) == 0))
}

/// What `idle` holds: each once, the streams that wait for nothing.
pub proof fn lemma_idle(pending: Seq<usize>, upto: int)
    requires
        0 <= upto <= pending.len(),
        upto <= usize::MAX,
    ensures
        forall|u: usize| #[trigger]
            idle(pending, upto).contains(u) <==> (u < upto && pending[u as int] == 0),
        idle(pending, upto).no_duplicates(),
    decreases upto,
{
    if upto > 0 {
        let found = idle(pending, upto - 1);
        let last = (upto - 1) as usize;
        lemma_idle(pending, upto - 1);
        assert forall|u: usize| #[trigger]
            idle(pending, upto).contains(u) <==> (u < upto && pending[u as int] == 0) by {
            lemma_push_contains(found, last, u);
        }
        assert(!found.contains(last));
    }
}

/// What `released` holds: the dependents that stand at one.
pub proof fn lemma_released(dependents: Seq<usize>, pending: Seq<usize>)
    ensures
        forall|u: usize| #[trigger]
            released(dependents, pending).contains(u) <==> (dependents.contains(u)
                && pending[u as int] == 1),
        dependents.no_duplicates() ==> released(dependents, pending).no_duplicates(),
    decreases dependents.len(),
{
    if dependents.len() > 0 {
        let front = dependents.drop_last();
        let last = dependents.last();
        let found = released(front, pending);
        lemma_released(front, pending);
        assert(dependents == front.push(last));
        assert forall|u: usize| #[trigger]
            released(dependents, pending).contains(u) <==> (dependents.contains(u)
                && pending[u as int] == 1) by {
            lemma_push_contains(front, last, u);
            lemma_push_contains(found, last, u);
        }
        if dependents.no_duplicates() {
            assert(front.no_duplicates());
            if front.contains(last) {
                let at = choose|at: int| 0 <= at < front.len() && front[at] == last;
                assert(dependents[at] == dependents[dependents.len() - 1]);
            }
            assert(!found.contains(last));
        }
    }
}

/// What `released` holds is in ascending order if the dependents are.
pub proof fn lemma_released_ascending(dependents: Seq<usize>, pending: Seq<usize>)
    requires
        strictly_ascending(dependents),
    ensures
        strictly_ascending(released(dependents, pending)),
    decreases dependents.len(),
{
    if dependents.len() > 0 {
        let front = dependents.drop_last();
        let found = released(front, pending);
        lemma_released_ascending(front, pending);
        lemma_released(front, pending);
        let all = released(dependents, pending);
        assert forall|a: int, b: int| 0 <= a < b < all.len() implies all[a] < all[b] by {
            if b == found.len() {
                assert(found.contains(found[a]));
                assert(front.contains(found[a]));
                let at = choose|at: int| 0 <= at < front.len() && front[at] == found[a];
                assert(dependents[at] < dependents[dependents.len() - 1]);
            }
        }
    }
}

/// What `freed` holds, and that it is in ascending order.
pub proof fn lemma_freed(streams: Seq<Stream>, done: Seq<usize>, c: usize, upto: int)
    requires
        0 <= upto <= streams.len() <= usize::MAX,
    ensures
        strictly_ascending(freed(streams, done, c, upto)),
        forall|u: usize| #[trigger]
            freed(streams, done, c, upto).contains(u) <==> (u < upto
                && streams[u as int].dependencies@.contains(c) && unresolved(
                streams[u as int].dependencies@,
                done,
            ) == 1),
    decreases upto,
{
    if upto > 0 {
        let found = freed(streams, done, c, upto - 1);
        let last = (upto - 1) as usize;
        lemma_freed(streams, done, c, upto - 1);
        assert forall|u: usize| #[trigger]
            freed(streams, done, c, upto).contains(u) <==> (u < upto
                && streams[u as int].dependencies@.contains(c) && unresolved(
                streams[u as int].dependencies@,
                done,
            ) == 1) by {
            lemma_push_contains(found, last, u);
        }
        let all = freed(streams, done, c, upto);
        assert forall|a: int, b: int| 0 <= a < b < all.len() implies all[a] < all[b] by {
            if b == found.len() {
                assert(found.contains(found[a]));
            }
        }
    }
}

/// Two ascending lists that hold the same numbers are the same list.
pub proof fn lemma_ascending_unique(a: Seq<usize>, b: Seq<usize>)
    requires
        strictly_ascending(a),
        strictly_ascending(b),
        forall|x: usize| a.contains(x) <==> b.contains(x),
    ensures
        a == b,
    decreases a.len(),
{
    if a.len() == 0 {
        if b.len() > 0 {
            assert(b.contains(b[0]));
        }
        assert(a =~= b);
    } else {
        assert(a.contains(a.last()));
        assert(b.contains(a.last()));
        assert(b.len() > 0);
        assert(b.contains(b.last()));
        assert(a.contains(b.last()));
        let in_b = choose|m: int| 0 <= m < b.len() && b[m] == a.last();
        let in_a = choose|m: int| 0 <= m < a.len() && a[m] == b.last();
        assert(a.last() == b.last()) by {
            if in_b < b.len() - 1 {
                assert(b[in_b] < b[b.len() - 1]);
            }
            if in_a < a.len() - 1 {
                assert(a[in_a] < a[a.len() - 1]);
            }
        }
        let front_a = a.drop_last();
        let front_b = b.drop_last();
        assert forall|x: usize| front_a.contains(x) <==> front_b.contains(x) by {
            if front_a.contains(x) {
                let m = choose|m: int| 0 <= m < front_a.len() && front_a[m] == x;
                assert(a[m] < a[a.len() - 1]);
                assert(a.contains(x));
                let w = choose|w: int| 0 <= w < b.len() && b[w] == x;
                assert(front_b[w] == x);
            }
            if front_b.contains(x) {
                let m = choose|m: int| 0 <= m < front_b.len() && front_b[m] == x;
                assert(b[m] < b[b.len() - 1]);
                assert(b.contains(x));
                let w = choose|w: int| 0 <= w < a.len() && a[w] == x;
                assert(front_a[w] == x);
            }
        }
        lemma_ascending_unique(front_a, front_b);
        assert(a =~= front_a.push(a.last()));
        assert(b =~= front_b.push(b.last()));
    }
}

/// What the scheduler releases when it takes a completion in is what the
/// completion sets free.
pub proof fn lemma_released_is_freed(
    scheduler: Scheduler,
    streams: Seq<Stream>,
    done: Seq<usize>,
    c: usize,
)
    requires
        scheduler.tracks(streams, done),
        c < streams.len() <= usize::MAX,
    ensures
        released(scheduler.dependents()[c as int], scheduler.pending()) == freed(
            streams,
            done,
            c,
            streams.len() as int,
        ),
{
    let list = scheduler.dependents()[c as int];
    let pending = scheduler.pending();
    assert(lists_dependents(list, streams, c as int, streams.len() as int, 0));
    lemma_released(list, pending);
    lemma_released_ascending(list, pending);
    lemma_freed(streams, done, c, streams.len() as int);
    let a = released(list, pending);
    let b = freed(streams, done, c, streams.len() as int);
    assert forall|x: usize| a.contains(x) <==> b.contains(x) by {
        if a.contains(x) {
            assert(list.contains(x));
            assert(pending[x as int] == unresolved(streams[x as int].dependencies@, done));
        }
        if b.contains(x) {
            assert(list.contains(x));
            assert(pending[x as int] == unresolved(streams[x as int].dependencies@, done));
        }
    }
    lemma_ascending_unique(a, b);
}

/// What is dispatched stays dispatched, in its place.
pub proof fn lemma_dispatched_grows(streams: Seq<Stream>, j: nat, k: nat)
    requires
        j <= k,
    ensures
        dispatched(streams, j).len() <= dispatched(streams, k).len(),
        dispatched(streams, k).take(dispatched(streams, j).len() as int) == dispatched(
            streams,
            j,
        ),
    decreases k - j,
{
    if j < k {
        lemma_dispatched_grows(streams, j, (k - 1) as nat);
        let before = dispatched(streams, (k - 1) as nat);
        let all = dispatched(streams, k);
        let first = dispatched(streams, j);
        assert(all.take(before.len() as int) =~= before);
        assert(all.take(first.len() as int) =~= before.take(first.len() as int));
    } else {
        assert(dispatched(streams, k).take(dispatched(streams, j).len() as int) =~= dispatched(
            streams,
            j,
        ));
    }
}

/// Below a stream that has not run there is a least one that has not run.
pub proof fn lemma_least_missing(order: Seq<usize>, candidate: usize) -> (u: usize)
    requires
        !order.contains(candidate),
    ensures
        u <= candidate,
        !order.contains(u),
        forall|v: usize| v < u ==> order.contains(v),
    decreases candidate,
{
    if exists|v: usize| v < candidate && !order.contains(v) {
        let v = choose|v: usize| v < candidate && !order.contains(v);
        lemma_least_missing(order, v)
    } else {
        candidate
    }
}

/// Fewer than `n` streams leave one of the first `n` out.
pub proof fn lemma_one_missing(order: Seq<usize>, n: nat) -> (u: usize)
    requires
        order.len() < n <= usize::MAX,
    ensures
        u < n,
        !order.contains(u),
{
    if forall|v: usize| v < n ==> order.contains(v) {
        lemma_below(n);
        assert(below(n).subset_of(order.to_set()));
        order.lemma_cardinality_of_set();
        vstd::seq_lib::seq_to_set_is_finite(order);
        vstd::set_lib::lemma_len_subset(below(n), order.to_set());
        0
    } else {
        choose|v: usize| v < n && !order.contains(v)
    }
}

/// A stream has no more dependencies than there are streams before it.
proof fn lemma_short_dependencies(streams: Seq<Stream>, u: int)
    requires
        schedulable(streams),
        0 <= u < streams.len() <= usize::MAX,
    ensures
        streams[u].dependencies@.len() <= u,
{
    let needs = streams[u].dependencies@;
    needs.unique_seq_to_set();
    lemma_below(u as nat);
    assert(needs.to_set().subset_of(below(u as nat))) by {
        assert forall|x: usize| needs.to_set().contains(x) implies below(
            u as nat,
        ).contains(x) by {
            let m = choose|m: int| 0 <= m < needs.len() && needs[m] == x;
            assert(streams[u].dependencies@[m] < u);
        }
    }
    vstd::set_lib::lemma_len_subset(needs.to_set(), below(u as nat));
}

/// A stream that is not done and whose completion comes in can be taken in.
pub proof fn lemma_can_retire(scheduler: Scheduler, streams: Seq<Stream>, done: Seq<usize>, c: usize)
    requires
        schedulable(streams),
        scheduler.tracks(streams, done),
        c < streams.len(),
        done.len() < streams.len(),
        !done.contains(c),
    ensures
        scheduler.can_retire(c),
{
    let list = scheduler.dependents()[c as int];
    assert(lists_dependents(list, streams, c as int, streams.len() as int, 0));
    assert forall|k: int| 0 <= k < list.len() implies scheduler.pending()[(#[trigger] list[k]) as int]
        > 0 by {
        let u = list[k];
        assert(list.contains(u));
        assert(streams[u as int].dependencies@.contains(c));
        lemma_unresolved_after(streams[u as int].dependencies@, done, c);
    }
}

/// Once a completion is taken in, the scheduler stands where one more
/// stream is done.
pub proof fn lemma_retired(
    before: Scheduler,
    after: Scheduler,
    streams: Seq<Stream>,
    done: Seq<usize>,
    c: usize,
)
    requires
        schedulable(streams),
        before.tracks(streams, done),
        before.retires(c, after),
        after.wf(),
        c < streams.len() <= usize::MAX,
        !done.contains(c),
    ensures
        after.tracks(streams, done.push(c)),
{
    let list = before.dependents()[c as int];
    assert(lists_dependents(list, streams, c as int, streams.len() as int, 0));
    assert forall|u: int| 0 <= u < streams.len() implies (#[trigger] after.pending()[u])
        == unresolved(streams[u].dependencies@, done.push(c)) by {
        assert(after.pending()[u as usize as int] == after.pending()[u]);
        assert(list.contains(u as usize) <==> streams[u].dependencies@.contains(c));
        lemma_unresolved_after(streams[u].dependencies@, done, c);
    }
}

/// In a valid schedule every stream comes after the streams it depends on.
pub proof fn lemma_ran_after_needs(streams: Seq<Stream>, order: Seq<usize>, at: int)
    requires
        valid_schedule(streams, order),
        0 <= at < order.len(),
    ensures
        forall|d: usize|
            streams[order[at] as int].dependencies@.contains(d) ==> #[trigger] order.take(
                at,
            ).contains(d),
{
    let needs = streams[order[at] as int].dependencies@;
    assert forall|d: usize| needs.contains(d) implies #[trigger] order.take(at).contains(d) by {
        let k = choose|k: int| 0 <= k < needs.len() && needs[k] == d;
        assert(order.take(at).contains(streams[order[at] as int].dependencies@[k]));
    }
}

/// While streams are left to run, one of them is ready.
pub proof fn lemma_progress(streams: Seq<Stream>, order: Seq<usize>, queue: Seq<usize>)
    requires
        schedulable(streams),
        order.len() < streams.len() <= usize::MAX,
        holds_ready(queue, streams, order, order),
    ensures
        queue.len() > 0,
{
    let missing = lemma_one_missing(order, streams.len());
    let u = lemma_least_missing(order, missing);
    let needs = streams[u as int].dependencies@;
    assert forall|k: int| 0 <= k < needs.len() implies order.contains(#[trigger] needs[k]) by {
        assert(streams[u as int].dependencies@[k] < u);
    }
    lemma_unresolved_none(needs, order);
    assert(queue.contains(u));
}

/// When all streams have run, none is left on the queue.
pub proof fn lemma_all_ran(streams: Seq<Stream>, order: Seq<usize>, queue: Seq<usize>)
    requires
        valid_schedule(streams, order),
        order.len() == streams.len() <= usize::MAX,
        holds_ready(queue, streams, order, order),
    ensures
        queue.len() == 0,
{
    lemma_full_range(order, streams.len());
    if queue.len() > 0 {
        assert(queue[0] < streams.len());
        assert(queue.contains(queue[0]));
    }
}

/// A schedule stays valid when a ready stream is run next, and the queue
/// without that stream holds the streams that are ready then.
pub proof fn lemma_run_next(streams: Seq<Stream>, order: Seq<usize>, queue: Seq<usize>)
    requires
        valid_schedule(streams, order),
        holds_ready(queue, streams, order, order),
        queue.len() > 0,
    ensures
        valid_schedule(streams, order.push(queue[0])),
        holds_ready(queue.skip(1), streams, order.push(queue[0]), order),
{
    let u = queue[0];
    let next = order.push(u);
    let rest = queue.skip(1);
    let needs = streams[u as int].dependencies@;
    assert(queue.contains(u));
    assert(u < streams.len());
    lemma_unresolved_none(needs, order);
    assert forall|a: int, b: int| 0 <= a < next.len() && 0 <= b < next.len() && a != b implies next[a]
        != next[b] by {
        if a == order.len() {
            assert(order.contains(next[b]));
        } else if b == order.len() {
            assert(order.contains(next[a]));
        }
    }
    assert forall|p: int, k: int|
        0 <= p < next.len() && 0 <= k < streams[next[p] as int].dependencies@.len() implies next.take(
        p,
    ).contains(#[trigger] streams[next[p] as int].dependencies@[k]) by {
        if p < order.len() {
            assert(next[p] == order[p]);
            assert(order.take(p).contains(streams[order[p] as int].dependencies@[k]));
            assert(next.take(p) == order.take(p));
        } else {
            assert(next.take(p) == order);
            assert(order.contains(needs[k]));
        }
    }
    assert forall|v: usize| v < streams.len() implies (#[trigger] rest.contains(v) <==> (
    !next.contains(v) && unresolved(streams[v as int].dependencies@, order) == 0)) by {
        lemma_push_contains(order, u, v);
        if rest.contains(v) {
            let at = choose|at: int| 0 <= at < rest.len() && rest[at] == v;
            assert(queue[at + 1] == v);
            assert(queue.contains(v));
        }
        if queue.contains(v) && v != u {
            let at = choose|at: int| 0 <= at < queue.len() && queue[at] == v;
            assert(rest[at - 1] == v);
        }
    }
    assert forall|k: int| 0 <= k < rest.len() implies (#[trigger] rest[k]) < streams.len() by {
        assert(queue[k + 1] < streams.len());
    }
}

/// With what a completion sets free behind it, the queue holds the streams
/// that are ready once the completion is taken in.
pub proof fn lemma_freed_keeps_ready(
    streams: Seq<Stream>,
    done: Seq<usize>,
    c: usize,
    queue: Seq<usize>,
)
    requires
        schedulable(streams),
        streams.len() <= usize::MAX,
        valid_schedule(streams, done.push(c)),
        holds_ready(queue, streams, done.push(c), done),
    ensures
        holds_ready(
            queue + freed(streams, done, c, streams.len() as int),
            streams,
            done.push(c),
            done.push(c),
        ),
{
    let n = streams.len();
    let order = done.push(c);
    let more = freed(streams, done, c, n as int);
    let next = queue + more;
    lemma_freed(streams, done, c, n as int);
    assert(order[done.len() as int] == c);
    assert(!done.contains(c)) by {
        if done.contains(c) {
            let at = choose|at: int| 0 <= at < done.len() && done[at] == c;
            assert(order[at] == order[done.len() as int]);
        }
    }
    assert forall|u: usize| u < n implies (#[trigger] next.contains(u) <==> (!order.contains(u)
        && unresolved(streams[u as int].dependencies@, order) == 0)) by {
        let needs = streams[u as int].dependencies@;
        lemma_unresolved_after(needs, done, c);
        lemma_push_contains(done, c, u);
        assert(next.contains(u) <==> (queue.contains(u) || more.contains(u))) by {
            if queue.contains(u) {
                let at = choose|at: int| 0 <= at < queue.len() && queue[at] == u;
                assert(next[at] == u);
            }
            if more.contains(u) {
                let at = choose|at: int| 0 <= at < more.len() && more[at] == u;
                assert(next[queue.len() + at] == u);
            }
            if next.contains(u) {
                let at = choose|at: int| 0 <= at < next.len() && next[at] == u;
                if at < queue.len() {
                    assert(queue[at] == u);
                } else {
                    assert(more[at - queue.len()] == u);
                }
            }
        }
        if more.contains(u) {
            if order.contains(u) {
                let at = choose|at: int| 0 <= at < order.len() && order[at] == u;
                lemma_ran_after_needs(streams, order, at);
                assert(order.take(at).contains(c));
                let before_at = choose|x: int| 0 <= x < at && order.take(at)[x] == c;
                assert(order[before_at] == order[done.len() as int]);
            }
        }
    }
    assert forall|a: int, b: int| 0 <= a < next.len() && 0 <= b < next.len() && a != b implies next[a]
        != next[b] by {
        if a < queue.len() && b >= queue.len() {
            let u = queue[a];
            assert(queue.contains(u));
            if u == more[b - queue.len()] {
                assert(more.contains(u));
            }
        } else if b < queue.len() && a >= queue.len() {
            let u = queue[b];
            assert(queue.contains(u));
            if u == more[a - queue.len()] {
                assert(more.contains(u));
            }
        } else if a >= queue.len() {
            if a < b {
                assert(more[a - queue.len()] < more[b - queue.len()]);
            } else {
                assert(more[b - queue.len()] < more[a - queue.len()]);
            }
        }
    }
    assert forall|m: int| 0 <= m < next.len() implies (#[trigger] next[m]) < n by {
        if m >= queue.len() {
            assert(more.contains(more[m - queue.len()]));
        }
    }
}

/// As long as streams are left, one more is dispatched than is done, and
/// what is dispatched first is a valid schedule.
proof fn lemma_pipeline_prefix(streams: Seq<Stream>, k: nat)
    requires
        schedulable(streams),
        k <= streams.len() <= usize::MAX,
    ensures
        k <= dispatched(streams, k).len(),
        k == streams.len() ==> dispatched(streams, k).len() == k,
        valid_schedule(streams, dispatched(streams, k).take(k as int)),
        holds_ready(
            dispatched(streams, k).skip(k as int),
            streams,
            dispatched(streams, k).take(k as int),
            dispatched(streams, k).take(k as int),
        ),
    decreases k,
{
    let n = streams.len();
    let now = dispatched(streams, k);
    let empty = Seq::<usize>::empty();
    if k == 0 {
        let pending = Seq::new(n, |u: int| streams[u].dependencies@.len() as usize);
        assert forall|u: int| 0 <= u < n implies (#[trigger] pending[u]) == unresolved(
            streams[u].dependencies@,
            empty,
        ) by {
            lemma_unresolved_at_start(streams[u].dependencies@);
            assert(streams[u].dependencies@.len() <= u) by {
                lemma_short_dependencies(streams, u);
            }
        }
        lemma_sources(streams, pending, n as int);
        lemma_idle(pending, n as int);
        assert(now == idle(pending, n as int));
        assert(now.take(0) =~= empty);
        assert(now.skip(0) =~= now);
        assert forall|u: usize| u < n implies (#[trigger] now.contains(u) <==> (!empty.contains(u)
            && unresolved(streams[u as int].dependencies@, empty) == 0)) by {
            assert(pending[u as int] == unresolved(streams[u as int].dependencies@, empty));
        }
        assert forall|m: int| 0 <= m < now.len() implies (#[trigger] now[m]) < n by {
            assert(now.contains(now[m]));
        }
        if n == 0 {
            assert(sources(streams, 0) =~= empty);
        }
    } else {
        lemma_pipeline_prefix(streams, (k - 1) as nat);
        let before = dispatched(streams, (k - 1) as nat);
        let done = before.take(k - 1);
        let queue = before.skip(k - 1);
        lemma_progress(streams, done, queue);
        let c = before[k - 1];
        assert(queue[0] == c);
        lemma_run_next(streams, done, queue);
        let order = done.push(c);
        assert(now == before + freed(streams, done, c, n as int));
        assert(order =~= now.take(k as int));
        lemma_freed_keeps_ready(streams, done, c, queue.skip(1));
        assert(queue.skip(1) + freed(streams, done, c, n as int) =~= now.skip(k as int));
        if k == n {
            lemma_all_ran(streams, order, now.skip(k as int));
        }
    }
}

/// The order of the pipeline is a valid schedule that leaves no stream
/// out.
pub proof fn lemma_pipeline_order_is_complete(streams: Seq<Stream>)
    requires
        schedulable(streams),
        streams.len() <= usize::MAX,
    ensures
        complete_schedule(streams, pipeline_order(streams)),
{
    lemma_pipeline_prefix(streams, streams.len());
    let all = dispatched(streams, streams.len());
    assert(all.take(streams.len() as int) =~= all.take(all.len() as int));
    assert(all.take(all.len() as int) =~= all);
}

} // verus!
