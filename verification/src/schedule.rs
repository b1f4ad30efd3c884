//! What every admissible schedule keeps.
//!
//! A schedule is an order in which streams run, one after another or, what
//! comes to the same for conflicting accesses, with streams that do not wait
//! for each other side by side. It is valid when no stream starts before
//! the streams it depends on are done. Whatever valid schedule is chosen,
//! each instruction runs once, and after every instruction it depends on.

use crate::dependencies::{
    hazards, lemma_hazards, lemma_nearest_prior, nearest_prior, touches, Access, Program,
};
use crate::streams::{
    are_streams_of, feeds, heads_before, in_stream, is_head, is_stream_of,
    lemma_heads_before_bound, lemma_heads_before_grows, lemma_program_edges_point_back,
    lemma_stream_started, point_back, program_edges, sole, stream_of, Edges, Stream,
};
use crate::transaction::program_order;
use vstd::prelude::*;

verus! {

/// Whether `order` lists streams so that none occurs twice and each comes
/// after all the streams it depends on.
pub open spec fn valid_schedule(streams: Seq<Stream>, order: Seq<usize>) -> bool {
    &&& order.no_duplicates()
    &&& forall|p: int| 0 <= p < order.len() ==> (#[trigger] order[p]) < streams.len()
    &&& forall|p: int, k: int|
        0 <= p < order.len() && 0 <= k < streams[order[p] as int].dependencies@.len()
            ==> order.take(p).contains(#[trigger] streams[order[p] as int].dependencies@[k])
}

/// Whether `order` is a valid schedule that runs every stream.
pub open spec fn complete_schedule(streams: Seq<Stream>, order: Seq<usize>) -> bool {
    &&& valid_schedule(streams, order)
    &&& order.len() == streams.len()
}

/// The instructions in the order in which a schedule runs them.
pub open spec fn execution(streams: Seq<Stream>, order: Seq<usize>) -> Seq<usize>
    decreases order.len(),
{
    if order.len() == 0 {
        Seq::empty()
    } else {
        execution(streams, order.drop_last()) + streams[order.last() as int].instructions@
    }
}

/// The instruction that started the stream of instruction `i`.
pub open spec fn head_of(edges: Edges, i: int) -> int
    decreases i,
{
    match sole(edges[i]) {
        None => i,
        Some(j) => if j < i {
            head_of(edges, j as int)
        } else {
            i
        },
    }
}

/// The numbers below `m`.
pub open spec fn below(m: nat) -> Set<usize> {
    Set::new(|x: usize| x < m)
}

/// There are `m` numbers below `m`.
pub proof fn lemma_below(m: nat)
    requires
        m <= usize::MAX,
    ensures
        below(m).finite(),
        below(m).len() == m,
    decreases m,
{
    if m == 0 {
        assert(below(m) =~= Set::empty());
    } else {
        lemma_below((m - 1) as nat);
        assert(below(m) =~= below((m - 1) as nat).insert((m - 1) as usize));
    }
}

/// A list of `m` different numbers below `m` holds every number below `m`.
pub proof fn lemma_full_range(order: Seq<usize>, m: nat)
    requires
        order.no_duplicates(),
        order.len() == m,
        m <= usize::MAX,
        forall|p: int| 0 <= p < order.len() ==> (#[trigger] order[p]) < m,
    ensures
        forall|s: usize| s < m ==> order.contains(s),
{
    lemma_below(m);
    order.unique_seq_to_set();
    assert(order.to_set().subset_of(below(m))) by {
        assert forall|x: usize| order.to_set().contains(x) implies below(m).contains(x) by {
            let p = choose|p: int| 0 <= p < order.len() && order[p] == x;
            assert(order[p] < m);
        }
    }
    vstd::set_lib::lemma_set_subset_finite(below(m), order.to_set());
    vstd::set_lib::lemma_subset_equality(order.to_set(), below(m));
    assert forall|s: usize| s < m implies order.contains(s) by {
        assert(below(m).contains(s));
        assert(order.to_set().contains(s));
    }
}

/// The head of a stream is itself an instruction that starts a stream, is
/// not later than the instruction, and its number is that of the stream.
pub proof fn lemma_head_of(edges: Edges, i: int)
    requires
        point_back(edges),
        0 <= i < edges.len(),
    ensures
        0 <= head_of(edges, i) <= i,
        is_head(edges, head_of(edges, i)),
        stream_of(edges, i) == heads_before(edges, head_of(edges, i)),
        stream_of(edges, head_of(edges, i)) == stream_of(edges, i),
    decreases i,
{
    match sole(edges[i]) {
        None => {},
        Some(j) => {
            assert(edges[i][0] < i);
            lemma_head_of(edges, j as int);
        },
    }
}

/// Of two instructions that start a stream, the later has the greater
/// number.
pub proof fn lemma_heads_ranked(edges: Edges, a: int, b: int)
    requires
        0 <= a < b,
        is_head(edges, a),
    ensures
        heads_before(edges, a) < heads_before(edges, b),
{
    lemma_heads_before_grows(edges, a + 1, b);
}

/// The first instruction of a stream is the one that started it.
pub proof fn lemma_first_is_head(streams: Seq<Stream>, edges: Edges, s: int)
    requires
        point_back(edges),
        are_streams_of(streams, edges),
        0 <= s < streams.len(),
    ensures
        streams[s].instructions@[0] < edges.len(),
        is_head(edges, streams[s].instructions@[0] as int),
        heads_before(edges, streams[s].instructions@[0] as int) == s,
{
    let list = streams[s].instructions@;
    assert(is_stream_of(streams[s], edges, s));
    let first = list[0];
    assert(list.contains(first));
    assert(in_stream(edges, s, first));
    lemma_head_of(edges, first as int);
    let h = head_of(edges, first as int);
    assert(in_stream(edges, s, h as usize));
    assert(list.contains(h as usize));
    let m = choose|m: int| 0 <= m < list.len() && list[m] == h as usize;
    if m > 0 {
        assert(list[0] < list[m]);
    }
}

/// An instruction of a stream other than the first has one dependency, an
/// instruction that stands before it in the same stream.
pub proof fn lemma_later_is_chained(streams: Seq<Stream>, edges: Edges, s: int, m: int) -> (at: int)
    requires
        point_back(edges),
        are_streams_of(streams, edges),
        0 <= s < streams.len(),
        0 < m < streams[s].instructions@.len(),
    ensures
        0 <= at < m,
        sole(edges[streams[s].instructions@[m] as int]) == Some(streams[s].instructions@[at]),
{
    let list = streams[s].instructions@;
    assert(is_stream_of(streams[s], edges, s));
    lemma_first_is_head(streams, edges, s);
    let first = list[0];
    let i = list[m];
    assert(list.contains(i));
    assert(in_stream(edges, s, i));
    assert(first < i);
    if is_head(edges, i as int) {
        lemma_heads_ranked(edges, first as int, i as int);
    }
    let j = sole(edges[i as int])->0;
    assert(edges[i as int][0] < i);
    assert(in_stream(edges, s, j));
    assert(list.contains(j));
    let at = choose|at: int| 0 <= at < list.len() && list[at] == j;
    if at > m {
        assert(list[m] < list[at]);
    }
    at
}

/// A dependency of the first instruction of a stream lies in one of the
/// streams that the stream depends on, and that is an earlier stream.
pub proof fn lemma_first_waits(streams: Seq<Stream>, edges: Edges, s: int, k: int) -> (d: usize)
    requires
        point_back(edges),
        are_streams_of(streams, edges),
        0 <= s < streams.len(),
        0 <= k < edges[streams[s].instructions@[0] as int].len(),
    ensures
        d < s,
        streams[s].dependencies@.contains(d),
        streams[d as int].instructions@.contains(edges[streams[s].instructions@[0] as int][k]),
{
    assert(is_stream_of(streams[s], edges, s));
    lemma_first_is_head(streams, edges, s);
    let first = streams[s].instructions@[0];
    let j = edges[first as int][k];
    assert(j < first);
    lemma_stream_started(edges, j as int);
    lemma_heads_before_grows(edges, j + 1, first as int);
    let d = stream_of(edges, j as int) as usize;
    assert(feeds(edges, d, first as int));
    assert(is_stream_of(streams[d as int], edges, d as int));
    assert(in_stream(edges, d as int, j));
    d
}

/// Every stream depends only on streams with a smaller number.
pub proof fn lemma_dependencies_are_earlier(streams: Seq<Stream>, edges: Edges, s: int, k: int)
    requires
        point_back(edges),
        are_streams_of(streams, edges),
        0 <= s < streams.len(),
        0 <= k < streams[s].dependencies@.len(),
    ensures
        streams[s].dependencies@[k] < s,
{
    assert(is_stream_of(streams[s], edges, s));
    lemma_first_is_head(streams, edges, s);
    let first = streams[s].instructions@[0];
    let d = streams[s].dependencies@[k];
    assert(streams[s].dependencies@.contains(d));
    assert(feeds(edges, d, first as int));
    let m = choose|m: int|
        0 <= m < edges[first as int].len() && stream_of(edges, #[trigger] edges[first as int][m] as int)
            == d;
    let j = edges[first as int][m];
    assert(j < first);
    lemma_stream_started(edges, j as int);
    lemma_heads_before_grows(edges, j + 1, first as int);
}

/// A valid schedule stays valid when it is cut short.
pub proof fn lemma_prefix_is_valid(streams: Seq<Stream>, order: Seq<usize>, len: int)
    requires
        valid_schedule(streams, order),
        0 <= len <= order.len(),
    ensures
        valid_schedule(streams, order.take(len)),
{
    let cut = order.take(len);
    assert forall|p: int, k: int|
        0 <= p < cut.len() && 0 <= k < streams[cut[p] as int].dependencies@.len() implies cut.take(
        p,
    ).contains(#[trigger] streams[cut[p] as int].dependencies@[k]) by {
        assert(cut[p] == order[p]);
        assert(order.take(p).contains(streams[order[p] as int].dependencies@[k]));
        assert(cut.take(p) == order.take(p));
    }
}

/// What the beginning of a schedule runs is the beginning of what the
/// schedule runs.
pub proof fn lemma_execution_prefix(streams: Seq<Stream>, order: Seq<usize>, j: int)
    requires
        0 <= j <= order.len(),
    ensures
        execution(streams, order.take(j)).len() <= execution(streams, order).len(),
        execution(streams, order).take(execution(streams, order.take(j)).len() as int)
            == execution(streams, order.take(j)),
    decreases order.len() - j,
{
    let part = execution(streams, order.take(j));
    let all = execution(streams, order);
    if j < order.len() {
        lemma_execution_prefix(streams, order, j + 1);
        let more = execution(streams, order.take(j + 1));
        assert(order.take(j + 1).drop_last() == order.take(j));
        assert(more.take(part.len() as int) =~= part);
        assert(all.take(part.len() as int) =~= all.take(more.len() as int).take(
            part.len() as int,
        ));
    } else {
        assert(order.take(j) == order);
        assert(all.take(all.len() as int) =~= all);
    }
}

/// What a schedule has run is what the streams it names hold.
pub proof fn lemma_execution_members(streams: Seq<Stream>, order: Seq<usize>, x: usize)
    ensures
        execution(streams, order).contains(x) <==> exists|q: int|
            0 <= q < order.len() && (#[trigger] streams[order[q] as int]).instructions@.contains(x),
    decreases order.len(),
{
    if order.len() > 0 {
        let front = order.drop_last();
        let last = streams[order.last() as int].instructions@;
        let trace = execution(streams, order);
        lemma_execution_members(streams, front, x);
        if trace.contains(x) {
            let y = choose|y: int| 0 <= y < trace.len() && trace[y] == x;
            if y < execution(streams, front).len() {
                assert(execution(streams, front)[y] == x);
                let q = choose|q: int|
                    0 <= q < front.len() && (#[trigger] streams[front[q] as int]).instructions@.contains(
                        x,
                    );
                assert(front[q] == order[q]);
            } else {
                assert(last[y - execution(streams, front).len()] == x);
                assert(streams[order[order.len() - 1] as int].instructions@.contains(x));
            }
        }
        if exists|q: int|
            0 <= q < order.len() && (#[trigger] streams[order[q] as int]).instructions@.contains(x) {
            let q = choose|q: int|
                0 <= q < order.len() && (#[trigger] streams[order[q] as int]).instructions@.contains(
                    x,
                );
            if q < front.len() {
                assert(front[q] == order[q]);
                assert(streams[front[q] as int].instructions@.contains(x));
                assert(execution(streams, front).contains(x));
                let y = choose|y: int|
                    0 <= y < execution(streams, front).len() && execution(streams, front)[y] == x;
                assert(trace[y] == x);
            } else {
                let y = choose|y: int| 0 <= y < last.len() && last[y] == x;
                assert(trace[execution(streams, front).len() + y] == x);
            }
        }
    }
}

/// Whatever valid schedule runs the streams of a program, when an
/// instruction runs, every instruction it depends on has run.
pub proof fn lemma_dependencies_run_first(
    streams: Seq<Stream>,
    edges: Edges,
    order: Seq<usize>,
    y: int,
    k: int,
)
    requires
        point_back(edges),
        are_streams_of(streams, edges),
        valid_schedule(streams, order),
        0 <= y < execution(streams, order).len(),
        execution(streams, order)[y] < edges.len(),
        0 <= k < edges[execution(streams, order)[y] as int].len(),
    ensures
        execution(streams, order).take(y).contains(
            edges[execution(streams, order)[y] as int][k],
        ),
    decreases order.len(),
{
    let trace = execution(streams, order);
    let front = order.drop_last();
    let done = execution(streams, front);
    let s = order.last();
    let list = streams[s as int].instructions@;
    let i = trace[y];
    let j = edges[i as int][k];
    assert(front == order.take(order.len() - 1));
    lemma_prefix_is_valid(streams, order, order.len() - 1);
    assert(order[order.len() - 1] < streams.len());
    if y < done.len() {
        assert(done[y] == i);
        lemma_dependencies_run_first(streams, edges, front, y, k);
        assert(done.take(y) == trace.take(y));
    } else {
        let m = y - done.len();
        assert(list[m] == i);
        if m == 0 {
            let d = lemma_first_waits(streams, edges, s as int, k);
            let at = choose|at: int|
                0 <= at < streams[s as int].dependencies@.len() && streams[s as int].dependencies@[at]
                    == d;
            assert(order.take(order.len() - 1).contains(
                streams[order[order.len() - 1] as int].dependencies@[at],
            ));
            let q = choose|q: int| 0 <= q < front.len() && front[q] == d;
            assert(streams[front[q] as int].instructions@.contains(j));
            lemma_execution_members(streams, front, j);
            let x = choose|x: int| 0 <= x < done.len() && done[x] == j;
            assert(trace.take(y)[x] == j);
        } else {
            let at = lemma_later_is_chained(streams, edges, s as int, m);
            assert(list[at] == j);
            assert(trace.take(y)[done.len() + at] == j);
        }
    }
}

/// No valid schedule runs an instruction twice, and it runs instructions of
/// the program only.
pub proof fn lemma_runs_at_most_once(streams: Seq<Stream>, edges: Edges, order: Seq<usize>)
    requires
        are_streams_of(streams, edges),
        valid_schedule(streams, order),
    ensures
        execution(streams, order).no_duplicates(),
        forall|y: int|
            0 <= y < execution(streams, order).len() ==> (#[trigger] execution(streams, order)[y])
                < edges.len(),
    decreases order.len(),
{
    if order.len() > 0 {
        let front = order.drop_last();
        let done = execution(streams, front);
        let s = order.last();
        let list = streams[s as int].instructions@;
        assert(front == order.take(order.len() - 1));
        lemma_prefix_is_valid(streams, order, order.len() - 1);
        lemma_runs_at_most_once(streams, edges, front);
        assert(order[order.len() - 1] < streams.len());
        assert(is_stream_of(streams[s as int], edges, s as int));
        assert forall|a: int, b: int| 0 <= a < done.len() && 0 <= b < list.len() implies done[a]
            != list[b] by {
            if done[a] == list[b] {
                let x = done[a];
                assert(done.contains(x));
                lemma_execution_members(streams, front, x);
                let q = choose|q: int|
                    0 <= q < front.len() && (#[trigger] streams[front[q] as int]).instructions@.contains(
                        x,
                    );
                assert(front[q] == order[q]);
                assert(order[q] < streams.len());
                assert(is_stream_of(streams[order[q] as int], edges, order[q] as int));
                assert(in_stream(edges, order[q] as int, x));
                assert(list.contains(x));
                assert(in_stream(edges, s as int, x));
                assert(order[q] == order[order.len() - 1]);
            }
        }
        vstd::seq_lib::lemma_no_dup_in_concat(done, list);
        assert forall|y: int| 0 <= y < execution(streams, order).len() implies (
        #[trigger] execution(streams, order)[y]) < edges.len() by {
            if y >= done.len() {
                assert(list.contains(list[y - done.len()]));
                assert(in_stream(edges, s as int, list[y - done.len()]));
            }
        }
    }
}

/// A schedule that runs every stream runs every instruction of the program.
pub proof fn lemma_runs_everything(
    streams: Seq<Stream>,
    edges: Edges,
    order: Seq<usize>,
    i: usize,
)
    requires
        point_back(edges),
        edges.len() <= usize::MAX,
        are_streams_of(streams, edges),
        complete_schedule(streams, order),
        i < edges.len(),
    ensures
        execution(streams, order).contains(i),
{
    lemma_stream_started(edges, i as int);
    lemma_heads_before_bound(edges, edges.len() as int);
    let s = stream_of(edges, i as int) as usize;
    lemma_full_range(order, streams.len());
    assert(order.contains(s));
    let q = choose|q: int| 0 <= q < order.len() && order[q] == s;
    assert(is_stream_of(streams[s as int], edges, s as int));
    assert(in_stream(edges, s as int, i));
    assert(streams[order[q] as int].instructions@.contains(i));
    lemma_execution_members(streams, order, i);
}

/// The streams of a program hold every instruction of it, each exactly once:
/// the instruction stands in its own stream, at one place, and in no other
/// stream.
pub proof fn lemma_streams_partition_program(streams: Seq<Stream>, edges: Edges, i: usize)
    requires
        point_back(edges),
        are_streams_of(streams, edges),
        i < edges.len(),
    ensures
        stream_of(edges, i as int) < streams.len(),
        forall|s: int|
            0 <= s < streams.len() ==> ((#[trigger] streams[s]).instructions@.contains(i) <==> s
                == stream_of(edges, i as int)),
        forall|s: int, a: int, b: int|
            0 <= s < streams.len() && 0 <= a < streams[s].instructions@.len() && 0 <= b
                < streams[s].instructions@.len() && (#[trigger] streams[s].instructions@[a]) == i
                && (#[trigger] streams[s].instructions@[b]) == i ==> a == b,
        forall|s: int, a: int|
            0 <= s < streams.len() && 0 <= a < streams[s].instructions@.len() ==> (
            #[trigger] streams[s].instructions@[a]) < edges.len(),
{
    lemma_stream_started(edges, i as int);
    assert forall|s: int| 0 <= s < streams.len() implies ((#[trigger] streams[s]).instructions@.contains(
        i,
    ) <==> s == stream_of(edges, i as int)) by {
        assert(is_stream_of(streams[s], edges, s));
        assert(streams[s].instructions@.contains(i) <==> in_stream(edges, s, i));
    }
    assert forall|s: int, a: int, b: int|
        0 <= s < streams.len() && 0 <= a < streams[s].instructions@.len() && 0 <= b
            < streams[s].instructions@.len() && (#[trigger] streams[s].instructions@[a]) == i && (
        #[trigger] streams[s].instructions@[b]) == i implies a == b by {
        assert(is_stream_of(streams[s], edges, s));
        if a < b {
            assert(streams[s].instructions@[a] < streams[s].instructions@[b]);
        }
        if b < a {
            assert(streams[s].instructions@[b] < streams[s].instructions@[a]);
        }
    }
    assert forall|s: int, a: int|
        0 <= s < streams.len() && 0 <= a < streams[s].instructions@.len() implies (
    #[trigger] streams[s].instructions@[a]) < edges.len() by {
        assert(is_stream_of(streams[s], edges, s));
        assert(streams[s].instructions@.contains(streams[s].instructions@[a]));
        assert(in_stream(edges, s, streams[s].instructions@[a]));
    }
}

/// To run streams by their numbers is a valid schedule that runs every
/// stream, if every stream depends on streams with smaller numbers only.
pub proof fn lemma_numbered_order_is_valid(streams: Seq<Stream>)
    requires
        streams.len() <= usize::MAX,
        forall|s: int, k: int|
            0 <= s < streams.len() && 0 <= k < streams[s].dependencies@.len() ==> (
            #[trigger] streams[s].dependencies@[k]) < s,
    ensures
        complete_schedule(streams, program_order(streams.len())),
{
    let order = program_order(streams.len());
    assert forall|p: int, k: int|
        0 <= p < order.len() && 0 <= k < streams[order[p] as int].dependencies@.len() implies order.take(
        p,
    ).contains(#[trigger] streams[order[p] as int].dependencies@[k]) by {
        let d = streams[p].dependencies@[k];
        assert(order.take(p)[d as int] == d);
    }
}

/// The streams of a program can run by their numbers.
pub proof fn lemma_streams_run_by_number(streams: Seq<Stream>, edges: Edges)
    requires
        point_back(edges),
        are_streams_of(streams, edges),
        streams.len() <= usize::MAX,
    ensures
        complete_schedule(streams, program_order(streams.len())),
{
    assert forall|s: int, k: int|
        0 <= s < streams.len() && 0 <= k < streams[s].dependencies@.len() implies (
    #[trigger] streams[s].dependencies@[k]) < s by {
        lemma_dependencies_are_earlier(streams, edges, s, k);
    }
    lemma_numbered_order_is_valid(streams);
}

/// Whether a later access of kind `access` has to wait for an earlier
/// access of kind `prior` to the same operand: all but a read after a read.
pub open spec fn conflicts(access: Access, prior: Access) -> bool {
    access == Access::Write || prior == Access::Write
}

/// Under every valid schedule of the streams of a program, when an
/// instruction that accesses an operand runs, the last instruction before
/// it in the program with a conflicting access to this operand has run:
/// for a read the last write, for a write the last write and the last read.
pub proof fn lemma_access_follows_nearest(
    program: Program,
    streams: Seq<Stream>,
    order: Seq<usize>,
    y: int,
    operand: usize,
    access: Access,
    prior: Access,
)
    requires
        program.len() <= usize::MAX,
        are_streams_of(streams, program_edges(program)),
        valid_schedule(streams, order),
        0 <= y < execution(streams, order).len(),
        execution(streams, order)[y] < program.len(),
        conflicts(access, prior),
        touches(program, execution(streams, order)[y] as int, operand, access),
        nearest_prior(program, execution(streams, order)[y] as int, operand, prior) is Some,
    ensures
        execution(streams, order).take(y).contains(
            nearest_prior(program, execution(streams, order)[y] as int, operand, prior)->0 as usize,
        ),
{
    let edges = program_edges(program);
    let trace = execution(streams, order);
    let later = trace[y] as int;
    lemma_program_edges_point_back(program);
    lemma_nearest_prior(program, later, operand, prior);
    let nearest = nearest_prior(program, later, operand, prior)->0 as usize;
    let reads = hazards(program, later, program[later].0, Access::Write);
    let others = hazards(program, later, program[later].1, Access::Read);
    let operands = if access == Access::Read {
        program[later].0
    } else {
        program[later].1
    };
    let offset = if access == Access::Read {
        0
    } else if prior == Access::Read {
        reads.len()
    } else {
        reads.len() + others.len()
    };
    let found = hazards(program, later, operands, prior);
    lemma_hazards(program, later, operands, prior);
    let at = choose|at: int| 0 <= at < operands.len() && operands[at] == operand;
    assert(nearest_prior(program, later, operands[at], prior) == Some(nearest as int));
    assert(found.contains(nearest));
    let k = choose|k: int| 0 <= k < found.len() && found[k] == nearest;
    assert(edges[later][offset + k] == nearest);
    lemma_dependencies_run_first(streams, edges, order, y, offset + k);
}

/// Every access sees all earlier writes: under every valid schedule of the
/// streams of a program, when an instruction that reads or writes an
/// operand runs, every earlier instruction of the program that writes this
/// operand has run. So the writes to an operand keep their order.
pub proof fn lemma_access_follows_all_writes(
    program: Program,
    streams: Seq<Stream>,
    order: Seq<usize>,
    y: int,
    operand: usize,
    access: Access,
    earlier: int,
)
    requires
        program.len() <= usize::MAX,
        are_streams_of(streams, program_edges(program)),
        valid_schedule(streams, order),
        0 <= y < execution(streams, order).len(),
        execution(streams, order)[y] < program.len(),
        touches(program, execution(streams, order)[y] as int, operand, access),
        0 <= earlier < execution(streams, order)[y],
        touches(program, earlier, operand, Access::Write),
    ensures
        execution(streams, order).take(y).contains(earlier as usize),
    decreases execution(streams, order)[y] - earlier,
{
    let trace = execution(streams, order);
    let later = trace[y] as int;
    lemma_nearest_prior(program, later, operand, Access::Write);
    let between = nearest_prior(program, later, operand, Access::Write)->0;
    lemma_access_follows_nearest(program, streams, order, y, operand, access, Access::Write);
    if between != earlier {
        let at = choose|at: int| 0 <= at < y && trace.take(y)[at] == between as usize;
        assert(trace[at] == between as usize);
        lemma_access_follows_all_writes(
            program,
            streams,
            order,
            at,
            operand,
            Access::Write,
            earlier,
        );
        let found = choose|found: int|
            0 <= found < at && trace.take(at)[found] == earlier as usize;
        assert(trace.take(y)[found] == earlier as usize);
    }
}

} // verus!
