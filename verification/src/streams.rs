//! The stream builder: chains of instructions that run one after another,
//! and what each chain has to wait for.
//!
//! An instruction with exactly one distinct dependency continues the stream
//! of that dependency. Every other instruction, one without dependencies or
//! one with several, starts a stream of its own.

use crate::dependencies::{
    contains_operand, get_instruction_dependencies, hazards, is_record_of, lemma_hazards,
    program_of, Access, Dependencies, Program,
};
use crate::error::Error;
use crate::instruction::{copy_operands, views, Instruction, InstructionView};
use vstd::prelude::*;

verus! {

/// Where a stream stands in its life.
#[derive(Clone, Copy, Debug, PartialEq, Eq, Structural)]
pub enum StreamState {
    Unreached,
    Spawned,
    Joined,
}

impl Default for StreamState {
    fn default() -> (state: Self)
        ensures
            state == StreamState::Unreached,
    {
        StreamState::Unreached
    }
}

impl StreamState {
    /// The name of the state.
    pub fn name(&self) -> (name: &'static str)
        ensures
            name@ == match *self {
                StreamState::Unreached => "Unreached"@,
                StreamState::Spawned => "Spawned"@,
                StreamState::Joined => "Joined"@,
            },
    {
        match self {
            StreamState::Unreached => "Unreached",
            StreamState::Spawned => "Spawned",
            StreamState::Joined => "Joined",
        }
    }
}

/// A chain of instructions that is scheduled as one unit.
#[derive(Debug)]
pub struct Stream {
    pub id: usize,
    pub state: StreamState,
    /// The streams that must be done before this one starts.
    pub dependencies: Vec<usize>,
    /// The instructions of this stream, in the order in which they run.
    pub instructions: Vec<usize>,
}

/// For each instruction, the earlier instructions it depends on.
pub type Edges = Seq<Seq<usize>>;

/// All dependencies of one record in one list.
pub open spec fn all_dependencies(record: Dependencies) -> Seq<usize> {
    record.write_before_read@ + record.read_before_write@ + record.write_before_write@
}

/// The dependency lists of a sequence of records.
pub open spec fn edges_of(records: Seq<Dependencies>) -> Edges {
    Seq::new(records.len(), |i: int| all_dependencies(records[i]))
}

/// The dependency lists of a program, as the analyzer finds them.
pub open spec fn program_edges(program: Program) -> Edges {
    Seq::new(
        program.len(),
        |i: int|
            hazards(program, i, program[i].0, Access::Write) + hazards(
                program,
                i,
                program[i].1,
                Access::Read,
            ) + hazards(program, i, program[i].1, Access::Write),
    )
}

/// Every dependency of an instruction is an earlier instruction.
pub open spec fn point_back(edges: Edges) -> bool {
    forall|i: int, k: int|
        0 <= i < edges.len() && 0 <= k < edges[i].len() ==> (#[trigger] edges[i][k]) < i
}

/// The one value of a list whose entries are all the same, if it is such a
/// list and not empty.
pub open spec fn sole(list: Seq<usize>) -> Option<usize> {
    if list.len() > 0 && (forall|k: int| 0 <= k < list.len() ==> #[trigger] list[k] == list[0]) {
        Some(list[0])
    } else {
        None
    }
}

/// Whether instruction `i` starts a stream.
pub open spec fn is_head(edges: Edges, i: int) -> bool {
    sole(edges[i]) is None
}

/// How many of the instructions before `i` start a stream.
pub open spec fn heads_before(edges: Edges, i: int) -> nat
    decreases i,
{
    if i <= 0 {
        0
    } else if is_head(edges, i - 1) {
        heads_before(edges, i - 1) + 1
    } else {
        heads_before(edges, i - 1)
    }
}

/// The stream of instruction `i`: a new one, numbered by the streams started
/// before, or the stream of its one dependency.
pub open spec fn stream_of(edges: Edges, i: int) -> nat
    decreases i,
{
    match sole(edges[i]) {
        None => heads_before(edges, i),
        Some(j) => if j < i {
            stream_of(edges, j as int)
        } else {
            0
        },
    }
}

/// The number of streams of a program.
pub open spec fn stream_count(edges: Edges) -> nat {
    heads_before(edges, edges.len() as int)
}

/// Whether the entries of `list` grow from each one to the next.
pub open spec fn strictly_ascending(list: Seq<usize>) -> bool {
    forall|a: int, b: int| 0 <= a < b < list.len() ==> list[a] < list[b]
}

/// Whether instruction `i` belongs to stream `s`.
pub open spec fn in_stream(edges: Edges, s: int, i: usize) -> bool {
    i < edges.len() && stream_of(edges, i as int) == s
}

/// Whether stream `d` holds one of the dependencies of instruction `i`.
pub open spec fn feeds(edges: Edges, d: usize, i: int) -> bool {
    exists|k: int| 0 <= k < edges[i].len() && stream_of(edges, #[trigger] edges[i][k] as int) == d
}

/// Whether `stream` is stream `s` of the program with these dependencies:
/// it holds the instructions of that stream in program order, and depends on
/// the streams that hold the dependencies of its first instruction.
pub open spec fn is_stream_of(stream: Stream, edges: Edges, s: int) -> bool {
    &&& stream.id == s
    &&& strictly_ascending(stream.instructions@)
    &&& (forall|i: usize| #[trigger] stream.instructions@.contains(i) <==> in_stream(edges, s, i))
    &&& stream.instructions@.len() > 0
    &&& strictly_ascending(stream.dependencies@)
    &&& (forall|d: usize|
        #[trigger] stream.dependencies@.contains(d) <==> feeds(
            edges,
            d,
            stream.instructions@[0] as int,
        ))
}

/// Whether `stream` is stream `s` as far as the instructions before `upto`
/// go, with no dependencies yet.
pub open spec fn is_stream_upto(stream: Stream, edges: Edges, s: int, upto: int) -> bool {
    &&& stream.id == s
    &&& stream.state == StreamState::Unreached
    &&& strictly_ascending(stream.instructions@)
    &&& (forall|x: usize|
        #[trigger] stream.instructions@.contains(x) <==> (x < upto && in_stream(edges, s, x)))
}

/// Whether `streams` are the streams of the program with these dependencies.
pub open spec fn are_streams_of(streams: Seq<Stream>, edges: Edges) -> bool {
    &&& streams.len() == stream_count(edges)
    &&& forall|s: int| 0 <= s < streams.len() ==> is_stream_of(#[trigger] streams[s], edges, s)
}

/// The analyzer only ever names earlier instructions.
pub proof fn lemma_program_edges_point_back(program: Program)
    requires
        program.len() <= usize::MAX,
    ensures
        point_back(program_edges(program)),
{
    let edges = program_edges(program);
    assert forall|i: int, k: int| 0 <= i < edges.len() && 0 <= k < edges[i].len() implies (
    #[trigger] edges[i][k]) < i by {
        lemma_hazards(program, i, program[i].0, Access::Write);
        lemma_hazards(program, i, program[i].1, Access::Read);
        lemma_hazards(program, i, program[i].1, Access::Write);
    }
}

/// The records of the analyzer carry the dependency lists of the program.
pub proof fn lemma_record_edges(records: Seq<Dependencies>, program: Program)
    requires
        records.len() == program.len(),
        forall|i: int| 0 <= i < program.len() ==> is_record_of(#[trigger] records[i], program, i),
    ensures
        edges_of(records) == program_edges(program),
{
    assert forall|i: int| 0 <= i < program.len() implies #[trigger] edges_of(records)[i]
        == program_edges(program)[i] by {
        assert(is_record_of(records[i], program, i));
    }
    assert(edges_of(records) =~= program_edges(program));
}

/// The count of streams started grows with the instructions looked at.
pub proof fn lemma_heads_before_grows(edges: Edges, a: int, b: int)
    requires
        a <= b,
    ensures
        heads_before(edges, a) <= heads_before(edges, b),
    decreases b - a,
{
    if a < b {
        lemma_heads_before_grows(edges, a, b - 1);
    }
}

/// There are no more streams than instructions.
pub proof fn lemma_heads_before_bound(edges: Edges, i: int)
    requires
        0 <= i,
    ensures
        heads_before(edges, i) <= i,
    decreases i,
{
    if i > 0 {
        lemma_heads_before_bound(edges, i - 1);
    }
}

/// The stream of an instruction was started at that instruction or before.
pub proof fn lemma_stream_started(edges: Edges, i: int)
    requires
        point_back(edges),
        0 <= i < edges.len(),
    ensures
        stream_of(edges, i) < heads_before(edges, i + 1),
        stream_of(edges, i) < stream_count(edges),
    decreases i,
{
    match sole(edges[i]) {
        None => {},
        Some(j) => {
            assert(edges[i][0] < i);
            lemma_stream_started(edges, j as int);
            lemma_heads_before_grows(edges, j + 1, i + 1);
        },
    }
    lemma_heads_before_grows(edges, i + 1, edges.len() as int);
}

/// Every stream number below the count belongs to an instruction that
/// starts a stream.
pub proof fn lemma_head_exists(edges: Edges, n: int, s: nat) -> (h: int)
    requires
        0 <= n <= edges.len(),
        s < heads_before(edges, n),
    ensures
        0 <= h < n,
        is_head(edges, h),
        heads_before(edges, h) == s,
        stream_of(edges, h) == s,
    decreases n,
{
    if is_head(edges, n - 1) && heads_before(edges, n - 1) == s {
        n - 1
    } else {
        lemma_head_exists(edges, n - 1, s)
    }
}

/// The three lists of a record, one after another.
fn concat_dependencies(record: &Dependencies) -> (all: Vec<usize>)
    ensures
        all@ == all_dependencies(*record),
{
    let mut all: Vec<usize> = Vec::new();
    let mut k: usize = 0;
    while k < record.write_before_read.len()
        invariant
            k <= record.write_before_read@.len(),
            all@ == record.write_before_read@.take(k as int),
        decreases record.write_before_read@.len() - k,
    {
        all.push(record.write_before_read[k]);
        k += 1;
    }
    assert(record.write_before_read@.take(k as int) == record.write_before_read@);
    k = 0;
    while k < record.read_before_write.len()
        invariant
            k <= record.read_before_write@.len(),
            all@ == record.write_before_read@ + record.read_before_write@.take(k as int),
        decreases record.read_before_write@.len() - k,
    {
        all.push(record.read_before_write[k]);
        k += 1;
    }
    assert(record.read_before_write@.take(k as int) == record.read_before_write@);
    k = 0;
    while k < record.write_before_write.len()
        invariant
            k <= record.write_before_write@.len(),
            all@ == record.write_before_read@ + record.read_before_write@
                + record.write_before_write@.take(k as int),
        decreases record.write_before_write@.len() - k,
    {
        all.push(record.write_before_write[k]);
        k += 1;
    }
    assert(record.write_before_write@.take(k as int) == record.write_before_write@);
    all
}

/// The one distinct value of `list`, if it has exactly one.
fn sole_of(list: &Vec<usize>) -> (one: Option<usize>)
    ensures
        one == sole(list@),
{
    if list.len() == 0 {
        return None;
    }
    let first = list[0];
    let mut k: usize = 1;
    while k < list.len()
        invariant
            1 <= k <= list@.len(),
            first == list@[0],
            forall|m: int| 0 <= m < k ==> list@[m] == first,
        decreases list@.len() - k,
    {
        if list[k] != first {
            return None;
        }
        k += 1;
    }
    Some(first)
}

/// Puts `x` into an ascending list, unless it is there already.
fn insert_ascending(list: &mut Vec<usize>, x: usize)
    requires
        strictly_ascending(old(list)@),
    ensures
        strictly_ascending(final(list)@),
        forall|y: usize|
            #[trigger] final(list)@.contains(y) <==> (old(list)@.contains(y) || y == x),
{
    let mut at: usize = 0;
    while at < list.len() && list[at] < x
        invariant
            at <= list@.len(),
            list@ == old(list)@,
            forall|m: int| 0 <= m < at ==> list@[m] < x,
        decreases list@.len() - at,
    {
        at += 1;
    }
    if at < list.len() && list[at] == x {
        assert(list@.contains(x));
        return ;
    }
    let ghost before = list@;
    list.insert(at, x);
    assert(list@ == before.insert(at as int, x));
    assert forall|a: int, b: int| 0 <= a < b < list@.len() implies list@[a] < list@[b] by {
        if a < at && b > at {
            assert(before[a] < x && x < before[b - 1]);
        } else if a > at {
            assert(before[a - 1] < before[b - 1]);
        }
    }
    assert forall|y: usize| #[trigger] list@.contains(y) <==> (before.contains(y) || y == x) by {
        if list@.contains(y) {
            let m = choose|m: int| 0 <= m < list@.len() && list@[m] == y;
            if m < at {
                assert(before[m] == y);
            } else if m > at {
                assert(before[m - 1] == y);
            }
        }
        if before.contains(y) {
            let m = choose|m: int| 0 <= m < before.len() && before[m] == y;
            if m < at {
                assert(list@[m] == y);
            } else {
                assert(list@[m + 1] == y);
            }
        }
        if y == x {
            assert(list@[at as int] == y);
        }
    }
}

/// Adds instruction `i` at the end of stream `s`.
fn push_instruction(streams: &mut Vec<Stream>, s: usize, i: usize)
    requires
        s < old(streams)@.len(),
    ensures
        final(streams)@.len() == old(streams)@.len(),
        forall|t: int|
            0 <= t < old(streams)@.len() && t != s ==> final(streams)@[t] == old(streams)@[t],
        final(streams)@[s as int].id == old(streams)@[s as int].id,
        final(streams)@[s as int].state == old(streams)@[s as int].state,
        final(streams)@[s as int].dependencies == old(streams)@[s as int].dependencies,
        final(streams)@[s as int].instructions@ == old(streams)@[s as int].instructions@.push(i),
{
    let target = &mut streams[s];
    target.instructions.push(i);
}

/// Gives stream `s` its dependencies.
fn set_dependencies(streams: &mut Vec<Stream>, s: usize, dependencies: Vec<usize>)
    requires
        s < old(streams)@.len(),
    ensures
        final(streams)@.len() == old(streams)@.len(),
        forall|t: int|
            0 <= t < old(streams)@.len() && t != s ==> final(streams)@[t] == old(streams)@[t],
        final(streams)@[s as int].id == old(streams)@[s as int].id,
        final(streams)@[s as int].state == old(streams)@[s as int].state,
        final(streams)@[s as int].instructions == old(streams)@[s as int].instructions,
        final(streams)@[s as int].dependencies == dependencies,
{
    let target = &mut streams[s];
    target.dependencies = dependencies;
}

/// The stream of every instruction, and the number of streams.
fn number_streams(records: &[Dependencies]) -> (numbered: (Vec<usize>, usize))
    requires
        point_back(edges_of(records@)),
    ensures
        numbered.0@.len() == records@.len(),
        forall|i: int|
            0 <= i < records@.len() ==> numbered.0@[i] == stream_of(edges_of(records@), i),
        numbered.1 == stream_count(edges_of(records@)),
{
    let ghost edges = edges_of(records@);
    let mut instruction_streams: Vec<usize> = Vec::new();
    let mut next_stream: usize = 0;
    let mut i: usize = 0;
    while i < records.len()
        invariant
            i <= records@.len(),
            edges == edges_of(records@),
            point_back(edges),
            instruction_streams@.len() == i,
            forall|m: int| 0 <= m < i ==> instruction_streams@[m] == stream_of(edges, m),
            next_stream == heads_before(edges, i as int),
            next_stream <= i,
        decreases records@.len() - i,
    {
        let all = concat_dependencies(&records[i]);
        assert(all@ == edges[i as int]);
        match sole_of(&all) {
            Some(j) => {
                assert(edges[i as int][0] < i);
                assert(stream_of(edges, i as int) == stream_of(edges, j as int));
                let stream = instruction_streams[j];
                instruction_streams.push(stream);
            },
            None => {
                assert(stream_of(edges, i as int) == next_stream);
                instruction_streams.push(next_stream);
                next_stream += 1;
            },
        }
        i += 1;
    }
    (instruction_streams, next_stream)
}

/// For each instruction the number of its stream. An instruction with one
/// distinct dependency gets the stream of that dependency; any other gets
/// the next unused number.
pub fn assign_instructions_to_streams(instruction_dependencies: &[Dependencies]) -> (streams: Vec<
    usize,
>)
    requires
        point_back(edges_of(instruction_dependencies@)),
    ensures
        streams@.len() == instruction_dependencies@.len(),
        forall|i: int|
            0 <= i < streams@.len() ==> streams@[i] == stream_of(
                edges_of(instruction_dependencies@),
                i,
            ),
{
    number_streams(instruction_dependencies).0
}

/// Groups the instructions of a program in streams, by a dependency
/// analysis. Every instruction lands in exactly one stream; a stream lists
/// its instructions in program order and depends on the streams that hold
/// the dependencies of its first instruction.
pub fn make_streams(instructions: &[(Vec<usize>, Vec<usize>)]) -> (streams: Vec<Stream>)
    ensures
        are_streams_of(streams@, program_edges(program_of(instructions@))),
        forall|s: int| 0 <= s < streams@.len() ==> (#[trigger] streams@[s]).state == StreamState::Unreached,
{
    let ghost program = program_of(instructions@);
    let ghost edges = program_edges(program);
    let n = instructions.len();
    let records = get_instruction_dependencies(instructions);
    proof {
        lemma_record_edges(records@, program);
        lemma_program_edges_point_back(program);
    }
    let (instruction_streams, count) = number_streams(records.as_slice());

    let mut streams: Vec<Stream> = Vec::new();
    let mut s: usize = 0;
    while s < count
        invariant
            s <= count,
            streams@.len() == s,
            forall|t: int|
                0 <= t < s ==> {
                    &&& (#[trigger] streams@[t]).id == t
                    &&& streams@[t].state == StreamState::Unreached
                    &&& streams@[t].instructions@.len() == 0
                },
        decreases count - s,
    {
        streams.push(
            Stream {
                id: s,
                state: StreamState::Unreached,
                dependencies: Vec::new(),
                instructions: Vec::new(),
            },
        );
        s += 1;
    }

    let mut i: usize = 0;
    while i < n
        invariant
            i <= n,
            n == edges.len(),
            point_back(edges),
            count == stream_count(edges),
            streams@.len() == count,
            instruction_streams@.len() == n,
            forall|m: int| 0 <= m < n ==> instruction_streams@[m] == stream_of(edges, m),
            forall|t: int|
                0 <= t < count ==> is_stream_upto(#[trigger] streams@[t], edges, t, i as int),
        decreases n - i,
    {
        let stream = instruction_streams[i];
        proof {
            lemma_stream_started(edges, i as int);
        }
        let ghost before = streams@;
        assert(is_stream_upto(before[stream as int], edges, stream as int, i as int));
        push_instruction(&mut streams, stream, i);
        assert forall|t: int| 0 <= t < count implies is_stream_upto(
            #[trigger] streams@[t],
            edges,
            t,
            i + 1,
        ) by {
            assert(is_stream_upto(before[t], edges, t, i as int));
            if t == stream {
                let old_list = before[t].instructions@;
                let new_list = streams@[t].instructions@;
                assert forall|a: int, b: int| 0 <= a < b < new_list.len() implies new_list[a]
                    < new_list[b] by {
                    assert(old_list.contains(old_list[a]));
                }
                assert forall|x: usize| #[trigger]
                    new_list.contains(x) <==> (x < i + 1 && in_stream(edges, t, x)) by {
                    if new_list.contains(x) {
                        let m = choose|m: int| 0 <= m < new_list.len() && new_list[m] == x;
                        if m < old_list.len() {
                            assert(old_list.contains(x));
                        }
                    }
                    if x < i + 1 && in_stream(edges, t, x) {
                        if x < i {
                            assert(old_list.contains(x));
                            let m = choose|m: int| 0 <= m < old_list.len() && old_list[m] == x;
                            assert(new_list[m] == x);
                        } else {
                            assert(new_list[old_list.len() as int] == x);
                        }
                    }
                }
            }
        }
        i += 1;
    }

    let mut s: usize = 0;
    while s < count
        invariant
            s <= count,
            n == edges.len(),
            point_back(edges),
            count == stream_count(edges),
            streams@.len() == count,
            instruction_streams@.len() == n,
            records@.len() == n,
            edges == edges_of(records@),
            forall|m: int| 0 <= m < n ==> instruction_streams@[m] == stream_of(edges, m),
            forall|t: int|
                0 <= t < count ==> is_stream_upto(#[trigger] streams@[t], edges, t, n as int),
            forall|t: int| 0 <= t < s ==> is_stream_of(#[trigger] streams@[t], edges, t),
        decreases count - s,
    {
        proof {
            let h = lemma_head_exists(edges, n as int, s as nat);
            assert(in_stream(edges, s as int, h as usize));
            assert(streams@[s as int].instructions@.contains(h as usize));
        }
        let first = streams[s].instructions[0];
        assert(streams@[s as int].instructions@.contains(first));
        assert(in_stream(edges, s as int, first));
        let all = concat_dependencies(&records[first]);
        assert(all@ == edges[first as int]);
        let mut dependencies: Vec<usize> = Vec::new();
        let mut k: usize = 0;
        while k < all.len()
            invariant
                k <= all@.len(),
                first < n,
                n == edges.len(),
                point_back(edges),
                all@ == edges[first as int],
                instruction_streams@.len() == n,
                forall|m: int| 0 <= m < n ==> instruction_streams@[m] == stream_of(edges, m),
                strictly_ascending(dependencies@),
                forall|d: usize|
                    dependencies@.contains(d) <==> exists|m: int|
                        0 <= m < k && stream_of(edges, #[trigger] edges[first as int][m] as int)
                            == d,
            decreases all@.len() - k,
        {
            assert(edges[first as int][k as int] < first);
            let ghost before = dependencies@;
            let owner = instruction_streams[all[k]];
            insert_ascending(&mut dependencies, owner);
            assert forall|d: usize|
                dependencies@.contains(d) <==> exists|m: int|
                    0 <= m < k + 1 && stream_of(edges, #[trigger] edges[first as int][m] as int)
                        == d by {
                if before.contains(d) {
                    let m = choose|m: int|
                        0 <= m < k && stream_of(edges, #[trigger] edges[first as int][m] as int)
                            == d;
                    assert(0 <= m < k + 1);
                }
                if d == owner {
                    assert(stream_of(edges, edges[first as int][k as int] as int) == d);
                }
                if exists|m: int|
                    0 <= m < k + 1 && stream_of(edges, #[trigger] edges[first as int][m] as int)
                        == d {
                    let m = choose|m: int|
                        0 <= m < k + 1 && stream_of(edges, #[trigger] edges[first as int][m] as int)
                            == d;
                    if m < k {
                        assert(before.contains(d));
                    }
                }
            }
            k += 1;
        }
        let ghost before = streams@;
        set_dependencies(&mut streams, s, dependencies);
        assert(is_stream_upto(before[s as int], edges, s as int, n as int));
        assert(is_stream_of(streams@[s as int], edges, s as int));
        assert forall|t: int| 0 <= t < count implies is_stream_upto(
            #[trigger] streams@[t],
            edges,
            t,
            n as int,
        ) by {
            assert(is_stream_upto(before[t], edges, t, n as int));
        }
        assert forall|t: int| 0 <= t < s + 1 implies is_stream_of(
            #[trigger] streams@[t],
            edges,
            t,
        ) by {
            if t < s {
                assert(is_stream_of(before[t], edges, t));
            }
        }
        s += 1;
    }
    streams
}

/// Puts every stream back where nothing has run.
pub fn reset_streams(streams: &mut Vec<Stream>)
    ensures
        final(streams)@.len() == old(streams)@.len(),
        forall|s: int|
            0 <= s < old(streams)@.len() ==> {
                &&& (#[trigger] final(streams)@[s]).state == StreamState::Unreached
                &&& final(streams)@[s].id == old(streams)@[s].id
                &&& final(streams)@[s].dependencies == old(streams)@[s].dependencies
                &&& final(streams)@[s].instructions == old(streams)@[s].instructions
            },
{
    let mut i: usize = 0;
    while i < streams.len()
        invariant
            i <= streams@.len(),
            streams@.len() == old(streams)@.len(),
            forall|s: int|
                0 <= s < streams@.len() ==> {
                    &&& (#[trigger] streams@[s]).id == old(streams)@[s].id
                    &&& streams@[s].dependencies == old(streams)@[s].dependencies
                    &&& streams@[s].instructions == old(streams)@[s].instructions
                },
            forall|s: int| 0 <= s < i ==> (#[trigger] streams@[s]).state == StreamState::Unreached,
        decreases streams@.len() - i,
    {
        let target = &mut streams[i];
        target.state = StreamState::Unreached;
        i += 1;
    }
}

/// The program that a list of instructions stands for, by their views.
pub open spec fn program_of_views(list: Seq<InstructionView>) -> Program {
    Seq::new(list.len(), |i: int| (list[i].inputs, list[i].outputs))
}

/// For each instruction, the operands it reads and the operands it writes.
pub fn make_simple_instructions(instructions: &Vec<Instruction>) -> (simple: Vec<
    (Vec<usize>, Vec<usize>),
>)
    ensures
        program_of(simple@) == program_of_views(views(instructions@)),
{
    let mut simple: Vec<(Vec<usize>, Vec<usize>)> = Vec::new();
    let mut i: usize = 0;
    while i < instructions.len()
        invariant
            i <= instructions@.len(),
            simple@.len() == i,
            forall|m: int|
                0 <= m < i ==> (#[trigger] simple@[m]).0@ == instructions@[m]@.inputs
                    && simple@[m].1@ == instructions@[m]@.outputs,
        decreases instructions@.len() - i,
    {
        let inputs = copy_operands(instructions[i].inputs());
        let outputs = copy_operands(instructions[i].outputs());
        simple.push((inputs, outputs));
        i += 1;
    }
    assert(program_of(simple@) =~= program_of_views(views(instructions@)));
    simple
}

/// Whether instruction `i` writes to machine input `m`.
pub open spec fn writes_input(program: Program, machine_inputs: Seq<usize>, m: int, i: int) -> bool {
    &&& 0 <= m < machine_inputs.len()
    &&& 0 <= i < program.len()
    &&& program[i].1.contains(machine_inputs[m])
}

/// Whether no instruction writes to a machine input.
pub open spec fn spares_inputs(program: Program, machine_inputs: Seq<usize>) -> bool {
    forall|m: int, i: int| !writes_input(program, machine_inputs, m, i)
}

/// Whether machine input `m` is the first that is written to, and
/// instruction `i` the first that writes to it.
pub open spec fn first_write(program: Program, machine_inputs: Seq<usize>, m: int, i: int) -> bool {
    &&& writes_input(program, machine_inputs, m, i)
    &&& forall|earlier: int, any: int|
        earlier < m ==> !writes_input(program, machine_inputs, earlier, any)
    &&& forall|before: int| before < i ==> !writes_input(program, machine_inputs, m, before)
}

/// Whether `error` names the first machine input that is written to and the
/// first instruction that writes to it.
pub open spec fn reports_write(error: Error, program: Program, machine_inputs: Seq<usize>) -> bool {
    &&& error is MachineInputWritten
    &&& exists|m: int|
        error->operand == machine_inputs[m] && #[trigger] first_write(
            program,
            machine_inputs,
            m,
            error->instruction as int,
        )
}

/// Makes sure that no instruction writes to a machine input, an operand
/// that the caller owns and the program may only read. The error names the
/// first machine input that is written to and the first instruction that
/// writes to it.
pub fn verify_machine_inputs(
    machine_inputs: &[usize],
    instructions: &[(Vec<usize>, Vec<usize>)],
) -> (result: Result<(), Error>)
    ensures
        result is Ok <==> spares_inputs(program_of(instructions@), machine_inputs@),
        result is Err ==> reports_write(
            result->Err_0,
            program_of(instructions@),
            machine_inputs@,
        ),
{
    let ghost program = program_of(instructions@);
    let mut m: usize = 0;
    while m < machine_inputs.len()
        invariant
            m <= machine_inputs@.len(),
            program == program_of(instructions@),
            forall|earlier: int, i: int|
                earlier < m ==> !writes_input(program, machine_inputs@, earlier, i),
        decreases machine_inputs@.len() - m,
    {
        let machine_input = machine_inputs[m];
        let mut i: usize = 0;
        while i < instructions.len()
            invariant
                m < machine_inputs@.len(),
                machine_input == machine_inputs@[m as int],
                i <= instructions@.len(),
                program == program_of(instructions@),
                forall|earlier: int, i: int|
                    earlier < m ==> !writes_input(program, machine_inputs@, earlier, i),
                forall|before: int| before < i ==> !writes_input(
                    program,
                    machine_inputs@,
                    m as int,
                    before,
                ),
            decreases instructions@.len() - i,
        {
            if contains_operand(&instructions[i].1, machine_input) {
                let error = Error::MachineInputWritten { instruction: i, operand: machine_input };
                assert(first_write(program, machine_inputs@, m as int, error->instruction as int));
                return Err(error);
            }
            i += 1;
        }
        m += 1;
    }
    Ok(())
}

} // verus!
