//! Running the streams by their numbers, with a bound on how many are
//! active at once.
//!
//! A stream is spawned when its turn comes. Before that, the streams it
//! depends on are joined if they are still active, and if as many streams
//! are active as the bound allows, the oldest of them is joined. In the end
//! all streams that are still active are joined.

use crate::error::Error;
use crate::handlers::{all_below, execute_stream, instructions_along, stopped_within};
use crate::instruction::{
    carries_out, fails_at, lemma_carries_out_both, lemma_carries_out_nothing, lemma_fails_after,
    Instruction, InstructionView, Operator,
};
use crate::pairs::lemma_keys_are_ordered;
use crate::pipeline::instructions_below;
use crate::schedule::{complete_schedule, execution, lemma_numbered_order_is_valid};
use crate::scheduler::schedulable;
use crate::sequences::lemma_take_next;
use crate::streams::{Stream, StreamState};
use crate::transaction::program_order;
use std::collections::BTreeSet;
use vstd::prelude::*;

verus! {

/// Whether `after` are the streams `before`, whatever their states.
pub open spec fn same_streams(before: Seq<Stream>, after: Seq<Stream>) -> bool {
    &&& after.len() == before.len()
    &&& forall|s: int|
        0 <= s < before.len() ==> {
            &&& (#[trigger] after[s]).id == before[s].id
            &&& after[s].dependencies == before[s].dependencies
            &&& after[s].instructions == before[s].instructions
        }
}

/// Whether `active` holds the streams that are spawned and not joined.
pub open spec fn lists_active(active: Set<usize>, streams: Seq<Stream>) -> bool {
    forall|s: usize| #[trigger]
        active.contains(s) <==> (s < streams.len() && streams[s as int].state
            == StreamState::Spawned)
}

/// Whether the streams below `next` have been spawned and the others have
/// not.
pub open spec fn spawned_below(streams: Seq<Stream>, next: int) -> bool {
    forall|s: int|
        0 <= s < streams.len() ==> if s < next {
            (#[trigger] streams[s]).state != StreamState::Unreached
        } else {
            streams[s].state == StreamState::Unreached
        }
}

/// Whether `x` is the least number of `set`.
pub open spec fn is_least(set: Set<usize>, x: usize) -> bool {
    set.contains(x) && forall|y: usize| set.contains(y) ==> x <= y
}

/// The least number of a set that has one.
pub open spec fn least(set: Set<usize>) -> usize {
    choose|x: usize| is_least(set, x)
}

/// Whether `set` holds a number.
pub open spec fn occupied(set: Set<usize>) -> bool {
    exists|x: usize| set.contains(x)
}

/// The streams that are active once the streams below `next` are spawned,
/// with room for `bound` active streams. To spawn a stream, the streams it
/// depends on leave the active ones; if `bound` streams are still active,
/// the oldest of them, the one with the least number, leaves; then the
/// stream joins them.
pub open spec fn active_after(streams: Seq<Stream>, bound: usize, next: int) -> Set<usize>
    decreases next,
{
    if next <= 0 {
        Set::empty()
    } else {
        let waiting = active_after(streams, bound, next - 1).difference(
            streams[next - 1].dependencies@.to_set(),
        );
        let room = if waiting.len() == bound && occupied(waiting) {
            waiting.remove(least(waiting))
        } else {
            waiting
        };
        room.insert((next - 1) as usize)
    }
}

/// Whether the states of `after` are those of a run that has spawned the
/// streams up to `failing` and stopped there: the later streams are
/// unreached, the active ones spawned, the others joined.
pub open spec fn stopped_states(
    after: Seq<Stream>,
    streams: Seq<Stream>,
    bound: usize,
    failing: int,
) -> bool {
    forall|s: int|
        0 <= s < after.len() ==> (#[trigger] after[s]).state == if s > failing {
            StreamState::Unreached
        } else if active_after(streams, bound, failing + 1).contains(s as usize) {
            StreamState::Spawned
        } else {
            StreamState::Joined
        }
}

/// Whether `after` is `before` once all streams below `stream` have run,
/// by their numbers, and the run of `stream` has failed with `error`.
pub open spec fn failed_in<Operators: Operator>(
    before: Operators,
    after: Operators,
    streams: Seq<Stream>,
    instructions: Seq<Instruction>,
    stream: int,
    error: Error,
) -> bool {
    &&& 0 <= stream < streams.len()
    &&& stopped_within(
        before,
        after,
        instructions_along(execution(streams, program_order(stream as nat)), instructions),
        streams[stream].instructions@,
        instructions,
        error,
    )
}

/// Whether a run has stopped in `stream`: the streams below it have run, by
/// their numbers, the run of `stream` has failed with `error`, and the
/// states of the streams are those of that moment.
pub open spec fn stopped_in<Operators: Operator>(
    before: Operators,
    after: Operators,
    streams: Seq<Stream>,
    streams_after: Seq<Stream>,
    instructions: Seq<Instruction>,
    bound: usize,
    stream: int,
    error: Error,
) -> bool {
    &&& failed_in(before, after, streams, instructions, stream, error)
    &&& stopped_states(streams_after, streams, bound, stream)
}

/// A set has one least number at most.
pub proof fn lemma_least(set: Set<usize>, x: usize)
    requires
        is_least(set, x),
    ensures
        least(set) == x,
{
    let y = least(set);
    assert(is_least(set, y));
}

/// The oldest of the active streams, if any is active.
fn oldest(active_streams: &BTreeSet<usize>) -> (found: Option<usize>)
    ensures
        match found {
            Some(x) => is_least(active_streams@, x),
            None => !occupied(active_streams@),
        },
{
    broadcast use vstd::std_specs::btree::group_btree_axioms;

    proof {
        lemma_keys_are_ordered();
    }
    let mut best: Option<usize> = None;
    for x in it: active_streams.iter()
        invariant
            it.seq().unref().to_set() == active_streams@,
            match best {
                Some(b) => it.seq().unref().take(it.index()).contains(b) && forall|m: int|
                    0 <= m < it.index() ==> b <= it.seq().unref()[m],
                None => it.index() == 0,
            },
    {
        let ghost seen = it.seq().unref();
        assert(seen[it.index()] == *x);
        match best {
            Some(b) => {
                if *x < b {
                    best = Some(*x);
                }
            },
            None => {
                best = Some(*x);
            },
        }
        proof {
            let more = seen.take(it.index() + 1);
            assert(more =~= seen.take(it.index()).push(*x));
            assert(more[it.index()] == *x);
            if let Some(b) = best {
                if b != *x {
                    let at = choose|at: int|
                        0 <= at < it.index() && seen.take(it.index())[at] == b;
                    assert(more[at] == b);
                }
            }
        }
    }
    best
}

/// Sets the state of one stream.
fn set_state(streams: &mut Vec<Stream>, stream: usize, state: StreamState)
    requires
        stream < old(streams)@.len(),
    ensures
        same_streams(old(streams)@, final(streams)@),
        final(streams)@[stream as int].state == state,
        forall|s: int|
            0 <= s < old(streams)@.len() && s != stream ==> (#[trigger] final(streams)@[s]).state
                == old(streams)@[s].state,
{
    let target = &mut streams[stream];
    target.state = state;
}

/// Joins a stream that is active: it is done after that, and active no
/// more.
fn join_stream(stream: usize, streams: &mut Vec<Stream>, active_streams: &mut BTreeSet<usize>)
    requires
        stream < old(streams)@.len(),
        old(streams)@[stream as int].state == StreamState::Spawned,
        lists_active(old(active_streams)@, old(streams)@),
    ensures
        same_streams(old(streams)@, final(streams)@),
        final(streams)@[stream as int].state == StreamState::Joined,
        forall|s: int|
            0 <= s < old(streams)@.len() && s != stream ==> (#[trigger] final(streams)@[s]).state
                == old(streams)@[s].state,
        lists_active(final(active_streams)@, final(streams)@),
        final(active_streams)@ == old(active_streams)@.remove(stream),
{
    broadcast use vstd::std_specs::btree::group_btree_axioms;

    proof {
        lemma_keys_are_ordered();
    }
    set_state(streams, stream, StreamState::Joined);
    active_streams.remove(&stream);
    assert forall|s: usize| #[trigger]
        active_streams@.contains(s) <==> (s < streams@.len() && streams@[s as int].state
            == StreamState::Spawned) by {
        assert(old(active_streams)@.contains(s) <==> (s < old(streams)@.len() && old(
            streams,
        )@[s as int].state == StreamState::Spawned));
    }
}

/// Spawns a stream that has not started: it is active after that, and its
/// instructions run, up to the first that fails.
fn spawn_stream<Operators: Operator>(
    stream: usize,
    streams: &mut Vec<Stream>,
    instructions: &Vec<Instruction>,
    active_streams: &mut BTreeSet<usize>,
    operators: &mut Operators,
) -> (result: Result<(), Error>)
    requires
        stream < old(streams)@.len(),
        old(streams)@[stream as int].state == StreamState::Unreached,
        lists_active(old(active_streams)@, old(streams)@),
        instructions_below(old(streams)@, instructions@.len()),
    ensures
        same_streams(old(streams)@, final(streams)@),
        final(streams)@[stream as int].state == StreamState::Spawned,
        forall|s: int|
            0 <= s < old(streams)@.len() && s != stream ==> (#[trigger] final(streams)@[s]).state
                == old(streams)@[s].state,
        lists_active(final(active_streams)@, final(streams)@),
        final(active_streams)@ == old(active_streams)@.insert(stream),
        !Operators::may_fail() ==> result is Ok,
        result is Ok ==> carries_out(
            *old(operators),
            instructions_along(old(streams)@[stream as int].instructions@, instructions@),
            *final(operators),
        ),
        result is Err ==> stopped_within(
            *old(operators),
            *final(operators),
            Seq::empty(),
            old(streams)@[stream as int].instructions@,
            instructions@,
            result->Err_0,
        ),
{
    broadcast use vstd::std_specs::btree::group_btree_axioms;

    proof {
        lemma_keys_are_ordered();
    }
    set_state(streams, stream, StreamState::Spawned);
    active_streams.insert(stream);
    proof {
        assert forall|s: usize| #[trigger]
            active_streams@.contains(s) <==> (s < streams@.len() && streams@[s as int].state
                == StreamState::Spawned) by {
            assert(old(active_streams)@.contains(s) <==> (s < old(streams)@.len() && old(
                streams,
            )@[s as int].state == StreamState::Spawned));
        }
        assert(streams@[stream as int].instructions == old(streams)@[stream as int].instructions);
        assert(all_below(old(streams)@[stream as int].instructions@, instructions@.len()));
    }
    execute_stream(&streams[stream], instructions, operators)
}

/// Runs all streams, by their numbers, which is a valid schedule. A stream
/// starts after the streams it depends on are joined; with as many streams
/// active as `max_concurrent_streams` allows, the oldest is joined first.
/// All instructions have run in the end, stream after stream, and all
/// streams are joined. The first instruction that fails ends the run: its
/// error is returned, and the streams stay as they are then, the active
/// ones spawned.
pub fn execute_streams<Operators: Operator>(
    streams: &mut Vec<Stream>,
    instructions: &Vec<Instruction>,
    max_concurrent_streams: usize,
    operators: &mut Operators,
) -> (result: Result<(), Error>)
    requires
        schedulable(old(streams)@),
        instructions_below(old(streams)@, instructions@.len()),
        spawned_below(old(streams)@, 0),
    ensures
        same_streams(old(streams)@, final(streams)@),
        complete_schedule(old(streams)@, program_order(old(streams)@.len())),
        !Operators::may_fail() ==> result is Ok,
        result is Ok ==> {
            &&& forall|s: int|
                0 <= s < final(streams)@.len() ==> (#[trigger] final(streams)@[s]).state
                    == StreamState::Joined
            &&& carries_out(
                *old(operators),
                instructions_along(
                    execution(old(streams)@, program_order(old(streams)@.len())),
                    instructions@,
                ),
                *final(operators),
            )
        },
        result is Err ==> exists|stream: int| #[trigger]
            stopped_in(
                *old(operators),
                *final(operators),
                old(streams)@,
                final(streams)@,
                instructions@,
                max_concurrent_streams,
                stream,
                result->Err_0,
            ),
{
    broadcast use vstd::std_specs::btree::group_btree_axioms;

    proof {
        lemma_keys_are_ordered();
    }
    let n = streams.len();
    let mut active_streams: BTreeSet<usize> = BTreeSet::new();
    let mut failure: Option<Error> = None;
    let mut i: usize = 0;
    proof {
        assert(execution(old(streams)@, program_order(0)) =~= Seq::empty());
        assert(instructions_along(Seq::empty(), instructions@) =~= Seq::empty());
        lemma_carries_out_nothing(*operators);
        lemma_numbered_order_is_valid(old(streams)@);
    }
    while i < n
        invariant_except_break
            failure is None,
            i <= n,
            spawned_below(streams@, i as int),
            active_streams@ == active_after(old(streams)@, max_concurrent_streams, i as int),
            carries_out(
                *old(operators),
                instructions_along(
                    execution(old(streams)@, program_order(i as nat)),
                    instructions@,
                ),
                *operators,
            ),
        invariant
            n == streams@.len(),
            same_streams(old(streams)@, streams@),
            schedulable(old(streams)@),
            instructions_below(old(streams)@, instructions@.len()),
            lists_active(active_streams@, streams@),
        ensures
            failure is Some ==> Operators::may_fail(),
            failure is None ==> i == n && spawned_below(streams@, n as int) && carries_out(
                *old(operators),
                instructions_along(
                    execution(old(streams)@, program_order(n as nat)),
                    instructions@,
                ),
                *operators,
            ),
            failure is Some ==> exists|stream: int| #[trigger]
                stopped_in(
                    *old(operators),
                    *operators,
                    old(streams)@,
                    streams@,
                    instructions@,
                    max_concurrent_streams,
                    stream,
                    failure->0,
                ),
        decreases n - i,
    {
        let ghost needs = old(streams)@[i as int].dependencies@;
        let ghost active_before = active_streams@;
        let dependencies = streams[i].dependencies.len();
        assert(streams@[i as int].dependencies == old(streams)@[i as int].dependencies);
        let mut j: usize = 0;
        assert(active_before.difference(needs.take(0).to_set()) =~= active_before);
        while j < dependencies
            invariant
                i < n,
                n == streams@.len(),
                j <= dependencies,
                dependencies == needs.len(),
                needs == old(streams)@[i as int].dependencies@,
                streams@[i as int].dependencies@ == needs,
                same_streams(old(streams)@, streams@),
                schedulable(old(streams)@),
                spawned_below(streams@, i as int),
                lists_active(active_streams@, streams@),
                active_streams@ == active_before.difference(needs.take(j as int).to_set()),
            decreases dependencies - j,
        {
            let dependency = streams[i].dependencies[j];
            assert(old(streams)@[i as int].dependencies@[j as int] < i);
            if streams[dependency].state == StreamState::Spawned {
                join_stream(dependency, streams, &mut active_streams);
            }
            proof {
                assert forall|x: usize|
                    needs.take(j + 1).to_set().contains(x) <==> (needs.take(
                        j as int,
                    ).to_set().contains(x) || x == dependency) by {
                    lemma_take_next(needs, j as int, x);
                }
                assert(active_streams@ =~= active_before.difference(
                    needs.take(j + 1).to_set(),
                ));
            }
            j += 1;
        }
        assert(needs.take(j as int) == needs);
        let ghost waiting = active_streams@;
        if active_streams.len() == max_concurrent_streams {
            if let Some(oldest) = oldest(&active_streams) {
                proof {
                    lemma_least(waiting, oldest);
                }
                join_stream(oldest, streams, &mut active_streams);
            }
        }
        proof {
            assert(instructions_below(streams@, instructions@.len())) by {
                assert forall|s: int| 0 <= s < streams@.len() implies crate::handlers::all_below(
                    (#[trigger] streams@[s]).instructions@,
                    instructions@.len(),
                ) by {
                    assert(crate::handlers::all_below(
                        old(streams)@[s].instructions@,
                        instructions@.len(),
                    ));
                }
            }
        }
        let ghost between = *operators;
        let ghost before = streams@;
        let ghost order = program_order(i as nat);
        let ghost next = program_order((i + 1) as nat);
        let ghost list = old(streams)@[i as int].instructions@;
        let ghost ran = instructions_along(execution(old(streams)@, order), instructions@);
        let outcome = spawn_stream(i, streams, instructions, &mut active_streams, operators);
        proof {
            assert(before[i as int].instructions == old(streams)@[i as int].instructions);
            assert(next.drop_last() == order);
            assert(next.last() == i);
            assert(execution(old(streams)@, next) == execution(old(streams)@, order) + list);
            assert(active_streams@ =~= active_after(
                old(streams)@,
                max_concurrent_streams,
                i + 1,
            ));
        }
        match outcome {
            Ok(()) => {},
            Err(error) => {
                failure = Some(error);
                proof {
                    let k = choose|k: int|
                        0 <= k < list.len() && fails_at(
                            between,
                            Seq::empty() + #[trigger] instructions_along(
                                list.take(k),
                                instructions@,
                            ),
                            instructions@[list[k] as int]@,
                            error,
                            *operators,
                        );
                    let part = instructions_along(list.take(k), instructions@);
                    assert(Seq::<InstructionView>::empty() + part =~= part);
                    lemma_fails_after(
                        *old(operators),
                        ran,
                        between,
                        part,
                        instructions@[list[k] as int]@,
                        error,
                        *operators,
                    );
                    assert(failed_in(
                        *old(operators),
                        *operators,
                        old(streams)@,
                        instructions@,
                        i as int,
                        failure->0,
                    ));
                    assert(stopped_in(
                        *old(operators),
                        *operators,
                        old(streams)@,
                        streams@,
                        instructions@,
                        max_concurrent_streams,
                        i as int,
                        failure->0,
                    )) by {
                        assert forall|s: int| 0 <= s < streams@.len() implies (
                        #[trigger] streams@[s]).state == if s > i {
                            StreamState::Unreached
                        } else if active_streams@.contains(s as usize) {
                            StreamState::Spawned
                        } else {
                            StreamState::Joined
                        } by {
                            if s != i {
                                assert(before[s].state == streams@[s].state);
                            }
                        }
                    }
                }
                break ;
            },
        }
        proof {
            let more = instructions_along(list, instructions@);
            assert(instructions_along(execution(old(streams)@, next), instructions@) =~= ran
                + more);
            lemma_carries_out_both(*old(operators), ran, between, more, *operators);
        }
        i += 1;
    }
    if let Some(error) = failure {
        proof {
            let stream = choose|stream: int| #[trigger]
                stopped_in(
                    *old(operators),
                    *operators,
                    old(streams)@,
                    streams@,
                    instructions@,
                    max_concurrent_streams,
                    stream,
                    failure->0,
                );
            assert(stopped_in(
                *old(operators),
                *operators,
                old(streams)@,
                streams@,
                instructions@,
                max_concurrent_streams,
                stream,
                error,
            ));
        }
        let result: Result<(), Error> = Err(error);
        assert(result->Err_0 == error);
        assert(exists|stream: int| #[trigger]
            stopped_in(
                *old(operators),
                *operators,
                old(streams)@,
                streams@,
                instructions@,
                max_concurrent_streams,
                stream,
                result->Err_0,
            ));
        result
    } else {
        let mut i: usize = 0;
        while i < n
            invariant
                i <= n,
                n == streams@.len(),
                same_streams(old(streams)@, streams@),
                spawned_below(streams@, n as int),
                lists_active(active_streams@, streams@),
                forall|s: int|
                    0 <= s < i ==> (#[trigger] streams@[s]).state == StreamState::Joined,
            decreases n - i,
        {
            if streams[i].state == StreamState::Spawned {
                join_stream(i, streams, &mut active_streams);
            }
            i += 1;
        }
        Ok(())
    }
}

} // verus!
