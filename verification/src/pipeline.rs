//! The pipeline: scheduler and execution unit at work on a whole program.
//!
//! The execution unit takes streams from the dispatch queue, has a handler
//! run them and reports them on the completion queue. Scheduler and unit take
//! turns here, which gives the order in which one execution unit runs the
//! streams when it is fed by one scheduler through first-in first-out
//! queues.

use crate::dependencies::program_of;
use crate::dispatch::{
    dispatched, freed, holds_ready, lemma_all_ran, lemma_can_retire, lemma_dispatched_grows,
    lemma_freed_keeps_ready, lemma_idle, lemma_pipeline_order_is_complete, lemma_progress,
    lemma_released_is_freed, lemma_retired, lemma_run_next, pipeline_order,
};
use crate::error::Error;
use crate::handlers::{
    advances, all_below, fails, instructions_along, stopped_within, StreamEventHandler,
    StreamExecutor, TransactionEmitter,
};
use crate::instruction::{carries_out, lemma_carries_out_nothing, Instruction, Operator};
use crate::schedule::{complete_schedule, execution, valid_schedule};
use crate::scheduler::{
    idle, lemma_sources, released, schedulable, unresolved, Scheduler, STOP,
};
use crate::streams::Stream;
use crate::transaction::{transactions_along, Transaction};
use std::collections::VecDeque;
use vstd::prelude::*;

verus! {

/// What runs the streams that the scheduler dispatches.
pub struct ExecutionUnit<'a, Handler: StreamEventHandler> {
    pub handler: Handler,
    pub streams: &'a Vec<Stream>,
    pub instructions: &'a Vec<Instruction>,
}

impl<'a, Handler: StreamEventHandler> ExecutionUnit<'a, Handler> {
    /// An execution unit that has this handler run the streams.
    pub fn new(
        handler: Handler,
        streams: &'a Vec<Stream>,
        instructions: &'a Vec<Instruction>,
    ) -> (unit: Self)
        ensures
            unit.handler == handler,
            unit.streams == streams,
            unit.instructions == instructions,
    {
        ExecutionUnit { handler, streams, instructions }
    }

    /// Gives the handler back.
    pub fn into_handler(self) -> (handler: Handler)
        ensures
            handler == self.handler,
    {
        self.handler
    }

    /// Takes one entry from the dispatch queue, if there is one. On the stop
    /// token it returns false. Any other entry is a stream: the handler runs
    /// it, and the stream goes on the completion queue. A failure of the
    /// handler is handed on, and the stream is not reported as done.
    pub fn step(
        &mut self,
        dispatch_queue: &mut VecDeque<usize>,
        completion_queue: &mut VecDeque<usize>,
    ) -> (result: Result<bool, Error>)
        requires
            old(dispatch_queue)@.len() > 0 && old(dispatch_queue)@[0] != STOP ==> {
                &&& old(dispatch_queue)@[0] < old(self).streams@.len()
                &&& old(self).handler.can_handle(
                    old(self).streams@,
                    old(self).instructions@,
                    old(dispatch_queue)@[0],
                )
            },
        ensures
            final(self).streams == old(self).streams,
            final(self).instructions == old(self).instructions,
            old(dispatch_queue)@.len() == 0 ==> {
                &&& result == Ok::<bool, Error>(true)
                &&& final(self).handler == old(self).handler
                &&& final(dispatch_queue)@ == old(dispatch_queue)@
                &&& final(completion_queue)@ == old(completion_queue)@
            },
            old(dispatch_queue)@.len() > 0 ==> final(dispatch_queue)@ == old(dispatch_queue)@.skip(
                1,
            ),
            old(dispatch_queue)@.len() > 0 && old(dispatch_queue)@[0] == STOP ==> {
                &&& result == Ok::<bool, Error>(false)
                &&& final(self).handler == old(self).handler
                &&& final(completion_queue)@ == old(completion_queue)@
            },
            old(dispatch_queue)@.len() > 0 && old(dispatch_queue)@[0] != STOP ==> {
                &&& !Handler::may_fail() ==> result is Ok
                &&& result is Ok ==> {
                    &&& result == Ok::<bool, Error>(true)
                    &&& advances(
                        old(self).handler,
                        old(self).streams@,
                        old(self).instructions@,
                        old(dispatch_queue)@[0],
                        final(self).handler,
                    )
                    &&& final(completion_queue)@ == old(completion_queue)@.push(
                        old(dispatch_queue)@[0],
                    )
                }
                &&& result is Err ==> {
                    &&& fails(
                        old(self).handler,
                        old(self).streams@,
                        old(self).instructions@,
                        old(dispatch_queue)@[0],
                        final(self).handler,
                        result->Err_0,
                    )
                    &&& final(completion_queue)@ == old(completion_queue)@
                }
            },
    {
        let stream = dispatch_queue.pop_front();
        if let Some(stream) = stream {
            if stream == STOP {
                return Ok(false);
            }
            match self.handler.on_execute(self.streams, self.instructions, stream) {
                Ok(()) => {},
                Err(error) => {
                    return Err(error);
                },
            }
            completion_queue.push_back(stream);
        }
        Ok(true)
    }
}

/// Whether the handler stands where all streams have run, in the order of
/// the pipeline.
pub open spec fn ran_all<Handler: StreamEventHandler>(
    handler: Handler,
    initial: Handler,
    streams: Seq<Stream>,
    instructions: Seq<Instruction>,
) -> bool {
    &&& complete_schedule(streams, pipeline_order(streams))
    &&& handler.reached(initial, streams, instructions, pipeline_order(streams))
}

/// Whether the handler stands where some streams have run, in the order of
/// the pipeline, and the run of the next stream has failed with `error`.
pub open spec fn ran_some<Handler: StreamEventHandler>(
    handler: Handler,
    initial: Handler,
    streams: Seq<Stream>,
    instructions: Seq<Instruction>,
    error: Error,
) -> bool {
    exists|k: int|
        0 <= k < pipeline_order(streams).len() && valid_schedule(
            streams,
            pipeline_order(streams).take(k + 1),
        ) && #[trigger] handler.stopped(
            initial,
            streams,
            instructions,
            pipeline_order(streams).take(k),
            pipeline_order(streams)[k],
            error,
        )
}

/// Runs all streams: the scheduler dispatches them, the execution unit has
/// `handler` run them in the order in which they are dispatched. That order
/// is a valid schedule that leaves no stream out. The first failure of the
/// handler ends the run and is returned.
pub fn run_streams<Handler: StreamEventHandler>(
    streams: &Vec<Stream>,
    instructions: &Vec<Instruction>,
    handler: Handler,
) -> (result: (Handler, Result<(), Error>))
    requires
        schedulable(streams@),
        handler.reached(handler, streams@, instructions@, Seq::empty()),
        forall|s: usize| s < streams@.len() ==> handler.can_handle(streams@, instructions@, s),
    ensures
        !Handler::may_fail() ==> result.1 is Ok,
        result.1 is Ok ==> ran_all(result.0, handler, streams@, instructions@),
        result.1 is Err ==> ran_some(
            result.0,
            handler,
            streams@,
            instructions@,
            result.1->Err_0,
        ),
{
    let n = streams.len();
    let mut unit = ExecutionUnit::new(handler, streams, instructions);
    let mut dispatch_queue: VecDeque<usize> = VecDeque::new();
    let mut completion_queue: VecDeque<usize> = VecDeque::new();
    let mut scheduler = Scheduler::new(streams.as_slice(), &mut dispatch_queue);
    let ghost mut order: Seq<usize> = Seq::empty();
    let ghost mut done: Seq<usize> = Seq::empty();
    proof {
        lemma_idle(scheduler.pending(), n as int);
        lemma_sources(streams@, scheduler.pending(), n as int);
        assert(dispatch_queue@ == idle(scheduler.pending(), n as int));
        assert forall|u: usize| u < n implies (#[trigger] dispatch_queue@.contains(u) <==> (
        !order.contains(u) && unresolved(streams@[u as int].dependencies@, done) == 0)) by {
            assert(scheduler.pending()[u as int] == unresolved(
                streams@[u as int].dependencies@,
                done,
            ));
        }
        assert forall|k: int| 0 <= k < dispatch_queue@.len() implies (#[trigger] dispatch_queue@[k])
            < n by {
            assert(dispatch_queue@.contains(dispatch_queue@[k]));
        }
        assert(order =~= dispatched(streams@, 0).take(0));
        assert(dispatch_queue@ =~= dispatched(streams@, 0).skip(0));
    }
    loop
        invariant_except_break
            order.len() == 0 ==> done == order && completion_queue@.len() == 0,
            order.len() > 0 ==> order == done.push(order.last()) && completion_queue@ == seq![
                order.last(),
            ],
            holds_ready(dispatch_queue@, streams@, order, done),
            scheduler.tracks(streams@, done),
            order.len() <= dispatched(streams@, done.len()).len(),
            order == dispatched(streams@, done.len()).take(order.len() as int),
            dispatch_queue@ == dispatched(streams@, done.len()).skip(order.len() as int),
        invariant
            n == streams@.len(),
            schedulable(streams@),
            unit.streams == streams,
            unit.instructions == instructions,
            valid_schedule(streams@, order),
            order.len() <= n,
            unit.handler.reached(handler, streams@, instructions@, order),
            forall|s: usize|
                s < streams@.len() ==> unit.handler.can_handle(streams@, instructions@, s),
        ensures
            order.len() == n,
            order == pipeline_order(streams@),
        decreases n - order.len(),
    {
        let ghost scheduler_before = scheduler;
        let ghost queue_before = dispatch_queue@;
        let ghost before = dispatched(streams@, done.len());
        proof {
            if order.len() > 0 {
                let c = order.last();
                assert(order[done.len() as int] == c);
                assert(c < n);
                if done.contains(c) {
                    let at = choose|at: int| 0 <= at < done.len() && done[at] == c;
                    assert(order[at] == order[done.len() as int]);
                }
                lemma_can_retire(scheduler, streams@, done, c);
            }
        }
        let more = scheduler.step(&mut completion_queue, &mut dispatch_queue);
        proof {
            if order.len() > 0 {
                let c = order.last();
                lemma_retired(scheduler_before, scheduler, streams@, done, c);
                lemma_released_is_freed(scheduler_before, streams@, done, c);
                lemma_freed_keeps_ready(streams@, done, c, queue_before);
                assert(completion_queue@ =~= Seq::empty());
                assert(before[done.len() as int] == c);
                assert(before.take(done.len() as int) =~= done);
                let after = dispatched(streams@, order.len());
                assert(after == before + freed(streams@, done, c, n as int));
                assert(order =~= after.take(order.len() as int));
                assert(queue_before + freed(streams@, done, c, n as int) =~= after.skip(
                    order.len() as int,
                ));
            }
            done = order;
            let ready = if order.len() == 0 {
                queue_before
            } else {
                queue_before + released(
                    scheduler_before.dependents()[order.last() as int],
                    scheduler_before.pending(),
                )
            };
            assert(holds_ready(ready, streams@, order, order));
            assert(ready == dispatched(streams@, order.len()).skip(order.len() as int));
            if order.len() < n {
                lemma_progress(streams@, order, ready);
                assert(dispatch_queue@ == ready);
                assert(dispatch_queue@[0] < n);
                assert(dispatch_queue@[0] != STOP);
                lemma_run_next(streams@, order, ready);
            } else {
                lemma_all_ran(streams@, order, ready);
                assert(dispatch_queue@ == ready.push(STOP));
                assert(dispatch_queue@[0] == STOP);
                assert(order =~= dispatched(streams@, n as nat));
            }
        }
        let ghost next = dispatch_queue@[0];
        let ghost handler_before = unit.handler;
        match unit.step(&mut dispatch_queue, &mut completion_queue) {
            Err(error) => {
                let after = unit.into_handler();
                proof {
                    let k = order.len() as int;
                    let so_far = dispatched(streams@, order.len());
                    assert(fails(handler_before, streams@, instructions@, next, after, error));
                    assert(handler_before.reached(handler, streams@, instructions@, order));
                    assert(so_far[k] == next);
                    lemma_dispatched_grows(streams@, order.len(), n as nat);
                    let all = pipeline_order(streams@);
                    assert(all.take(so_far.len() as int) == so_far);
                    assert(all[k] == so_far[k]);
                    assert(all.take(k) =~= order);
                    assert(all.take(k + 1) =~= order.push(next));
                    assert(after.stopped(
                        handler,
                        streams@,
                        instructions@,
                        all.take(k),
                        all[k],
                        error,
                    ));
                }
                return (after, Err(error));
            },
            Ok(false) => {
                break ;
            },
            Ok(true) => {},
        }
        proof {
            assert(advances(handler_before, streams@, instructions@, next, unit.handler));
            assert(handler_before.reached(handler, streams@, instructions@, order));
            assert forall|s: usize| s < streams@.len() implies unit.handler.can_handle(
                streams@,
                instructions@,
                s,
            ) by {
                assert(handler_before.can_handle(streams@, instructions@, s));
            }
            let so_far = dispatched(streams@, done.len());
            assert(so_far[order.len() as int] == next);
            order = order.push(next);
            assert(order.last() == next);
            assert(order == done.push(order.last()));
            assert(completion_queue@ =~= seq![next]);
            assert(order =~= so_far.take(order.len() as int));
            assert(dispatch_queue@ =~= so_far.skip(order.len() as int));
        }
    }
    let after = unit.into_handler();
    (after, Ok(()))
}

/// Whether every stream names instructions below `bound` only.
pub open spec fn instructions_below(streams: Seq<Stream>, bound: nat) -> bool {
    forall|s: int| 0 <= s < streams.len() ==> all_below((#[trigger] streams[s]).instructions@, bound)
}

/// Whether every stream names instructions below `bound` only.
pub fn names_instructions_below(streams: &Vec<Stream>, bound: usize) -> (fine: bool)
    ensures
        fine == instructions_below(streams@, bound as nat),
{
    let mut s: usize = 0;
    while s < streams.len()
        invariant
            s <= streams@.len(),
            forall|t: int|
                0 <= t < s ==> all_below((#[trigger] streams@[t]).instructions@, bound as nat),
        decreases streams@.len() - s,
    {
        let mut k: usize = 0;
        while k < streams[s].instructions.len()
            invariant
                s < streams@.len(),
                k <= streams@[s as int].instructions@.len(),
                forall|m: int| 0 <= m < k ==> (#[trigger] streams@[s as int].instructions@[m]) < bound,
            decreases streams@[s as int].instructions@.len() - k,
        {
            if streams[s].instructions[k] >= bound {
                assert(!all_below(streams@[s as int].instructions@, bound as nat));
                return false;
            }
            k += 1;
        }
        s += 1;
    }
    true
}

/// Whether `after` is `before` once the first `k` streams have run, in the
/// order of the pipeline, and the run of the next stream has failed with
/// `error`.
pub open spec fn failed_at<Operators: Operator>(
    before: Operators,
    after: Operators,
    streams: Seq<Stream>,
    instructions: Seq<Instruction>,
    k: int,
    error: Error,
) -> bool {
    &&& 0 <= k < pipeline_order(streams).len()
    &&& pipeline_order(streams)[k] < streams.len()
    &&& valid_schedule(streams, pipeline_order(streams).take(k + 1))
    &&& stopped_within(
        before,
        after,
        instructions_along(execution(streams, pipeline_order(streams).take(k)), instructions),
        streams[pipeline_order(streams)[k] as int].instructions@,
        instructions,
        error,
    )
}

/// Runs a program stream by stream on the operator layer, in the order in
/// which the scheduler dispatches the streams, and gives the operator layer
/// back. The first instruction that fails ends the run. One execution unit
/// runs one stream at a time, so `max_concurrent_streams` changes nothing.
pub fn execute_streams<Operators: Operator>(
    streams: &Vec<Stream>,
    instructions: &Vec<Instruction>,
    max_concurrent_streams: usize,
    operators: Operators,
) -> (result: (Operators, Result<(), Error>))
    requires
        schedulable(streams@),
        instructions_below(streams@, instructions@.len()),
    ensures
        complete_schedule(streams@, pipeline_order(streams@)),
        !Operators::may_fail() ==> result.1 is Ok,
        result.1 is Ok ==> carries_out(
            operators,
            instructions_along(execution(streams@, pipeline_order(streams@)), instructions@),
            result.0,
        ),
        result.1 is Err ==> exists|k: int| #[trigger]
            failed_at(operators, result.0, streams@, instructions@, k, result.1->Err_0),
{
    let n = streams.len();
    let handler = StreamExecutor::new(operators);
    let ghost initial = handler;
    proof {
        assert(execution(streams@, Seq::empty()) =~= Seq::empty());
        assert(instructions_along(execution(streams@, Seq::empty()), instructions@)
            =~= Seq::empty());
        lemma_carries_out_nothing(operators);
        assert forall|s: usize| s < streams@.len() implies handler.can_handle(
            streams@,
            instructions@,
            s,
        ) by {
            assert(all_below(streams@[s as int].instructions@, instructions@.len()));
        }
        lemma_pipeline_order_is_complete(streams@);
    }
    let (handler, outcome) = run_streams(streams, instructions, handler);
    proof {
        if outcome is Err {
            let error = outcome->Err_0;
            let all = pipeline_order(streams@);
            let k = choose|k: int|
                0 <= k < all.len() && valid_schedule(streams@, all.take(k + 1))
                    && #[trigger] handler.stopped(
                    initial,
                    streams@,
                    instructions@,
                    all.take(k),
                    all[k],
                    error,
                );
            assert(handler.stopped(initial, streams@, instructions@, all.take(k), all[k], error));
            assert(failed_at(operators, handler.operators, streams@, instructions@, k, error));
        }
    }
    let ghost stopped = handler.operators;
    let result = (handler.into_operators(), outcome);
    proof {
        if result.1 is Err {
            let error = result.1->Err_0;
            let k = choose|k: int| #[trigger]
                failed_at(operators, stopped, streams@, instructions@, k, error);
            assert(result.0 == stopped);
            assert(failed_at(operators, result.0, streams@, instructions@, k, error));
        }
    }
    result
}

/// Runs a program stream by stream without computing anything, and returns
/// the accesses to operands in the order in which they would happen: those
/// of the instructions as the pipeline runs them.
pub fn simulate_execution_and_collect_transactions(
    streams: &Vec<Stream>,
    instructions: &Vec<Instruction>,
    simple_instructions: &Vec<(Vec<usize>, Vec<usize>)>,
    max_concurrent_streams: usize,
) -> (transactions: Vec<Transaction>)
    requires
        schedulable(streams@),
        instructions_below(streams@, simple_instructions@.len()),
    ensures
        complete_schedule(streams@, pipeline_order(streams@)),
        transactions@ == transactions_along(
            execution(streams@, pipeline_order(streams@)),
            program_of(simple_instructions@),
        ),
{
    let handler = TransactionEmitter::new(streams.as_slice(), simple_instructions);
    let ghost initial = handler;
    proof {
        assert(execution(streams@, Seq::empty()) =~= Seq::empty());
        assert(handler.actual_transactions@ + transactions_along(
            execution(streams@, Seq::empty()),
            handler.program(),
        ) =~= handler.actual_transactions@);
        assert forall|s: usize| s < streams@.len() implies handler.can_handle(
            streams@,
            instructions@,
            s,
        ) by {
            assert(all_below(streams@[s as int].instructions@, simple_instructions@.len()));
        }
    }
    let (handler, outcome) = run_streams(streams, instructions, handler);
    proof {
        assert(Seq::<Transaction>::empty() + transactions_along(
            execution(streams@, pipeline_order(streams@)),
            program_of(simple_instructions@),
        ) =~= transactions_along(
            execution(streams@, pipeline_order(streams@)),
            program_of(simple_instructions@),
        ));
    }
    handler.actual_transactions
}

} // verus!
