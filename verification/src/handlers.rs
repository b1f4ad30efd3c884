//! What happens when a stream runs.
//!
//! A handler is told which stream to run. One handler hands the
//! instructions of the stream to the operator layer; another only writes
//! down the accesses to operands that the stream makes.

use crate::dependencies::{program_of, Program};
use crate::error::Error;
use crate::instruction::{
    carries_out, copy_operands, fails_at, lemma_carries_out_both, lemma_carries_out_next,
    lemma_carries_out_nothing, lemma_fails_after, lemma_fails_next, Instruction,
    InstructionView, Operator,
};
use crate::schedule::execution;
use crate::sequences::lemma_take_next;
use crate::streams::Stream;
use crate::transaction::{
    append_transactions, get_instruction_transactions, lemma_transactions_along_concat,
    transactions_along, Transaction,
};
use vstd::prelude::*;

verus! {

/// What an execution unit calls to run a stream.
pub trait StreamEventHandler: Sized {
    /// Whether the handler can run this stream.
    open spec fn can_handle(
        &self,
        streams: Seq<Stream>,
        instructions: Seq<Instruction>,
        stream: usize,
    ) -> bool {
        true
    }

    /// Whether the handler stands where, since it was as `initial`, the
    /// streams of `order` have run, in that order. A handler that keeps no
    /// account says yes to everything.
    open spec fn reached(
        &self,
        initial: Self,
        streams: Seq<Stream>,
        instructions: Seq<Instruction>,
        order: Seq<usize>,
    ) -> bool {
        true
    }

    /// Whether the handler stands where, since it was as `initial`, the
    /// streams of `order` have run and the run of `stream` after them has
    /// failed with `error`.
    open spec fn stopped(
        &self,
        initial: Self,
        streams: Seq<Stream>,
        instructions: Seq<Instruction>,
        order: Seq<usize>,
        stream: usize,
        error: Error,
    ) -> bool {
        true
    }

    /// Whether running a stream can fail.
    open spec fn may_fail() -> bool {
        true
    }

    /// Runs one stream.
    fn on_execute(
        &mut self,
        streams: &Vec<Stream>,
        instructions: &Vec<Instruction>,
        stream: usize,
    ) -> (result: Result<(), Error>)
        requires
            stream < streams@.len(),
            old(self).can_handle(streams@, instructions@, stream),
        ensures
            !Self::may_fail() ==> result is Ok,
            result is Ok ==> forall|initial: Self, order: Seq<usize>| #[trigger]
                old(self).reached(initial, streams@, instructions@, order) ==> final(self).reached(
                    initial,
                    streams@,
                    instructions@,
                    order.push(stream),
                ),
            result is Ok ==> forall|other: usize| #[trigger]
                old(self).can_handle(streams@, instructions@, other) ==> final(self).can_handle(
                    streams@,
                    instructions@,
                    other,
                ),
            result is Err ==> forall|initial: Self, order: Seq<usize>| #[trigger]
                old(self).reached(initial, streams@, instructions@, order) ==> final(self).stopped(
                    initial,
                    streams@,
                    instructions@,
                    order,
                    stream,
                    result->Err_0,
                ),
    ;
}

/// Whether `after` is `before` with one more stream run.
pub open spec fn advances<Handler: StreamEventHandler>(
    before: Handler,
    streams: Seq<Stream>,
    instructions: Seq<Instruction>,
    stream: usize,
    after: Handler,
) -> bool {
    &&& forall|initial: Handler, order: Seq<usize>| #[trigger]
        before.reached(initial, streams, instructions, order) ==> after.reached(
            initial,
            streams,
            instructions,
            order.push(stream),
        )
    &&& forall|other: usize| #[trigger]
        before.can_handle(streams, instructions, other) ==> after.can_handle(
            streams,
            instructions,
            other,
        )
}

/// Whether `after` is `before` with a run of one more stream that failed
/// with `error`.
pub open spec fn fails<Handler: StreamEventHandler>(
    before: Handler,
    streams: Seq<Stream>,
    instructions: Seq<Instruction>,
    stream: usize,
    after: Handler,
    error: Error,
) -> bool {
    forall|initial: Handler, order: Seq<usize>| #[trigger]
        before.reached(initial, streams, instructions, order) ==> after.stopped(
            initial,
            streams,
            instructions,
            order,
            stream,
            error,
        )
}

/// Whether every entry of `list` is below `bound`.
pub open spec fn all_below(list: Seq<usize>, bound: nat) -> bool {
    forall|k: int| 0 <= k < list.len() ==> (#[trigger] list[k]) < bound
}

/// A copy of a program.
pub fn copy_program(instructions: &Vec<(Vec<usize>, Vec<usize>)>) -> (copy: Vec<
    (Vec<usize>, Vec<usize>),
>)
    ensures
        program_of(copy@) == program_of(instructions@),
{
    let mut copy: Vec<(Vec<usize>, Vec<usize>)> = Vec::new();
    let mut i: usize = 0;
    while i < instructions.len()
        invariant
            i <= instructions@.len(),
            copy@.len() == i,
            forall|m: int|
                0 <= m < i ==> (#[trigger] copy@[m]).0@ == instructions@[m].0@ && copy@[m].1@
                    == instructions@[m].1@,
        decreases instructions@.len() - i,
    {
        let inputs = copy_operands(&instructions[i].0);
        let outputs = copy_operands(&instructions[i].1);
        copy.push((inputs, outputs));
        i += 1;
    }
    assert(program_of(copy@) =~= program_of(instructions@));
    copy
}

/// A handler that runs nothing and writes down, for each stream it is
/// given, the accesses of the instructions of that stream.
pub struct TransactionEmitter {
    pub simple_instructions: Vec<(Vec<usize>, Vec<usize>)>,
    pub actual_transactions: Vec<Transaction>,
}

impl TransactionEmitter {
    /// The program whose accesses the emitter writes down.
    pub open spec fn program(&self) -> Program {
        program_of(self.simple_instructions@)
    }

    /// An emitter for this program that has written down nothing.
    pub fn new(_streams: &[Stream], simple_instructions: &Vec<(Vec<usize>, Vec<usize>)>) -> (emitter:
        Self)
        ensures
            emitter.program() == program_of(simple_instructions@),
            emitter.actual_transactions@ == Seq::<Transaction>::empty(),
    {
        TransactionEmitter {
            simple_instructions: copy_program(simple_instructions),
            actual_transactions: Vec::new(),
        }
    }
}

impl StreamEventHandler for TransactionEmitter {
    open spec fn can_handle(
        &self,
        streams: Seq<Stream>,
        instructions: Seq<Instruction>,
        stream: usize,
    ) -> bool {
        stream < streams.len() ==> all_below(
            streams[stream as int].instructions@,
            self.program().len(),
        )
    }

    open spec fn reached(
        &self,
        initial: Self,
        streams: Seq<Stream>,
        instructions: Seq<Instruction>,
        order: Seq<usize>,
    ) -> bool {
        &&& self.program() == initial.program()
        &&& self.actual_transactions@ == initial.actual_transactions@ + transactions_along(
            execution(streams, order),
            self.program(),
        )
    }

    open spec fn stopped(
        &self,
        initial: Self,
        streams: Seq<Stream>,
        instructions: Seq<Instruction>,
        order: Seq<usize>,
        stream: usize,
        error: Error,
    ) -> bool {
        false
    }

    open spec fn may_fail() -> bool {
        false
    }

    fn on_execute(
        &mut self,
        streams: &Vec<Stream>,
        instructions: &Vec<Instruction>,
        stream: usize,
    ) -> (result: Result<(), Error>)
        ensures
            final(self).program() == old(self).program(),
            final(self).actual_transactions@ == old(self).actual_transactions@ + transactions_along(
                streams@[stream as int].instructions@,
                old(self).program(),
            ),
    {
        let ghost program = self.program();
        let ghost list = streams@[stream as int].instructions@;
        let stream_instructions = &streams[stream].instructions;
        let mut k: usize = 0;
        while k < stream_instructions.len()
            invariant
                k <= list.len(),
                list == stream_instructions@,
                all_below(list, program.len()),
                self.simple_instructions == old(self).simple_instructions,
                program == program_of(self.simple_instructions@),
                self.actual_transactions@ == old(self).actual_transactions@ + transactions_along(
                    list.take(k as int),
                    program,
                ),
            decreases list.len() - k,
        {
            let instruction = stream_instructions[k];
            assert(list[k as int] < program.len());
            let more = get_instruction_transactions(
                instruction,
                self.simple_instructions[instruction].0.as_slice(),
                self.simple_instructions[instruction].1.as_slice(),
            );
            append_transactions(&mut self.actual_transactions, &more);
            proof {
                lemma_take_next(list, k as int, instruction);
                assert(list.take(k + 1).drop_last() == list.take(k as int));
                assert(list.take(k + 1).last() == instruction);
            }
            k += 1;
        }
        proof {
            assert(list.take(k as int) == list);
            assert forall|initial: Self, order: Seq<usize>| #[trigger]
                old(self).reached(initial, streams@, instructions@, order) implies self.reached(
                initial,
                streams@,
                instructions@,
                order.push(stream),
            ) by {
                assert(order.push(stream).drop_last() == order);
                assert(order.push(stream).last() == stream);
                lemma_transactions_along_concat(execution(streams@, order), list, program);
                let done = transactions_along(execution(streams@, order), program);
                let more = transactions_along(list, program);
                assert((initial.actual_transactions@ + done) + more == initial.actual_transactions@
                    + (done + more));
            }
        }
        Ok(())
    }
}

/// The instructions of `trace`, by their views.
pub open spec fn instructions_along(trace: Seq<usize>, instructions: Seq<Instruction>) -> Seq<
    InstructionView,
> {
    Seq::new(trace.len(), |y: int| instructions[trace[y] as int]@)
}

/// Whether `after` is `before` with the instructions of `done` carried out,
/// then some of the instructions of `list`, from the first on and in their
/// order, and the next instruction of `list` failed with `error`.
pub open spec fn stopped_within<Operators: Operator>(
    before: Operators,
    after: Operators,
    done: Seq<InstructionView>,
    list: Seq<usize>,
    instructions: Seq<Instruction>,
    error: Error,
) -> bool {
    exists|k: int|
        0 <= k < list.len() && fails_at(
            before,
            done + #[trigger] instructions_along(list.take(k), instructions),
            instructions[list[k] as int]@,
            error,
            after,
        )
}

/// Hands the instructions of one stream to the operator layer, one after
/// another, up to the first that fails. The error of that instruction is
/// returned.
pub fn execute_stream<Operators: Operator>(
    stream: &Stream,
    instructions: &Vec<Instruction>,
    operators: &mut Operators,
) -> (result: Result<(), Error>)
    requires
        all_below(stream.instructions@, instructions@.len()),
    ensures
        !Operators::may_fail() ==> result is Ok,
        result is Ok ==> carries_out(
            *old(operators),
            instructions_along(stream.instructions@, instructions@),
            *final(operators),
        ),
        result is Err ==> stopped_within(
            *old(operators),
            *final(operators),
            Seq::empty(),
            stream.instructions@,
            instructions@,
            result->Err_0,
        ),
{
    let ghost list = stream.instructions@;
    let stream_instructions = &stream.instructions;
    let mut failure: Option<Error> = None;
    let mut k: usize = 0;
    proof {
        assert(instructions_along(list.take(0), instructions@) =~= Seq::empty());
        lemma_carries_out_nothing(*operators);
        if list.len() == 0 {
            assert(list.take(0) == list);
        }
    }
    while k < stream_instructions.len()
        invariant_except_break
            k <= list.len(),
            k == list.len() ==> list.take(k as int) == list,
            failure is None,
            carries_out(
                *old(operators),
                instructions_along(list.take(k as int), instructions@),
                *operators,
            ),
        invariant
            list == stream_instructions@,
            all_below(list, instructions@.len()),
        ensures
            failure is Some ==> Operators::may_fail(),
            failure is None ==> carries_out(
                *old(operators),
                instructions_along(list, instructions@),
                *operators,
            ),
            failure is Some ==> stopped_within(
                *old(operators),
                *operators,
                Seq::empty(),
                list,
                instructions@,
                failure->0,
            ),
        decreases list.len() - k,
    {
        let instruction = stream_instructions[k];
        let ghost between = *operators;
        let ghost first = instructions_along(list.take(k as int), instructions@);
        assert(list[k as int] < instructions@.len());
        match operators.execute(&instructions[instruction]) {
            Ok(()) => {},
            Err(error) => {
                failure = Some(error);
                proof {
                    lemma_fails_next(
                        *old(operators),
                        first,
                        between,
                        instructions@[instruction as int]@,
                        error,
                        *operators,
                    );
                    assert(Seq::<InstructionView>::empty() + first =~= first);
                }
                break ;
            },
        }
        proof {
            lemma_carries_out_next(
                *old(operators),
                first,
                between,
                instructions@[instruction as int]@,
                *operators,
            );
            assert(list.take(k + 1) == list.take(k as int).push(instruction));
            assert(instructions_along(list.take(k + 1), instructions@) == first.push(
                instructions@[instruction as int]@,
            ));
        }
        k += 1;
        proof {
            if k == list.len() {
                assert(list.take(k as int) == list);
            }
        }
    }
    match failure {
        Some(error) => Err(error),
        None => Ok(()),
    }
}

/// A handler that hands the instructions of a stream to the operator layer,
/// one after another, and gives up at the first that fails.
pub struct StreamExecutor<Operators: Operator> {
    pub operators: Operators,
}

impl<Operators: Operator> StreamExecutor<Operators> {
    /// An executor on top of this operator layer.
    pub fn new(operators: Operators) -> (executor: Self)
        ensures
            executor.operators == operators,
    {
        StreamExecutor { operators }
    }

    /// Gives the operator layer back.
    pub fn into_operators(self) -> (operators: Operators)
        ensures
            operators == self.operators,
    {
        self.operators
    }
}

impl<Operators: Operator> StreamEventHandler for StreamExecutor<Operators> {
    open spec fn can_handle(
        &self,
        streams: Seq<Stream>,
        instructions: Seq<Instruction>,
        stream: usize,
    ) -> bool {
        stream < streams.len() ==> all_below(
            streams[stream as int].instructions@,
            instructions.len(),
        )
    }

    open spec fn reached(
        &self,
        initial: Self,
        streams: Seq<Stream>,
        instructions: Seq<Instruction>,
        order: Seq<usize>,
    ) -> bool {
        carries_out(
            initial.operators,
            instructions_along(execution(streams, order), instructions),
            self.operators,
        )
    }

    open spec fn stopped(
        &self,
        initial: Self,
        streams: Seq<Stream>,
        instructions: Seq<Instruction>,
        order: Seq<usize>,
        stream: usize,
        error: Error,
    ) -> bool {
        stream < streams.len() && stopped_within(
            initial.operators,
            self.operators,
            instructions_along(execution(streams, order), instructions),
            streams[stream as int].instructions@,
            instructions,
            error,
        )
    }

    open spec fn may_fail() -> bool {
        Operators::may_fail()
    }

    fn on_execute(
        &mut self,
        streams: &Vec<Stream>,
        instructions: &Vec<Instruction>,
        stream: usize,
    ) -> (result: Result<(), Error>)
        ensures
            result is Ok ==> carries_out(
                old(self).operators,
                instructions_along(streams@[stream as int].instructions@, instructions@),
                final(self).operators,
            ),
            result is Err ==> stopped_within(
                old(self).operators,
                final(self).operators,
                Seq::empty(),
                streams@[stream as int].instructions@,
                instructions@,
                result->Err_0,
            ),
    {
        let ghost list = streams@[stream as int].instructions@;
        let result = execute_stream(&streams[stream], instructions, &mut self.operators);
        proof {
            if result is Ok {
                assert forall|initial: Self, order: Seq<usize>| #[trigger]
                    old(self).reached(initial, streams@, instructions@, order) implies self.reached(
                    initial,
                    streams@,
                    instructions@,
                    order.push(stream),
                ) by {
                    assert(order.push(stream).drop_last() == order);
                    assert(order.push(stream).last() == stream);
                    let done = instructions_along(execution(streams@, order), instructions@);
                    let more = instructions_along(list, instructions@);
                    assert(execution(streams@, order.push(stream)) == execution(streams@, order)
                        + list);
                    assert(instructions_along(
                        execution(streams@, order.push(stream)),
                        instructions@,
                    ) =~= done + more);
                    lemma_carries_out_both(
                        initial.operators,
                        done,
                        old(self).operators,
                        more,
                        self.operators,
                    );
                }
            } else {
                let error = result->Err_0;
                assert forall|initial: Self, order: Seq<usize>| #[trigger]
                    old(self).reached(initial, streams@, instructions@, order) implies self.stopped(
                    initial,
                    streams@,
                    instructions@,
                    order,
                    stream,
                    error,
                ) by {
                    let done = instructions_along(execution(streams@, order), instructions@);
                    let k = choose|k: int|
                        0 <= k < list.len() && fails_at(
                            old(self).operators,
                            Seq::empty() + #[trigger] instructions_along(
                                list.take(k),
                                instructions@,
                            ),
                            instructions@[list[k] as int]@,
                            error,
                            self.operators,
                        );
                    let part = instructions_along(list.take(k), instructions@);
                    assert(Seq::<InstructionView>::empty() + part =~= part);
                    lemma_fails_after(
                        initial.operators,
                        done,
                        old(self).operators,
                        part,
                        instructions@[list[k] as int]@,
                        error,
                        self.operators,
                    );
                }
            }
        }
        result
    }
}

} // verus!
