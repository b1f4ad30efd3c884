//! The neural machine: a recorded computation, compiled once into
//! instructions and streams, which can then run any number of times.

use crate::dependencies::Program;
use crate::error::Error;
use crate::fusion::{fused, optimize_softmax_and_cross_entropy_loss};
use crate::handlers::{all_below, instructions_along};
use crate::instruction::{
    carries_out, copy_operands, fails_at, views, Category, Instruction, InstructionView, OpCode, Operator,
    OperatorAttributes,
};
use crate::dispatch::pipeline_order;
use crate::pipeline::{execute_streams, failed_at, instructions_below};
use crate::schedule::{
    complete_schedule, execution, lemma_dependencies_are_earlier, lemma_execution_prefix,
};
use crate::scheduler::schedulable;
use crate::streams::{
    are_streams_of, is_stream_of, lemma_program_edges_point_back, make_simple_instructions,
    make_streams, point_back, program_edges, program_of_views, reports_write, spares_inputs,
    verify_machine_inputs, Edges, Stream, StreamState,
};
use crate::tape::{
    carries_out_part, execute_all, get_tape, recorded_in_order, walk, wanted, TensorWithGrad,
};
use vstd::prelude::*;

verus! {

/// The greatest norm that a gradient keeps, as the bits of the 32-bit float
/// one.
pub const CLIPPED_GRADIENT_NORM: u32 = 0x3f80_0000;

/// The clip without operands that follows every gradient instruction.
pub open spec fn bare_clip() -> InstructionView {
    InstructionView {
        opcode: OpCode::Clip,
        attributes: OperatorAttributes::Scalar(CLIPPED_GRADIENT_NORM),
        inputs: Seq::empty(),
        outputs: Seq::empty(),
        category: Category::Gradient,
    }
}

/// The clip of what a gradient instruction has written.
pub open spec fn clip_of(gradient: InstructionView) -> InstructionView {
    InstructionView {
        opcode: OpCode::Clip,
        attributes: OperatorAttributes::Scalar(CLIPPED_GRADIENT_NORM),
        inputs: Seq::empty(),
        outputs: gradient.outputs,
        category: Category::Gradient,
    }
}

/// The instructions of `list`, each followed by a clip without operands and
/// by the clip of what it has written.
pub open spec fn clipped(list: Seq<InstructionView>) -> Seq<InstructionView>
    decreases list.len(),
{
    if list.len() == 0 {
        Seq::empty()
    } else {
        clipped(list.drop_last()) + seq![list.last(), bare_clip(), clip_of(list.last())]
    }
}

/// The instructions that compute values, tensor after tensor along the
/// tape.
pub open spec fn forward_part(tensors: Seq<TensorWithGrad>, tape: Seq<usize>) -> Seq<
    InstructionView,
>
    decreases tape.len(),
{
    if tape.len() == 0 {
        Seq::empty()
    } else {
        forward_part(tensors, tape.drop_last()) + wanted(
            views(tensors[tape.last() as int].instructions@),
            true,
        )
    }
}

/// The instructions that compute gradients, clipped, tensor after tensor
/// from the end of the tape to its beginning.
pub open spec fn gradient_part(tensors: Seq<TensorWithGrad>, tape: Seq<usize>) -> Seq<
    InstructionView,
>
    decreases tape.len(),
{
    if tape.len() == 0 {
        Seq::empty()
    } else {
        clipped(wanted(views(tensors[tape.last() as int].instructions@), false)) + gradient_part(
            tensors,
            tape.drop_last(),
        )
    }
}

/// The program of a recording: along the tape that ends in the loss, the
/// instructions that compute values, then the clipped gradient instructions
/// from the loss back, then the instructions of the optimizer; all of it
/// fused.
pub open spec fn compiled(
    tensors: Seq<TensorWithGrad>,
    loss: int,
    optimization: Seq<InstructionView>,
) -> Seq<InstructionView> {
    fused(
        forward_part(tensors, walk(tensors, loss)) + gradient_part(tensors, walk(tensors, loss))
            + optimization,
    )
}

/// The instructions of one category, in their order.
pub open spec fn of_category(list: Seq<InstructionView>, category: Category) -> Seq<InstructionView>
    decreases list.len(),
{
    if list.len() == 0 {
        Seq::empty()
    } else if list.last().category == category {
        of_category(list.drop_last(), category).push(list.last())
    } else {
        of_category(list.drop_last(), category)
    }
}

/// The streams of a program are fit for the scheduler, and name
/// instructions of the program only.
pub proof fn lemma_streams_are_schedulable(streams: Seq<Stream>, edges: Edges)
    requires
        point_back(edges),
        are_streams_of(streams, edges),
    ensures
        schedulable(streams),
        instructions_below(streams, edges.len()),
{
    assert forall|u: int| 0 <= u < streams.len() implies {
        &&& (#[trigger] streams[u]).dependencies@.no_duplicates()
        &&& forall|k: int|
            0 <= k < streams[u].dependencies@.len() ==> (#[trigger] streams[u].dependencies@[k]) < u
    } by {
        let needs = streams[u].dependencies@;
        assert(is_stream_of(streams[u], edges, u));
        assert forall|a: int, b: int|
            0 <= a < needs.len() && 0 <= b < needs.len() && a != b implies needs[a] != needs[b] by {
            if a < b {
                assert(needs[a] < needs[b]);
            } else {
                assert(needs[b] < needs[a]);
            }
        }
        assert forall|k: int| 0 <= k < needs.len() implies (#[trigger] streams[u].dependencies@[k])
            < u by {
            lemma_dependencies_are_earlier(streams, edges, u, k);
        }
    }
    assert forall|s: int| 0 <= s < streams.len() implies all_below(
        (#[trigger] streams[s]).instructions@,
        edges.len(),
    ) by {
        let list = streams[s].instructions@;
        assert(is_stream_of(streams[s], edges, s));
        assert forall|k: int| 0 <= k < list.len() implies (#[trigger] list[k]) < edges.len() by {
            assert(list.contains(list[k]));
        }
    }
}

/// A compiled program.
pub struct NeuralMachine {
    instructions: Vec<Instruction>,
    streams: Vec<Stream>,
}

impl NeuralMachine {
    /// The instructions of the machine.
    pub closed spec fn program(&self) -> Seq<InstructionView> {
        views(self.instructions@)
    }

    /// The streams of the machine.
    pub closed spec fn stream_list(&self) -> Seq<Stream> {
        self.streams@
    }

    /// The operands that each instruction reads and writes.
    pub open spec fn accesses(&self) -> Program {
        program_of_views(self.program())
    }

    /// What holds of every machine: its streams are the streams of its
    /// program, and none of them has started.
    pub open spec fn wf(&self) -> bool {
        &&& are_streams_of(self.stream_list(), program_edges(self.accesses()))
        &&& self.program().len() <= usize::MAX
        &&& forall|s: int|
            0 <= s < self.stream_list().len() ==> (#[trigger] self.stream_list()[s]).state
                == StreamState::Unreached
    }

    #[verifier::type_invariant]
    spec fn well_formed(self) -> bool {
        self.wf()
    }

    /// Compiles a recording. The result is the fused program of the
    /// recording with its streams, unless an instruction writes to a
    /// machine input: then nothing is compiled and the error says which.
    pub fn try_new(
        tensors: &Vec<TensorWithGrad>,
        loss: usize,
        optimization: &Vec<Instruction>,
        machine_inputs: &Vec<usize>,
    ) -> (result: Result<Self, Error>)
        requires
            recorded_in_order(tensors@),
            loss < tensors@.len(),
        ensures
            result is Ok <==> spares_inputs(
                program_of_views(compiled(tensors@, loss as int, views(optimization@))),
                machine_inputs@,
            ),
            result is Ok ==> result->Ok_0.wf() && result->Ok_0.program() == compiled(
                tensors@,
                loss as int,
                views(optimization@),
            ),
            result is Err ==> reports_write(
                result->Err_0,
                program_of_views(compiled(tensors@, loss as int, views(optimization@))),
                machine_inputs@,
            ),
    {
        let tape = get_tape(tensors, loss);
        let mut instructions: Vec<Instruction> = Vec::new();
        let mut at: usize = 0;
        assert(views(instructions@) =~= Seq::empty());
        while at < tape.len()
            invariant
                at <= tape@.len(),
                tape@ == walk(tensors@, loss as int),
                forall|m: int| 0 <= m < tape@.len() ==> (#[trigger] tape@[m]) < tensors@.len(),
                views(instructions@) == forward_part(tensors@, tape@.take(at as int)),
            decreases tape@.len() - at,
        {
            let more = tensors[tape[at]].forward_instructions();
            proof {
                assert(tape@.take(at + 1).drop_last() == tape@.take(at as int));
                assert(tape@.take(at + 1).last() == tape@[at as int]);
            }
            append_instructions(&mut instructions, &more);
            at += 1;
        }
        proof {
            assert(tape@.take(at as int) == tape@);
        }
        let ghost forward = views(instructions@);
        let mut at: usize = tape.len();
        proof {
            assert(tape@.skip(at as int) =~= Seq::empty());
            assert(forward + gradient_part(tensors@, tape@) =~= forward + gradient_part(
                tensors@,
                tape@,
            ) + Seq::empty());
            lemma_gradient_part_split(tensors@, tape@, at as int);
        }
        while at > 0
            invariant
                at <= tape@.len(),
                forall|m: int| 0 <= m < tape@.len() ==> (#[trigger] tape@[m]) < tensors@.len(),
                views(instructions@) + gradient_part(tensors@, tape@.take(at as int)) == forward
                    + gradient_part(tensors@, tape@),
            decreases at,
        {
            at -= 1;
            let gradients = tensors[tape[at]].gradient_instructions();
            let ghost before = views(instructions@);
            proof {
                assert(tape@.take(at + 1).drop_last() == tape@.take(at as int));
                assert(tape@.take(at + 1).last() == tape@[at as int]);
            }
            append_clipped(&mut instructions, &gradients);
            proof {
                let here = clipped(views(gradients@));
                let rest = gradient_part(tensors@, tape@.take(at as int));
                assert((before + here) + rest == before + (here + rest));
            }
        }
        proof {
            assert(tape@.take(0) =~= Seq::empty());
            assert(views(instructions@) + Seq::empty() =~= views(instructions@));
        }
        let mut tail: usize = 0;
        let ghost recorded = views(instructions@);
        while tail < optimization.len()
            invariant
                tail <= optimization@.len(),
                views(instructions@) == recorded + views(optimization@).take(tail as int),
            decreases optimization@.len() - tail,
        {
            let ghost before = views(instructions@);
            instructions.push(optimization[tail].clone());
            proof {
                assert(views(instructions@) =~= before.push(optimization@[tail as int]@));
                assert(views(optimization@).take(tail + 1) =~= views(optimization@).take(
                    tail as int,
                ).push(optimization@[tail as int]@));
            }
            tail += 1;
        }
        proof {
            assert(views(optimization@).take(tail as int) == views(optimization@));
        }
        let instructions = optimize_softmax_and_cross_entropy_loss(&instructions);
        let simple_instructions = make_simple_instructions(&instructions);
        match verify_machine_inputs(machine_inputs.as_slice(), simple_instructions.as_slice()) {
            Err(error) => {
                return Err(error);
            },
            Ok(()) => {},
        }
        let streams = make_streams(simple_instructions.as_slice());
        let ghost length = instructions.len();
        let machine = NeuralMachine { instructions, streams };
        assert(machine.program().len() == length);
        Ok(machine)
    }

    /// The instructions of one category, in program order.
    pub fn instructions(&self, category: &Category) -> (copies: Vec<Instruction>)
        ensures
            views(copies@) == of_category(self.program(), *category),
    {
        let ghost list = views(self.instructions@);
        let mut copies: Vec<Instruction> = Vec::new();
        let mut k: usize = 0;
        assert(views(copies@) =~= Seq::empty());
        while k < self.instructions.len()
            invariant
                k <= self.instructions@.len(),
                list == views(self.instructions@),
                views(copies@) == of_category(list.take(k as int), *category),
            decreases self.instructions@.len() - k,
        {
            let instruction = &self.instructions[k];
            proof {
                assert(list.take(k + 1).drop_last() == list.take(k as int));
                assert(list.take(k + 1).last() == instruction@);
            }
            if instruction.category() == *category {
                let ghost before = copies@;
                copies.push(instruction.clone());
                assert(views(copies@) =~= views(before).push(instruction@));
            }
            k += 1;
        }
        assert(list.take(k as int) == list);
        copies
    }

    /// All instructions, in program order.
    pub fn all_instructions(&self) -> (instructions: &Vec<Instruction>)
        ensures
            views(instructions@) == self.program(),
    {
        &self.instructions
    }

    /// The streams, by their numbers.
    pub fn streams(&self) -> (streams: &Vec<Stream>)
        ensures
            streams@ == self.stream_list(),
    {
        &self.streams
    }

    /// Runs the program instruction by instruction, in program order, up to
    /// the first instruction that fails, whose error is returned.
    pub fn forward<Operators: Operator>(&self, operators: &mut Operators) -> (result: Result<
        (),
        Error,
    >)
        ensures
            !Operators::may_fail() ==> result is Ok,
            result is Ok ==> carries_out(*old(operators), self.program(), *final(operators)),
            result is Err ==> carries_out_part(
                *old(operators),
                self.program(),
                *final(operators),
                result->Err_0,
            ),
    {
        execute_all(&self.instructions, operators)
    }

    /// Runs the program stream by stream, in the order in which the
    /// scheduler dispatches the streams, up to the first instruction that
    /// fails, whose error is returned, and gives the operator layer back.
    pub fn run<Operators: Operator>(&self, operators: Operators) -> (result: (
        Operators,
        Result<(), Error>,
    ))
        ensures
            complete_schedule(self.stream_list(), pipeline_order(self.stream_list())),
            !Operators::may_fail() ==> result.1 is Ok,
            result.1 is Ok ==> carries_out(
                operators,
                along(self.program(), self.trace()),
                result.0,
            ),
            result.1 is Err ==> exists|k: int|
                0 <= k < self.trace().len() && fails_at(
                    operators,
                    along(self.program(), #[trigger] self.trace().take(k)),
                    self.program()[self.trace()[k] as int],
                    result.1->Err_0,
                    result.0,
                ),
    {
        proof {
            use_type_invariant(self);
            lemma_program_edges_point_back(self.accesses());
            lemma_streams_are_schedulable(self.streams@, program_edges(self.accesses()));
        }
        let result = execute_streams(&self.streams, &self.instructions, 1, operators);
        proof {
            let order = pipeline_order(self.streams@);
            let trace = execution(self.streams@, order);
            crate::schedule::lemma_runs_at_most_once(
                self.streams@,
                program_edges(self.accesses()),
                order,
            );
            if result.1 is Ok {
                assert(along(self.program(), trace) =~= instructions_along(
                    trace,
                    self.instructions@,
                ));
            } else {
                let error = result.1->Err_0;
                let j = choose|j: int| #[trigger]
                    failed_at(operators, result.0, self.streams@, self.instructions@, j, error);
                let stream = order[j];
                let list = self.streams@[stream as int].instructions@;
                let done = execution(self.streams@, order.take(j));
                let m = choose|m: int|
                    0 <= m < list.len() && fails_at(
                        operators,
                        instructions_along(done, self.instructions@)
                            + #[trigger] instructions_along(list.take(m), self.instructions@),
                        self.instructions@[list[m] as int]@,
                        error,
                        result.0,
                    );
                let next = order.take(j + 1);
                assert(next.drop_last() == order.take(j));
                assert(next.last() == stream);
                let more = execution(self.streams@, next);
                assert(more == done + list);
                lemma_execution_prefix(self.streams@, order, j + 1);
                assert(trace.take(more.len() as int) == more);
                let k = done.len() + m;
                assert(trace[k] == more[k]);
                assert(trace[k] == list[m]);
                assert(trace.take(k) =~= done + list.take(m));
                assert(along(self.program(), trace.take(k)) =~= instructions_along(
                    done,
                    self.instructions@,
                ) + instructions_along(list.take(m), self.instructions@));
                assert(self.program()[trace[k] as int] == self.instructions@[list[m] as int]@);
                assert(0 <= k < self.trace().len() && fails_at(
                    operators,
                    along(self.program(), self.trace().take(k)),
                    self.program()[self.trace()[k] as int],
                    error,
                    result.0,
                ));
            }
        }
        result
    }

    /// The instructions in the order in which the pipeline runs them.
    pub open spec fn trace(&self) -> Seq<usize> {
        execution(self.stream_list(), pipeline_order(self.stream_list()))
    }
}

/// The instructions of a program that stand at the places of `trace`.
pub open spec fn along(program: Seq<InstructionView>, trace: Seq<usize>) -> Seq<InstructionView> {
    Seq::new(trace.len(), |y: int| program[trace[y] as int])
}

/// Cutting a tape in two cuts the gradient instructions in two.
proof fn lemma_gradient_part_split(tensors: Seq<TensorWithGrad>, tape: Seq<usize>, at: int)
    requires
        at == tape.len(),
    ensures
        gradient_part(tensors, tape.take(at)) == gradient_part(tensors, tape),
{
    assert(tape.take(at) == tape);
}

/// Appends copies of the instructions of `more`.
fn append_instructions(instructions: &mut Vec<Instruction>, more: &Vec<Instruction>)
    ensures
        views(final(instructions)@) == views(old(instructions)@) + views(more@),
{
    let mut k: usize = 0;
    assert(views(instructions@) =~= views(old(instructions)@) + views(more@).take(0));
    while k < more.len()
        invariant
            k <= more@.len(),
            views(instructions@) == views(old(instructions)@) + views(more@).take(k as int),
        decreases more@.len() - k,
    {
        let ghost before = views(instructions@);
        instructions.push(more[k].clone());
        proof {
            assert(views(instructions@) =~= before.push(more@[k as int]@));
            assert(views(more@).take(k + 1) =~= views(more@).take(k as int).push(more@[k as int]@));
        }
        k += 1;
    }
    assert(views(more@).take(k as int) == views(more@));
}

/// Appends copies of the instructions of `gradients`, each followed by its
/// two clips.
fn append_clipped(instructions: &mut Vec<Instruction>, gradients: &Vec<Instruction>)
    ensures
        views(final(instructions)@) == views(old(instructions)@) + clipped(views(gradients@)),
{
    let ghost list = views(gradients@);
    let mut k: usize = 0;
    assert(views(instructions@) =~= views(old(instructions)@) + clipped(list.take(0)));
    while k < gradients.len()
        invariant
            k <= gradients@.len(),
            list == views(gradients@),
            views(instructions@) == views(old(instructions)@) + clipped(list.take(k as int)),
        decreases gradients@.len() - k,
    {
        let ghost before = views(instructions@);
        let gradient = &gradients[k];
        instructions.push(gradient.clone());
        instructions.push(
            Instruction::new(
                OpCode::Clip,
                OperatorAttributes::Scalar(CLIPPED_GRADIENT_NORM),
                Vec::new(),
                Vec::new(),
                Category::Gradient,
            ),
        );
        instructions.push(
            Instruction::new(
                OpCode::Clip,
                OperatorAttributes::Scalar(CLIPPED_GRADIENT_NORM),
                Vec::new(),
                copy_operands(gradient.outputs()),
                Category::Gradient,
            ),
        );
        proof {
            assert(list.take(k + 1).drop_last() == list.take(k as int));
            assert(list.take(k + 1).last() == gradient@);
            assert(views(instructions@) =~= before + seq![gradient@, bare_clip(), clip_of(gradient@)]);
        }
        k += 1;
    }
    assert(list.take(k as int) == list);
}

} // verus!
