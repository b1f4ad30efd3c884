//! Instructions: one operator applied to operands that are named by number.

use crate::error::Error;
use vstd::prelude::*;

verus! {

/// The part of a program that an instruction belongs to.
#[derive(Clone, Copy, Debug, PartialEq, Eq, Hash, Structural)]
pub enum Category {
    Inference,
    Loss,
    Gradient,
    Optimization,
}

/// The operators that an instruction can name.
#[derive(Clone, Copy, Debug, PartialEq, Eq, Hash, Structural)]
pub enum OpCode {
    Gemm,
    Add,
    Sub,
    Mul,
    Div,
    Sqrt,
    ScalarMul,
    ScalarAdd,
    Scale,
    ScaleBackward,
    Clip,
    ClipNorm,
    Identity,
    Zero,
    Reshape,
    Concat,
    Unconcat,
    Transpose,
    Bernoulli,
    Sigmoid,
    SigmoidBackward,
    Softmax,
    SoftmaxBackward,
    CrossEntropyLoss,
    CrossEntropyLossBackward,
    ResidualSumOfSquares,
    ResidualSumOfSquaresBackward,
    GradientDescent,
}

/// What an operator needs to know besides its operands.
#[derive(Clone, Copy, Debug, PartialEq, Eq, Hash, Structural)]
pub enum OperatorAttributes {
    Nothing,
    /// Whether to transpose the first factor, the second factor and the
    /// result of a matrix product.
    ThreeBools(bool, bool, bool),
    /// The rows and columns of a result.
    Shape(usize, usize),
    /// A real factor, as the bits of a 32-bit float.
    Scalar(u32),
}

/// One step of a program: an operator, the operands it reads and the
/// operands it writes. An operand that is both read and written stands in
/// both lists.
#[derive(Debug)]
pub struct Instruction {
    opcode: OpCode,
    attributes: OperatorAttributes,
    inputs: Vec<usize>,
    outputs: Vec<usize>,
    category: Category,
}

/// An instruction as mathematics.
pub struct InstructionView {
    pub opcode: OpCode,
    pub attributes: OperatorAttributes,
    pub inputs: Seq<usize>,
    pub outputs: Seq<usize>,
    pub category: Category,
}

impl View for Instruction {
    type V = InstructionView;

    closed spec fn view(&self) -> InstructionView {
        InstructionView {
            opcode: self.opcode,
            attributes: self.attributes,
            inputs: self.inputs@,
            outputs: self.outputs@,
            category: self.category,
        }
    }
}

/// The views of a list of instructions.
pub open spec fn views(instructions: Seq<Instruction>) -> Seq<InstructionView> {
    Seq::new(instructions.len(), |i: int| instructions[i]@)
}

/// A copy of a list of operands.
pub fn copy_operands(operands: &Vec<usize>) -> (copy: Vec<usize>)
    ensures
        copy@ == operands@,
{
    let mut copy: Vec<usize> = Vec::new();
    let mut k: usize = 0;
    while k < operands.len()
        invariant
            k <= operands@.len(),
            copy@ == operands@.take(k as int),
        decreases operands@.len() - k,
    {
        copy.push(operands[k]);
        k += 1;
    }
    assert(operands@.take(k as int) == operands@);
    copy
}

impl Instruction {
    /// An instruction of this operator on these operands.
    pub fn new(
        opcode: OpCode,
        attributes: OperatorAttributes,
        inputs: Vec<usize>,
        outputs: Vec<usize>,
        category: Category,
    ) -> (instruction: Self)
        ensures
            instruction@ == (InstructionView {
                opcode,
                attributes,
                inputs: inputs@,
                outputs: outputs@,
                category,
            }),
    {
        Instruction { opcode, attributes, inputs, outputs, category }
    }

    /// The operator.
    pub fn opcode(&self) -> (opcode: OpCode)
        ensures
            opcode == self@.opcode,
    {
        self.opcode
    }

    /// What the operator needs to know besides its operands.
    pub fn attributes(&self) -> (attributes: OperatorAttributes)
        ensures
            attributes == self@.attributes,
    {
        self.attributes
    }

    /// The operands that the instruction reads.
    pub fn inputs(&self) -> (inputs: &Vec<usize>)
        ensures
            inputs@ == self@.inputs,
    {
        &self.inputs
    }

    /// The operands that the instruction writes.
    pub fn outputs(&self) -> (outputs: &Vec<usize>)
        ensures
            outputs@ == self@.outputs,
    {
        &self.outputs
    }

    /// The part of the program that the instruction belongs to.
    pub fn category(&self) -> (category: Category)
        ensures
            category == self@.category,
    {
        self.category
    }
}

impl Clone for Instruction {
    fn clone(&self) -> (copy: Self)
        ensures
            copy@ == self@,
    {
        Instruction {
            opcode: self.opcode,
            attributes: self.attributes,
            inputs: copy_operands(&self.inputs),
            outputs: copy_operands(&self.outputs),
            category: self.category,
        }
    }
}

/// The layer that carries instructions out. The core hands it one
/// instruction at a time and never looks at what an operator computes.
pub trait Operator: Sized {
    /// Whether the layer stands where, since it was as `initial`, the
    /// instructions of `trace` have been carried out, in that order. A layer
    /// that keeps no account says yes to everything.
    open spec fn ran(&self, initial: Self, trace: Seq<InstructionView>) -> bool {
        true
    }

    /// Whether the layer stands where, since it was as `initial`, the
    /// instructions of `trace` have been carried out and `instruction`, tried
    /// after them, has failed with `error`.
    open spec fn failed(
        &self,
        initial: Self,
        trace: Seq<InstructionView>,
        instruction: InstructionView,
        error: Error,
    ) -> bool {
        true
    }

    /// Whether an instruction can fail.
    open spec fn may_fail() -> bool {
        true
    }

    /// Carries one instruction out. A failure leaves it not carried out.
    fn execute(&mut self, instruction: &Instruction) -> (result: Result<(), Error>)
        ensures
            !Self::may_fail() ==> result is Ok,
            result is Ok ==> forall|initial: Self, trace: Seq<InstructionView>| #[trigger]
                old(self).ran(initial, trace) ==> final(self).ran(
                    initial,
                    trace.push(instruction@),
                ),
            result is Err ==> forall|initial: Self, trace: Seq<InstructionView>| #[trigger]
                old(self).ran(initial, trace) ==> final(self).ran(initial, trace)
                    && final(self).failed(initial, trace, instruction@, result->Err_0),
    ;
}

/// Whether `after` is `before` with the instructions of `done` carried out
/// and `instruction`, tried after them, failed with `error`.
pub open spec fn fails_at<Operators: Operator>(
    before: Operators,
    done: Seq<InstructionView>,
    instruction: InstructionView,
    error: Error,
    after: Operators,
) -> bool {
    forall|initial: Operators, trace: Seq<InstructionView>| #[trigger]
        before.ran(initial, trace) ==> after.ran(initial, trace + done) && after.failed(
            initial,
            trace + done,
            instruction,
            error,
        )
}

/// Whether `after` is `before` with the instructions of `more` carried out.
pub open spec fn carries_out<Operators: Operator>(
    before: Operators,
    more: Seq<InstructionView>,
    after: Operators,
) -> bool {
    forall|initial: Operators, trace: Seq<InstructionView>| #[trigger]
        before.ran(initial, trace) ==> after.ran(initial, trace + more)
}

/// A layer is itself with nothing carried out.
pub proof fn lemma_carries_out_nothing<Operators: Operator>(layer: Operators)
    ensures
        carries_out(layer, Seq::empty(), layer),
{
    assert forall|initial: Operators, trace: Seq<InstructionView>| #[trigger]
        layer.ran(initial, trace) implies layer.ran(initial, trace + Seq::empty()) by {
        assert(trace + Seq::empty() =~= trace);
    }
}

/// What is carried out in two parts is carried out as a whole.
pub proof fn lemma_carries_out_both<Operators: Operator>(
    before: Operators,
    first: Seq<InstructionView>,
    between: Operators,
    then: Seq<InstructionView>,
    after: Operators,
)
    requires
        carries_out(before, first, between),
        carries_out(between, then, after),
    ensures
        carries_out(before, first + then, after),
{
    assert forall|initial: Operators, trace: Seq<InstructionView>| #[trigger]
        before.ran(initial, trace) implies after.ran(initial, trace + (first + then)) by {
        assert(between.ran(initial, trace + first));
        assert((trace + first) + then =~= trace + (first + then));
    }
}

/// One more instruction carried out.
pub proof fn lemma_carries_out_next<Operators: Operator>(
    before: Operators,
    first: Seq<InstructionView>,
    between: Operators,
    next: InstructionView,
    after: Operators,
)
    requires
        carries_out(before, first, between),
        forall|initial: Operators, trace: Seq<InstructionView>| #[trigger]
            between.ran(initial, trace) ==> after.ran(initial, trace.push(next)),
    ensures
        carries_out(before, first.push(next), after),
{
    assert forall|initial: Operators, trace: Seq<InstructionView>| #[trigger]
        before.ran(initial, trace) implies after.ran(initial, trace + first.push(next)) by {
        assert(between.ran(initial, trace + first));
        assert((trace + first).push(next) =~= trace + first.push(next));
    }
}

/// An instruction that fails after others were carried out.
pub proof fn lemma_fails_next<Operators: Operator>(
    before: Operators,
    first: Seq<InstructionView>,
    between: Operators,
    instruction: InstructionView,
    error: Error,
    after: Operators,
)
    requires
        carries_out(before, first, between),
        forall|initial: Operators, trace: Seq<InstructionView>| #[trigger]
            between.ran(initial, trace) ==> after.ran(initial, trace) && after.failed(
                initial,
                trace,
                instruction,
                error,
            ),
    ensures
        fails_at(before, first, instruction, error, after),
{
    assert forall|initial: Operators, trace: Seq<InstructionView>| #[trigger]
        before.ran(initial, trace) implies after.ran(initial, trace + first) && after.failed(
        initial,
        trace + first,
        instruction,
        error,
    ) by {
        assert(between.ran(initial, trace + first));
    }
}

/// A failure after two parts that were carried out.
pub proof fn lemma_fails_after<Operators: Operator>(
    before: Operators,
    first: Seq<InstructionView>,
    between: Operators,
    then: Seq<InstructionView>,
    instruction: InstructionView,
    error: Error,
    after: Operators,
)
    requires
        carries_out(before, first, between),
        fails_at(between, then, instruction, error, after),
    ensures
        fails_at(before, first + then, instruction, error, after),
{
    assert forall|initial: Operators, trace: Seq<InstructionView>| #[trigger]
        before.ran(initial, trace) implies after.ran(initial, trace + (first + then))
        && after.failed(initial, trace + (first + then), instruction, error) by {
        assert(between.ran(initial, trace + first));
        assert((trace + first) + then =~= trace + (first + then));
    }
}

/// An operator layer that computes nothing and keeps the instructions it
/// was handed, to show in what order a program runs.
pub struct Recorder {
    pub instructions: Vec<Instruction>,
}

impl Recorder {
    /// A recorder that has been handed nothing.
    pub fn new() -> (recorder: Self)
        ensures
            recorder.instructions@.len() == 0,
    {
        Recorder { instructions: Vec::new() }
    }
}

impl Operator for Recorder {
    open spec fn ran(&self, initial: Self, trace: Seq<InstructionView>) -> bool {
        views(self.instructions@) == views(initial.instructions@) + trace
    }

    open spec fn failed(
        &self,
        initial: Self,
        trace: Seq<InstructionView>,
        instruction: InstructionView,
        error: Error,
    ) -> bool {
        false
    }

    open spec fn may_fail() -> bool {
        false
    }

    fn execute(&mut self, instruction: &Instruction) -> (result: Result<(), Error>)
        ensures
            result is Ok,
            views(final(self).instructions@) == views(old(self).instructions@).push(instruction@),
    {
        self.instructions.push(instruction.clone());
        assert(views(self.instructions@) =~= views(old(self).instructions@).push(instruction@));
        assert forall|initial: Self, trace: Seq<InstructionView>| #[trigger]
            old(self).ran(initial, trace) implies self.ran(initial, trace.push(instruction@)) by {
            assert((views(initial.instructions@) + trace).push(instruction@) =~= views(
                initial.instructions@,
            ) + trace.push(instruction@));
        }
        Ok(())
    }
}

/// What a recorder holds after instructions were carried out is what it
/// held before, and those instructions.
pub proof fn lemma_recorded(before: Recorder, more: Seq<InstructionView>, after: Recorder)
    requires
        carries_out(before, more, after),
    ensures
        views(after.instructions@) == views(before.instructions@) + more,
{
    assert(views(before.instructions@) + Seq::empty() =~= views(before.instructions@));
    assert(before.ran(before, Seq::empty()));
    assert(Seq::<InstructionView>::empty() + more =~= more);
}

} // verus!
