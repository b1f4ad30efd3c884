//! The fusion pass: a loss gradient followed at once by the gradient of the
//! activation before the loss.
//!
//! Where the gradient of the cross-entropy loss, two clips, the gradient of
//! the softmax and one more clip follow each other, the two gradients
//! together pass the gradient of the loss on unchanged. The five
//! instructions become four: the three before the gradient of the softmax,
//! and a copy in its place. The clip behind it leaves. Everything else stays
//! as it is.

use crate::instruction::{views, Instruction, InstructionView, OpCode, OperatorAttributes};
use vstd::prelude::*;

verus! {

/// Whether the five instructions from `i` on are the pattern that is fused.
pub open spec fn matches_at(program: Seq<InstructionView>, i: int) -> bool {
    &&& 0 <= i
    &&& i + 4 < program.len()
    &&& program[i].opcode == OpCode::CrossEntropyLossBackward
    &&& program[i + 1].opcode == OpCode::Clip
    &&& program[i + 2].opcode == OpCode::Clip
    &&& program[i + 3].opcode == OpCode::SoftmaxBackward
    &&& program[i + 4].opcode == OpCode::Clip
    &&& program[i + 3].inputs.len() >= 2
}

/// The copy that stands in for a gradient of the softmax: it reads the
/// gradient that came in, the second input, and writes what the gradient of
/// the softmax wrote.
pub open spec fn pass_through(softmax_backward: InstructionView) -> InstructionView {
    InstructionView {
        opcode: OpCode::Identity,
        attributes: OperatorAttributes::Nothing,
        inputs: seq![softmax_backward.inputs[1]],
        outputs: softmax_backward.outputs,
        category: softmax_backward.category,
    }
}

/// What a pattern becomes: its first three instructions and the copy.
pub open spec fn fused_pattern(program: Seq<InstructionView>) -> Seq<InstructionView> {
    seq![program[0], program[1], program[2], pass_through(program[3])]
}

/// The fused program. Read from the front: a pattern becomes four
/// instructions, and the program goes on behind its fifth; any other
/// instruction stays, and the program goes on behind it.
pub open spec fn fused(program: Seq<InstructionView>) -> Seq<InstructionView>
    decreases program.len(),
{
    if program.len() == 0 {
        Seq::empty()
    } else if matches_at(program, 0) {
        fused_pattern(program) + fused(program.skip(5))
    } else {
        seq![program[0]] + fused(program.skip(1))
    }
}

/// The fused program is not longer than the program, and begins with the
/// same instruction.
pub proof fn lemma_fused_begins(program: Seq<InstructionView>)
    ensures
        fused(program).len() <= program.len(),
        program.len() > 0 ==> fused(program).len() > 0 && fused(program)[0] == program[0],
    decreases program.len(),
{
    if program.len() > 0 {
        if matches_at(program, 0) {
            lemma_fused_begins(program.skip(5));
        } else {
            lemma_fused_begins(program.skip(1));
        }
    }
}

/// A program that holds a pattern becomes shorter.
pub proof fn lemma_fusion_shortens(program: Seq<InstructionView>, i: int)
    requires
        matches_at(program, i),
    ensures
        fused(program).len() < program.len(),
    decreases program.len(),
{
    if matches_at(program, 0) {
        lemma_fused_begins(program.skip(5));
    } else {
        let rest = program.skip(1);
        assert(matches_at(rest, i - 1)) by {
            assert(rest[i - 1] == program[i]);
            assert(rest[i] == program[i + 1]);
            assert(rest[i + 1] == program[i + 2]);
            assert(rest[i + 2] == program[i + 3]);
            assert(rest[i + 3] == program[i + 4]);
        }
        lemma_fusion_shortens(rest, i - 1);
    }
}

/// Behind an instruction that is no loss gradient, the fused program goes
/// on as the program does.
proof fn lemma_fused_step(program: Seq<InstructionView>)
    requires
        program.len() > 0,
        program[0].opcode != OpCode::CrossEntropyLossBackward,
    ensures
        fused(program) == seq![program[0]] + fused(program.skip(1)),
{
}

/// The fused program holds no pattern.
pub proof fn lemma_fused_has_no_pattern(program: Seq<InstructionView>, i: int)
    ensures
        !matches_at(fused(program), i),
    decreases program.len(),
{
    let after = fused(program);
    if program.len() > 0 && matches_at(after, i) {
        if matches_at(program, 0) {
            let rest = fused(program.skip(5));
            if i >= 4 {
                assert(matches_at(rest, i - 4)) by {
                    assert(rest[i - 4] == after[i]);
                    assert(rest[i - 3] == after[i + 1]);
                    assert(rest[i - 2] == after[i + 2]);
                    assert(rest[i - 1] == after[i + 3]);
                    assert(rest[i] == after[i + 4]);
                }
                lemma_fused_has_no_pattern(program.skip(5), i - 4);
            } else {
                assert(after[3].opcode == OpCode::Identity);
            }
        } else {
            let rest = fused(program.skip(1));
            if i >= 1 {
                assert(matches_at(rest, i - 1)) by {
                    assert(rest[i - 1] == after[i]);
                    assert(rest[i] == after[i + 1]);
                    assert(rest[i + 1] == after[i + 2]);
                    assert(rest[i + 2] == after[i + 3]);
                    assert(rest[i + 3] == after[i + 4]);
                }
                lemma_fused_has_no_pattern(program.skip(1), i - 1);
            } else {
                // The five instructions at the front of the fused program
                // stand at the front of the program too.
                lemma_fused_begins(program);
                let one = program.skip(1);
                let two = program.skip(2);
                let three = program.skip(3);
                let four = program.skip(4);
                assert(one.skip(1) == two);
                assert(two.skip(1) == three);
                assert(three.skip(1) == four);
                lemma_fused_begins(one);
                assert(fused(one)[0] == after[1]);
                assert(one[0] == program[1]);
                lemma_fused_step(one);
                lemma_fused_begins(two);
                assert(fused(two)[0] == after[2]);
                assert(two[0] == program[2]);
                lemma_fused_step(two);
                lemma_fused_begins(three);
                assert(fused(three)[0] == after[3]);
                assert(three[0] == program[3]);
                lemma_fused_step(three);
                lemma_fused_begins(four);
                assert(fused(four)[0] == after[4]);
                assert(four[0] == program[4]);
                assert(matches_at(program, 0));
            }
        }
    }
}

/// A program that holds no pattern stays as it is.
pub proof fn lemma_nothing_to_fuse(program: Seq<InstructionView>)
    requires
        forall|i: int| !matches_at(program, i),
    ensures
        fused(program) == program,
    decreases program.len(),
{
    if program.len() > 0 {
        let rest = program.skip(1);
        assert forall|i: int| !matches_at(rest, i) by {
            if matches_at(rest, i) {
                assert(rest[i] == program[i + 1]);
                assert(rest[i + 1] == program[i + 2]);
                assert(rest[i + 2] == program[i + 3]);
                assert(rest[i + 3] == program[i + 4]);
                assert(rest[i + 4] == program[i + 5]);
                assert(matches_at(program, i + 1));
            }
        }
        lemma_nothing_to_fuse(rest);
        assert(!matches_at(program, 0));
        assert(seq![program[0]] + rest =~= program);
    }
}

/// To fuse a fused program changes nothing.
pub proof fn lemma_fusion_is_idempotent(program: Seq<InstructionView>)
    ensures
        fused(fused(program)) == fused(program),
{
    assert forall|i: int| !matches_at(fused(program), i) by {
        lemma_fused_has_no_pattern(program, i);
    }
    lemma_nothing_to_fuse(fused(program));
}

/// Every instruction of the fused program is an instruction of the program,
/// or the copy of a softmax gradient of the program: it writes what that
/// instruction wrote and reads nothing that it did not read.
pub proof fn lemma_fusion_keeps_writes(program: Seq<InstructionView>, p: int)
    requires
        0 <= p < fused(program).len(),
    ensures
        exists|j: int|
            0 <= j < program.len() && fused(program)[p].outputs == (#[trigger] program[j]).outputs
                && (forall|operand: usize|
                fused(program)[p].inputs.contains(operand) ==> program[j].inputs.contains(
                    operand,
                )),
    decreases program.len(),
{
    let after = fused(program);
    if matches_at(program, 0) {
        if p < 3 {
            assert(after[p] == program[p]);
        } else if p == 3 {
            assert(after[3] == pass_through(program[3]));
            assert forall|operand: usize|
                after[3].inputs.contains(operand) implies program[3].inputs.contains(operand) by {
                assert(program[3].inputs[1] == operand);
            }
        } else {
            let rest = program.skip(5);
            lemma_fusion_keeps_writes(rest, p - 4);
            assert(after[p] == fused(rest)[p - 4]);
            let j = choose|j: int|
                0 <= j < rest.len() && fused(rest)[p - 4].outputs == (#[trigger] rest[j]).outputs
                    && (forall|operand: usize|
                    fused(rest)[p - 4].inputs.contains(operand) ==> rest[j].inputs.contains(
                        operand,
                    ));
            assert(rest[j] == program[j + 5]);
        }
    } else {
        if p == 0 {
            assert(after[0] == program[0]);
        } else {
            let rest = program.skip(1);
            lemma_fusion_keeps_writes(rest, p - 1);
            assert(after[p] == fused(rest)[p - 1]);
            let j = choose|j: int|
                0 <= j < rest.len() && fused(rest)[p - 1].outputs == (#[trigger] rest[j]).outputs
                    && (forall|operand: usize|
                    fused(rest)[p - 1].inputs.contains(operand) ==> rest[j].inputs.contains(
                        operand,
                    ));
            assert(rest[j] == program[j + 1]);
        }
    }
}

/// Whether the five instructions from `i` on are the pattern that is fused.
fn is_pattern(instructions: &Vec<Instruction>, i: usize) -> (found: bool)
    requires
        i < instructions@.len(),
    ensures
        found == matches_at(views(instructions@).skip(i as int), 0),
{
    if instructions.len() - i <= 4 {
        return false;
    }
    let found = instructions[i].opcode() == OpCode::CrossEntropyLossBackward && instructions[i
        + 1].opcode() == OpCode::Clip && instructions[i + 2].opcode() == OpCode::Clip
        && instructions[i + 3].opcode() == OpCode::SoftmaxBackward && instructions[i
        + 4].opcode() == OpCode::Clip && instructions[i + 3].inputs().len() >= 2;
    proof {
        let rest = views(instructions@).skip(i as int);
        assert(rest[0] == instructions@[i as int]@);
        assert(rest[1] == instructions@[i + 1]@);
        assert(rest[2] == instructions@[i + 2]@);
        assert(rest[3] == instructions@[i + 3]@);
        assert(rest[4] == instructions@[i + 4]@);
    }
    found
}

/// Replaces every run of a cross-entropy loss gradient, two clips, a
/// softmax gradient and a clip by four instructions: the first three, and a
/// copy of the gradient that came in where the softmax gradient stood. All
/// other instructions are copied as they are.
pub fn optimize_softmax_and_cross_entropy_loss(instructions: &Vec<Instruction>) -> (new_instructions:
    Vec<Instruction>)
    ensures
        views(new_instructions@) == fused(views(instructions@)),
        new_instructions@.len() <= instructions@.len(),
        forall|w: int| #[trigger]
            matches_at(views(instructions@), w) ==> new_instructions@.len() < instructions@.len(),
{
    let ghost program = views(instructions@);
    let mut new_instructions: Vec<Instruction> = Vec::new();
    let mut i: usize = 0;
    proof {
        lemma_fused_begins(program);
        assert forall|w: int| #[trigger] matches_at(program, w) implies fused(program).len()
            < program.len() by {
            lemma_fusion_shortens(program, w);
        }
        assert(program.skip(0) =~= program);
        assert(views(new_instructions@) + fused(program) =~= fused(program));
    }
    while i < instructions.len()
        invariant
            i <= instructions@.len(),
            program == views(instructions@),
            views(new_instructions@) + fused(program.skip(i as int)) == fused(program),
        decreases instructions@.len() - i,
    {
        let ghost before = views(new_instructions@);
        let ghost rest = program.skip(i as int);
        if is_pattern(instructions, i) {
            proof {
                assert(rest[0] == instructions@[i as int]@);
                assert(rest[1] == instructions@[i + 1]@);
                assert(rest[2] == instructions@[i + 2]@);
                assert(rest[3] == instructions@[i + 3]@);
                assert(rest.skip(5) == program.skip(i + 5));
            }
            new_instructions.push(instructions[i].clone());
            new_instructions.push(instructions[i + 1].clone());
            new_instructions.push(instructions[i + 2].clone());
            let softmax_backward = &instructions[i + 3];
            let mut inputs: Vec<usize> = Vec::new();
            inputs.push(softmax_backward.inputs()[1]);
            assert(inputs@ =~= seq![softmax_backward@.inputs[1]]);
            let mut outputs: Vec<usize> = Vec::new();
            let mut k: usize = 0;
            while k < softmax_backward.outputs().len()
                invariant
                    k <= softmax_backward@.outputs.len(),
                    outputs@ == softmax_backward@.outputs.take(k as int),
                decreases softmax_backward@.outputs.len() - k,
            {
                outputs.push(softmax_backward.outputs()[k]);
                k += 1;
            }
            assert(softmax_backward@.outputs.take(k as int) == softmax_backward@.outputs);
            new_instructions.push(
                Instruction::new(
                    OpCode::Identity,
                    OperatorAttributes::Nothing,
                    inputs,
                    outputs,
                    softmax_backward.category(),
                ),
            );
            proof {
                assert(views(new_instructions@) =~= before + fused_pattern(rest));
                assert((before + fused_pattern(rest)) + fused(rest.skip(5)) =~= before + (
                fused_pattern(rest) + fused(rest.skip(5))));
            }
            i += 5;
        } else {
            proof {
                assert(rest[0] == instructions@[i as int]@);
                assert(rest.skip(1) == program.skip(i + 1));
            }
            new_instructions.push(instructions[i].clone());
            proof {
                assert(views(new_instructions@) =~= before + seq![rest[0]]);
                assert((before + seq![rest[0]]) + fused(rest.skip(1)) =~= before + (seq![rest[0]]
                    + fused(rest.skip(1))));
            }
            i += 1;
        }
    }
    proof {
        assert(program.skip(i as int) =~= Seq::empty());
        assert(views(new_instructions@) + Seq::empty() =~= views(new_instructions@));
    }
    new_instructions
}

} // verus!
