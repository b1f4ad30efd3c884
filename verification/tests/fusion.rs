use novigrad::{
    optimize_softmax_and_cross_entropy_loss, Category, Instruction, OpCode, OperatorAttributes,
};

fn instruction(opcode: OpCode, inputs: Vec<usize>, outputs: Vec<usize>) -> Instruction {
    Instruction::new(opcode, OperatorAttributes::Nothing, inputs, outputs, Category::Gradient)
}

fn pattern(base: usize) -> Vec<Instruction> {
    vec![
        instruction(OpCode::CrossEntropyLossBackward, vec![base, base + 1], vec![base + 2]),
        instruction(OpCode::Clip, vec![], vec![]),
        instruction(OpCode::Clip, vec![], vec![base + 2]),
        instruction(OpCode::SoftmaxBackward, vec![base + 1, base + 2], vec![base + 3]),
        instruction(OpCode::Clip, vec![], vec![]),
    ]
}

fn summary(instructions: &Vec<Instruction>) -> Vec<(OpCode, Vec<usize>, Vec<usize>)> {
    instructions
        .iter()
        .map(|x| (x.opcode(), x.inputs().clone(), x.outputs().clone()))
        .collect()
}

#[test]
fn five_instructions_become_four() {
    let fused = optimize_softmax_and_cross_entropy_loss(&pattern(10));
    assert_eq!(
        summary(&fused),
        vec![
            (OpCode::CrossEntropyLossBackward, vec![10, 11], vec![12]),
            (OpCode::Clip, vec![], vec![]),
            (OpCode::Clip, vec![], vec![12]),
            (OpCode::Identity, vec![12], vec![13]),
        ]
    );
    assert_eq!(fused[3].category(), Category::Gradient);
    assert_eq!(fused[3].attributes(), OperatorAttributes::Nothing);
}

#[test]
fn fusing_twice_is_fusing_once() {
    let mut program = vec![instruction(OpCode::Gemm, vec![1], vec![2])];
    program.extend(pattern(10));
    program.extend(pattern(20));
    program.push(instruction(OpCode::SoftmaxBackward, vec![1, 2], vec![3]));
    let once = optimize_softmax_and_cross_entropy_loss(&program);
    let twice = optimize_softmax_and_cross_entropy_loss(&once);
    assert_eq!(summary(&once), summary(&twice));
    // Each of the two patterns loses its last clip.
    assert_eq!(program.len(), 12);
    assert_eq!(once.len(), 10);
    assert_eq!(once[0].opcode(), OpCode::Gemm);
    assert_eq!(once[4].opcode(), OpCode::Identity);
    assert_eq!(once[5].opcode(), OpCode::CrossEntropyLossBackward);
    assert_eq!(once[8].opcode(), OpCode::Identity);
    assert_eq!(once[8].inputs(), &vec![22]);
    assert_eq!(once[9].opcode(), OpCode::SoftmaxBackward);
}

#[test]
fn what_follows_a_pattern_is_read_from_behind_its_last_clip() {
    // The clip that ends the first pattern does not begin anything: the
    // loss gradient behind it starts the next pattern.
    let mut program = pattern(10);
    program.extend(pattern(20));
    program.push(instruction(OpCode::Clip, vec![], vec![23]));
    let fused = optimize_softmax_and_cross_entropy_loss(&program);
    let opcodes: Vec<OpCode> = fused.iter().map(|x| x.opcode()).collect();
    assert_eq!(
        opcodes,
        vec![
            OpCode::CrossEntropyLossBackward,
            OpCode::Clip,
            OpCode::Clip,
            OpCode::Identity,
            OpCode::CrossEntropyLossBackward,
            OpCode::Clip,
            OpCode::Clip,
            OpCode::Identity,
            OpCode::Clip,
        ]
    );
    assert_eq!(fused[8].outputs(), &vec![23]);
}

#[test]
fn what_is_no_pattern_stays_as_it_is() {
    // Four of the five instructions are not enough.
    let mut short = pattern(10);
    short.pop();
    assert_eq!(summary(&optimize_softmax_and_cross_entropy_loss(&short)), summary(&short));
    // One clip too few between the two gradients.
    let mut other = pattern(10);
    other.remove(1);
    other.push(instruction(OpCode::Clip, vec![], vec![]));
    assert_eq!(summary(&optimize_softmax_and_cross_entropy_loss(&other)), summary(&other));
    // A softmax gradient without the gradient that came in.
    let mut bare = pattern(10);
    bare[3] = instruction(OpCode::SoftmaxBackward, vec![11], vec![13]);
    assert_eq!(summary(&optimize_softmax_and_cross_entropy_loss(&bare)), summary(&bare));
    let empty: Vec<Instruction> = vec![];
    assert!(optimize_softmax_and_cross_entropy_loss(&empty).is_empty());
}
