use novigrad::tape::is_recorded_in_order;
use novigrad::tape::execute_all;
use novigrad::{
    get_tape, Category, Error, Instruction, NeuralMachine, OpCode, OperatorAttributes, Recorder,
    TensorWithGrad,
};

fn instruction(opcode: OpCode, inputs: Vec<usize>, outputs: Vec<usize>, category: Category) -> Instruction {
    Instruction::new(opcode, OperatorAttributes::Nothing, inputs, outputs, category)
}

fn computed(tensor: usize, inputs: Vec<usize>) -> TensorWithGrad {
    let mut recorded = TensorWithGrad::new(2 * tensor, 2 * tensor + 1, inputs.clone());
    recorded.push_instruction(instruction(
        OpCode::Add,
        inputs.iter().map(|x| 2 * x).collect(),
        vec![2 * tensor],
        Category::Inference,
    ));
    recorded.push_instruction(instruction(
        OpCode::Identity,
        vec![2 * tensor + 1],
        inputs.iter().map(|x| 2 * x + 1).collect(),
        Category::Gradient,
    ));
    recorded
}

/// Tensor 1 is computed from the source 0, tensors 2 and 3 from tensor 1,
/// and tensor 4 from tensors 2 and 3.
fn diamond() -> Vec<TensorWithGrad> {
    vec![
        TensorWithGrad::new(0, 1, vec![]),
        computed(1, vec![0]),
        computed(2, vec![1]),
        computed(3, vec![1]),
        computed(4, vec![2, 3]),
    ]
}

#[test]
fn every_tensor_stands_after_its_inputs() {
    let tensors = diamond();
    // Tensor 1 is reached on two ways and stands on the tape twice. The
    // source has no instructions and does not stand on the tape.
    assert_eq!(get_tape(&tensors, 4), vec![1, 2, 1, 3, 4]);
    assert_eq!(get_tape(&tensors, 2), vec![1, 2]);
    assert_eq!(get_tape(&tensors, 1), vec![1]);
    assert!(get_tape(&tensors, 0).is_empty());
}

#[test]
fn a_tensor_without_forward_instructions_ends_the_walk() {
    let mut tensors = diamond();
    // Tensor 3 has a gradient instruction only: the walk stops there.
    tensors[3] = TensorWithGrad::new(6, 7, vec![1]);
    tensors[3].push_instruction(instruction(OpCode::Identity, vec![7], vec![3], Category::Gradient));
    assert_eq!(get_tape(&tensors, 4), vec![1, 2, 4]);
}

#[test]
fn recorded_instructions_by_category() {
    let mut tensor = TensorWithGrad::new(4, 5, vec![]);
    tensor.push_instruction(instruction(OpCode::Zero, vec![], vec![4], Category::Inference));
    tensor.push_instruction(instruction(OpCode::Sub, vec![5], vec![1], Category::Gradient));
    tensor.push_instruction(instruction(OpCode::Sqrt, vec![4], vec![4], Category::Loss));
    tensor.push_instruction(instruction(OpCode::Div, vec![4], vec![4], Category::Optimization));
    let opcodes = |list: Vec<Instruction>| list.iter().map(|x| x.opcode()).collect::<Vec<_>>();
    assert_eq!(
        opcodes(tensor.instructions()),
        vec![OpCode::Zero, OpCode::Sub, OpCode::Sqrt, OpCode::Div]
    );
    assert_eq!(opcodes(tensor.forward_instructions()), vec![OpCode::Zero, OpCode::Sqrt]);
    assert_eq!(opcodes(tensor.gradient_instructions()), vec![OpCode::Sub]);
    assert_eq!(tensor.tensor(), 4);
    assert_eq!(tensor.gradient(), 5);
}

#[test]
fn a_recording_compiles_to_forward_then_clipped_gradients_then_optimization() {
    let tensors = diamond();
    let optimization = vec![instruction(
        OpCode::GradientDescent,
        vec![3, 2],
        vec![2],
        Category::Optimization,
    )];
    let machine = NeuralMachine::try_new(&tensors, 4, &optimization, &vec![0]).unwrap();
    let program: Vec<(OpCode, Vec<usize>, Vec<usize>)> = machine
        .all_instructions()
        .iter()
        .map(|x| (x.opcode(), x.inputs().clone(), x.outputs().clone()))
        .collect();
    assert_eq!(
        program,
        vec![
            (OpCode::Add, vec![0], vec![2]),
            (OpCode::Add, vec![2], vec![4]),
            (OpCode::Add, vec![0], vec![2]),
            (OpCode::Add, vec![2], vec![6]),
            (OpCode::Add, vec![4, 6], vec![8]),
            (OpCode::Identity, vec![9], vec![5, 7]),
            (OpCode::Clip, vec![], vec![]),
            (OpCode::Clip, vec![], vec![5, 7]),
            (OpCode::Identity, vec![7], vec![3]),
            (OpCode::Clip, vec![], vec![]),
            (OpCode::Clip, vec![], vec![3]),
            (OpCode::Identity, vec![3], vec![1]),
            (OpCode::Clip, vec![], vec![]),
            (OpCode::Clip, vec![], vec![1]),
            (OpCode::Identity, vec![5], vec![3]),
            (OpCode::Clip, vec![], vec![]),
            (OpCode::Clip, vec![], vec![3]),
            (OpCode::Identity, vec![3], vec![1]),
            (OpCode::Clip, vec![], vec![]),
            (OpCode::Clip, vec![], vec![1]),
            (OpCode::GradientDescent, vec![3, 2], vec![2]),
        ]
    );
    assert_eq!(machine.instructions(&Category::Inference).len(), 5);
    assert_eq!(machine.instructions(&Category::Loss).len(), 0);
    assert_eq!(machine.instructions(&Category::Gradient).len(), 15);
    assert_eq!(machine.instructions(&Category::Optimization).len(), 1);
    let members: usize = machine.streams().iter().map(|x| x.instructions.len()).sum();
    assert_eq!(members, 21);
}

#[test]
fn a_program_that_writes_to_a_machine_input_does_not_compile() {
    let tensors = diamond();
    let outcome = NeuralMachine::try_new(&tensors, 4, &vec![], &vec![0, 6, 4]);
    assert_eq!(outcome.err(), Some(Error::MachineInputWritten { instruction: 3, operand: 6 }));
    let outcome = NeuralMachine::try_new(&tensors, 4, &vec![], &vec![1]);
    assert_eq!(outcome.err(), Some(Error::MachineInputWritten { instruction: 11, operand: 1 }));
    assert!(NeuralMachine::try_new(&tensors, 4, &vec![], &vec![]).is_ok());
    assert!(NeuralMachine::try_new(&tensors, 4, &vec![], &vec![0, 100]).is_ok());
}

#[test]
fn forward_runs_the_program_in_order() {
    let tensors = diamond();
    let machine = NeuralMachine::try_new(&tensors, 4, &vec![], &vec![]).unwrap();
    let mut recorder = Recorder::new();
    assert_eq!(machine.forward(&mut recorder), Ok(()));
    assert_eq!(recorder.instructions.len(), 20);
    for (ran, held) in recorder.instructions.iter().zip(machine.all_instructions().iter()) {
        assert_eq!(ran.opcode(), held.opcode());
        assert_eq!(ran.inputs(), held.inputs());
        assert_eq!(ran.outputs(), held.outputs());
    }
}

#[test]
fn execute_all_runs_a_list() {
    let list = vec![
        instruction(OpCode::Zero, vec![], vec![1], Category::Inference),
        instruction(OpCode::Sqrt, vec![1], vec![2], Category::Inference),
    ];
    let mut recorder = Recorder::new();
    assert_eq!(execute_all(&list, &mut recorder), Ok(()));
    assert_eq!(recorder.instructions.len(), 2);
    assert_eq!(recorder.instructions[1].opcode(), OpCode::Sqrt);
}

#[test]
fn a_recording_names_earlier_tensors_only() {
    assert!(is_recorded_in_order(&diamond()));
    assert!(is_recorded_in_order(&vec![]));
    assert!(!is_recorded_in_order(&vec![TensorWithGrad::new(0, 1, vec![0])]));
    assert!(!is_recorded_in_order(&vec![
        TensorWithGrad::new(0, 1, vec![]),
        TensorWithGrad::new(2, 3, vec![0, 2]),
    ]));
}
