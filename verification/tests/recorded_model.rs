use novigrad::{
    get_all_instruction_transactions, get_operand_transaction_pairs, make_simple_instructions,
    make_streams, simulate_execution_and_collect_transactions, Access, Category, Instruction,
    NeuralMachine, OpCode, OperatorAttributes, Recorder, Stream, StreamEventHandler,
    TensorWithGrad, Transaction, TransactionEmitter,
};
use std::collections::BTreeSet;

fn data(tensor: usize) -> usize {
    2 * tensor
}

fn gradient(tensor: usize) -> usize {
    2 * tensor + 1
}

fn record(tensors: &mut Vec<TensorWithGrad>, inputs: Vec<usize>) -> usize {
    let tensor = tensors.len();
    tensors.push(TensorWithGrad::new(data(tensor), gradient(tensor), inputs));
    tensor
}

fn instruction(
    opcode: OpCode,
    inputs: Vec<usize>,
    outputs: Vec<usize>,
    category: Category,
) -> Instruction {
    Instruction::new(opcode, OperatorAttributes::Nothing, inputs, outputs, category)
}

/// One attention-like head: two products of the input with weights, their
/// product, a softmax and a cross-entropy loss, with gradient descent on
/// the weights.
fn recorded_model() -> (Vec<TensorWithGrad>, usize, Vec<Instruction>) {
    let mut tensors: Vec<TensorWithGrad> = Vec::new();
    let x = record(&mut tensors, vec![]);
    let w_q = record(&mut tensors, vec![]);
    let w_k = record(&mut tensors, vec![]);
    let q = record(&mut tensors, vec![x, w_q]);
    tensors[q].push_instruction(instruction(
        OpCode::Gemm,
        vec![data(x), data(w_q), data(q)],
        vec![data(q)],
        Category::Inference,
    ));
    tensors[q].push_instruction(instruction(
        OpCode::Gemm,
        vec![gradient(q), data(x)],
        vec![gradient(w_q)],
        Category::Gradient,
    ));
    tensors[q].push_instruction(instruction(
        OpCode::Gemm,
        vec![gradient(q), data(w_q)],
        vec![gradient(x)],
        Category::Gradient,
    ));
    let k = record(&mut tensors, vec![x, w_k]);
    tensors[k].push_instruction(instruction(
        OpCode::Gemm,
        vec![data(x), data(w_k), data(k)],
        vec![data(k)],
        Category::Inference,
    ));
    tensors[k].push_instruction(instruction(
        OpCode::Gemm,
        vec![gradient(k), data(x)],
        vec![gradient(w_k)],
        Category::Gradient,
    ));
    tensors[k].push_instruction(instruction(
        OpCode::Gemm,
        vec![gradient(k), data(w_k)],
        vec![gradient(x)],
        Category::Gradient,
    ));
    let s = record(&mut tensors, vec![q, k]);
    tensors[s].push_instruction(instruction(
        OpCode::Mul,
        vec![data(q), data(k)],
        vec![data(s)],
        Category::Inference,
    ));
    tensors[s].push_instruction(instruction(
        OpCode::Mul,
        vec![gradient(s), data(k)],
        vec![gradient(q)],
        Category::Gradient,
    ));
    tensors[s].push_instruction(instruction(
        OpCode::Mul,
        vec![gradient(s), data(q)],
        vec![gradient(k)],
        Category::Gradient,
    ));
    let p = record(&mut tensors, vec![s]);
    tensors[p].push_instruction(instruction(
        OpCode::Softmax,
        vec![data(s)],
        vec![data(p)],
        Category::Inference,
    ));
    tensors[p].push_instruction(instruction(
        OpCode::SoftmaxBackward,
        vec![data(p), gradient(p)],
        vec![gradient(s)],
        Category::Gradient,
    ));
    let y = record(&mut tensors, vec![]);
    let loss = record(&mut tensors, vec![y, p]);
    tensors[loss].push_instruction(instruction(
        OpCode::CrossEntropyLoss,
        vec![data(y), data(p)],
        vec![data(loss)],
        Category::Loss,
    ));
    tensors[loss].push_instruction(instruction(
        OpCode::CrossEntropyLossBackward,
        vec![data(y), data(p)],
        vec![gradient(p)],
        Category::Gradient,
    ));
    let optimization = vec![
        instruction(
            OpCode::GradientDescent,
            vec![gradient(w_q), data(w_q)],
            vec![data(w_q)],
            Category::Optimization,
        ),
        instruction(
            OpCode::GradientDescent,
            vec![gradient(w_k), data(w_k)],
            vec![data(w_k)],
            Category::Optimization,
        ),
    ];
    (tensors, loss, optimization)
}

fn get_test_machine() -> NeuralMachine {
    let (tensors, loss, optimization) = recorded_model();
    NeuralMachine::try_new(&tensors, loss, &optimization, &vec![0, 14]).unwrap()
}

fn get_test_instructions() -> Vec<(Vec<usize>, Vec<usize>)> {
    let neural_machine = get_test_machine();
    let instructions = vec![
        neural_machine.instructions(&Category::Inference),
        neural_machine.instructions(&Category::Loss),
        neural_machine.instructions(&Category::Gradient),
        neural_machine.instructions(&Category::Optimization),
    ]
    .concat();
    make_simple_instructions(&instructions)
}

/// Runs, again and again, the first stream that has not run and whose
/// dependencies have all run, and writes the accesses down.
fn spawn_and_join_streams(
    streams: &Vec<Stream>,
    instructions: &Vec<(Vec<usize>, Vec<usize>)>,
) -> Vec<Transaction> {
    let mut emitter = TransactionEmitter::new(streams, instructions);
    let mut unreached_streams: BTreeSet<usize> = (0..streams.len()).collect();
    let mut joined_streams = BTreeSet::<usize>::new();
    while joined_streams.len() != streams.len() {
        let stream_to_spawn = unreached_streams
            .iter()
            .find(|stream| streams[**stream].dependencies.iter().all(|x| joined_streams.contains(x)))
            .copied()
            .unwrap();
        unreached_streams.remove(&stream_to_spawn);
        emitter.on_execute(streams, &Vec::new(), stream_to_spawn).unwrap();
        joined_streams.insert(stream_to_spawn);
    }
    emitter.actual_transactions
}

/// The accesses in the two orders in which the streams are run here: the
/// first ready stream first, and the order of the pipeline.
fn both_runs(
    streams: &Vec<Stream>,
    instructions: &Vec<(Vec<usize>, Vec<usize>)>,
) -> Vec<Vec<Transaction>> {
    vec![
        spawn_and_join_streams(streams, instructions),
        simulate_execution_and_collect_transactions(streams, &Vec::new(), instructions, 1),
    ]
}

fn pairs_are_kept(access: Access, prior_access: Access) {
    let instructions = get_test_instructions();
    let expected_transactions = get_all_instruction_transactions(&instructions);
    let expected_pairs =
        get_operand_transaction_pairs(&access, &prior_access, &expected_transactions);
    assert!(!expected_pairs.is_empty());
    let actual_streams = make_streams(&instructions);
    for actual_transactions in both_runs(&actual_streams, &instructions) {
        let actual_pairs =
            get_operand_transaction_pairs(&access, &prior_access, &actual_transactions);
        for (operand, expected) in expected_pairs.iter() {
            assert_eq!(expected, actual_pairs.get(operand).unwrap());
        }
    }
}

#[test]
fn each_instruction_of_the_recorded_model_is_in_one_stream() {
    let instructions = get_test_instructions();
    let expected_instructions = (0..instructions.len()).collect::<Vec<_>>();
    let streams = make_streams(&instructions);
    let mut actual_instructions = streams
        .iter()
        .map(|x| x.instructions.clone())
        .collect::<Vec<_>>()
        .concat();
    actual_instructions.sort();
    assert_eq!(expected_instructions, actual_instructions);
}

#[test]
fn the_recorded_model_has_thirty_instructions_in_fifteen_streams() {
    let instructions = get_test_instructions();
    assert_eq!(30, instructions.len());
    let streams = make_streams(&instructions);
    assert_eq!(15, streams.len());
}

#[test]
fn the_recorded_model_keeps_the_write_before_each_read() {
    pairs_are_kept(Access::Read, Access::Write);
}

#[test]
fn the_recorded_model_keeps_the_write_before_each_write() {
    pairs_are_kept(Access::Write, Access::Write);
}

#[test]
fn the_recorded_model_keeps_the_read_before_each_write() {
    pairs_are_kept(Access::Write, Access::Read);
}

#[test]
fn the_recorded_model_compiles_to_the_expected_program() {
    let machine = get_test_machine();
    let opcodes: Vec<OpCode> = machine.all_instructions().iter().map(|x| x.opcode()).collect();
    let expected = vec![
        OpCode::Gemm,
        OpCode::Gemm,
        OpCode::Mul,
        OpCode::Softmax,
        OpCode::CrossEntropyLoss,
        OpCode::CrossEntropyLossBackward,
        OpCode::Clip,
        OpCode::Clip,
        OpCode::Identity,
        OpCode::Clip,
        OpCode::Mul,
        OpCode::Clip,
        OpCode::Clip,
        OpCode::Mul,
        OpCode::Clip,
        OpCode::Clip,
        OpCode::Gemm,
        OpCode::Clip,
        OpCode::Clip,
        OpCode::Gemm,
        OpCode::Clip,
        OpCode::Clip,
        OpCode::Gemm,
        OpCode::Clip,
        OpCode::Clip,
        OpCode::Gemm,
        OpCode::Clip,
        OpCode::Clip,
        OpCode::GradientDescent,
        OpCode::GradientDescent,
    ];
    assert_eq!(expected, opcodes);
    // The copy that stands in for the softmax gradient reads the gradient
    // that came in and writes what the softmax gradient wrote.
    let copy = &machine.all_instructions()[8];
    assert_eq!(copy.inputs(), &vec![13]);
    assert_eq!(copy.outputs(), &vec![11]);
    assert_eq!(copy.category(), Category::Gradient);
    // Every gradient instruction is followed by a clip without operands
    // and by the clip of what it wrote.
    // The clip without operands behind the copy has left; the clip of what
    // the copy wrote stays.
    assert_eq!(machine.all_instructions()[9].outputs(), &vec![11]);
    let gradient_instruction = &machine.all_instructions()[10];
    let bare = &machine.all_instructions()[11];
    let clip = &machine.all_instructions()[12];
    assert!(bare.inputs().is_empty() && bare.outputs().is_empty());
    assert!(clip.inputs().is_empty());
    assert_eq!(clip.outputs(), gradient_instruction.outputs());
    assert_eq!(clip.attributes(), OperatorAttributes::Scalar(1.0_f32.to_bits()));
}

#[test]
fn the_streams_of_the_recorded_model() {
    let machine = get_test_machine();
    let streams = machine.streams();
    assert_eq!(streams.len(), 15);
    assert_eq!(streams[2].instructions, vec![2, 3, 4, 5, 7, 8, 9]);
    assert_eq!(streams[2].dependencies, vec![0, 1]);
    assert_eq!(streams[4].instructions, vec![10, 12, 22, 24]);
    assert_eq!(streams[4].dependencies, vec![1, 2]);
    assert_eq!(streams[6].instructions, vec![13, 15, 16, 18, 19, 21]);
    assert_eq!(streams[6].dependencies, vec![0, 2]);
    assert_eq!(streams[11].instructions, vec![25, 27]);
    assert_eq!(streams[11].dependencies, vec![4, 6]);
    assert_eq!(streams[13].instructions, vec![28]);
    assert_eq!(streams[13].dependencies, vec![4, 11]);
    assert_eq!(streams[14].instructions, vec![29]);
    assert_eq!(streams[14].dependencies, vec![6]);
    for (id, stream) in streams.iter().enumerate() {
        assert_eq!(stream.id, id);
    }
}

#[test]
fn running_by_streams_runs_what_running_in_order_runs() {
    let machine = get_test_machine();
    let mut in_order = Recorder::new();
    machine.forward(&mut in_order).unwrap();
    assert_eq!(in_order.instructions.len(), 30);
    let (by_streams, outcome) = machine.run(Recorder::new());
    assert_eq!(outcome, Ok(()));
    assert_eq!(by_streams.instructions.len(), 30);
    // Each instruction runs once, and after the instructions it depends on.
    let simple = make_simple_instructions(machine.all_instructions());
    let dependencies = novigrad::get_instruction_dependencies(&simple);
    let place = |inputs: &Vec<usize>, outputs: &Vec<usize>, opcode: OpCode, from: usize| {
        // Instructions are told apart by operator and operands; the clips
        // without operands are alike and depend on nothing.
        machine.all_instructions().iter().enumerate().position(|(i, x)| {
            i >= from && x.opcode() == opcode && x.inputs() == inputs && x.outputs() == outputs
        })
    };
    let mut order: Vec<usize> = Vec::new();
    for ran in by_streams.instructions.iter() {
        let mut from = 0;
        loop {
            let found = place(ran.inputs(), ran.outputs(), ran.opcode(), from).unwrap();
            if order.contains(&found) {
                from = found + 1;
            } else {
                order.push(found);
                break;
            }
        }
    }
    let mut sorted = order.clone();
    sorted.sort();
    assert_eq!(sorted, (0..30).collect::<Vec<_>>());
    for (position, instruction) in order.iter().enumerate() {
        let record = &dependencies[*instruction];
        for needed in record
            .write_before_read
            .iter()
            .chain(record.write_before_write.iter())
            .chain(record.read_before_write.iter())
        {
            if machine.all_instructions()[*needed].inputs().is_empty()
                && machine.all_instructions()[*needed].outputs().is_empty()
            {
                continue;
            }
            let earlier = order.iter().position(|x| x == needed).unwrap();
            assert!(earlier < position);
        }
    }
}
