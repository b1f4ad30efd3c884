use novigrad::{
    make_simple_instructions, make_streams, reset_streams, verify_machine_inputs, Category,
    Error, Instruction, OpCode, OperatorAttributes, Stream, StreamState,
};

/// Two readers of one operand in different streams, and a later writer that
/// waits for the nearer of the two only.
fn late_writer() -> Vec<(Vec<usize>, Vec<usize>)> {
    vec![
        (vec![], vec![1]),
        (vec![], vec![2]),
        (vec![1, 2], vec![3]),
        (vec![1], vec![4]),
        (vec![], vec![1]),
    ]
}

#[test]
fn streams_partition_the_instructions() {
    let instructions = late_writer();
    let streams = make_streams(&instructions);
    let mut all: Vec<usize> = streams.iter().flat_map(|x| x.instructions.clone()).collect();
    all.sort();
    assert_eq!(all, vec![0, 1, 2, 3, 4]);
    for stream in streams.iter() {
        assert!(!stream.instructions.is_empty());
        assert!(stream.instructions.windows(2).all(|pair| pair[0] < pair[1]));
        assert!(stream.dependencies.windows(2).all(|pair| pair[0] < pair[1]));
        assert!(stream.dependencies.iter().all(|x| *x < stream.id));
    }
}

#[test]
fn a_late_writer_waits_for_its_nearest_reader_and_writer() {
    let streams = make_streams(&late_writer());
    assert_eq!(streams.len(), 4);
    assert_eq!(streams[0].instructions, vec![0, 3]);
    assert_eq!(streams[1].instructions, vec![1]);
    assert_eq!(streams[2].instructions, vec![2]);
    assert_eq!(streams[2].dependencies, vec![0, 1]);
    // Instruction 4 depends on instruction 0, which wrote the operand, and
    // on instruction 3, which read it last. Both are in stream 0.
    assert_eq!(streams[3].instructions, vec![4]);
    assert_eq!(streams[3].dependencies, vec![0]);
}

#[test]
fn streams_start_unreached_and_reset_puts_them_back() {
    let mut streams = make_streams(&late_writer());
    assert!(streams.iter().all(|x| x.state == StreamState::Unreached));
    streams[0].state = StreamState::Joined;
    streams[1].state = StreamState::Spawned;
    reset_streams(&mut streams);
    assert!(streams.iter().all(|x| x.state == StreamState::Unreached));
    assert_eq!(streams[0].instructions, vec![0, 3]);
    assert_eq!(streams[2].dependencies, vec![0, 1]);
    assert_eq!(streams[3].id, 3);
}

#[test]
fn reset_of_no_streams() {
    let mut streams: Vec<Stream> = vec![];
    reset_streams(&mut streams);
    assert!(streams.is_empty());
}

#[test]
fn stream_states_have_names() {
    assert_eq!(StreamState::Unreached.name(), "Unreached");
    assert_eq!(StreamState::Spawned.name(), "Spawned");
    assert_eq!(StreamState::Joined.name(), "Joined");
    assert_eq!(StreamState::default(), StreamState::Unreached);
}

#[test]
fn machine_inputs_that_are_only_read_pass() {
    let instructions = late_writer();
    assert_eq!(verify_machine_inputs(&[], &instructions), Ok(()));
    assert_eq!(verify_machine_inputs(&[7, 8], &instructions), Ok(()));
    assert_eq!(verify_machine_inputs(&[7], &[]), Ok(()));
}

#[test]
fn a_write_to_a_machine_input_is_reported() {
    let instructions = late_writer();
    assert_eq!(
        verify_machine_inputs(&[3], &instructions),
        Err(Error::MachineInputWritten { instruction: 2, operand: 3 })
    );
    // The first machine input that is written to is named, with the first
    // instruction that writes to it.
    assert_eq!(
        verify_machine_inputs(&[9, 1, 2], &instructions),
        Err(Error::MachineInputWritten { instruction: 0, operand: 1 })
    );
    assert_eq!(
        verify_machine_inputs(&[2, 1], &instructions),
        Err(Error::MachineInputWritten { instruction: 1, operand: 2 })
    );
}

#[test]
fn simple_instructions_keep_the_operands() {
    let instructions = vec![
        Instruction::new(
            OpCode::Gemm,
            OperatorAttributes::ThreeBools(false, true, false),
            vec![1, 2, 3],
            vec![3],
            Category::Inference,
        ),
        Instruction::new(
            OpCode::Clip,
            OperatorAttributes::Nothing,
            vec![],
            vec![],
            Category::Gradient,
        ),
    ];
    let simple = make_simple_instructions(&instructions);
    assert_eq!(simple, vec![(vec![1, 2, 3], vec![3]), (vec![], vec![])]);
    assert_eq!(instructions[0].opcode(), OpCode::Gemm);
    assert_eq!(instructions[0].attributes(), OperatorAttributes::ThreeBools(false, true, false));
    assert_eq!(instructions[0].category(), Category::Inference);
    let copy = instructions[0].clone();
    assert_eq!(copy.inputs(), instructions[0].inputs());
    assert_eq!(copy.outputs(), instructions[0].outputs());
    assert_eq!(copy.opcode(), OpCode::Gemm);
}
