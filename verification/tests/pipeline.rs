use novigrad::pipeline::names_instructions_below;
use novigrad::bounded;
use novigrad::{
    execute_streams, get_all_instruction_transactions, make_simple_instructions, make_streams,
    reset_streams, run_streams, simulate_execution_and_collect_transactions, Access, Category,
    Error, Instruction, OpCode, Operator, OperatorAttributes, Recorder, StreamExecutor,
    StreamState, Transaction,
};

fn instruction(opcode: OpCode, inputs: Vec<usize>, outputs: Vec<usize>) -> Instruction {
    Instruction::new(opcode, OperatorAttributes::Nothing, inputs, outputs, Category::Inference)
}

/// Streams: [0, 3], [1], [2] after both, [4] after the first.
fn program() -> Vec<Instruction> {
    vec![
        instruction(OpCode::Zero, vec![], vec![1]),
        instruction(OpCode::Zero, vec![], vec![2]),
        instruction(OpCode::Add, vec![1, 2], vec![3]),
        instruction(OpCode::Sqrt, vec![1], vec![4]),
        instruction(OpCode::Bernoulli, vec![], vec![1]),
    ]
}

/// An operator layer that fails at one operator.
struct FailsAt {
    opcode: OpCode,
    ran: Vec<OpCode>,
}

impl Operator for FailsAt {
    fn execute(&mut self, instruction: &Instruction) -> Result<(), Error> {
        if instruction.opcode() == self.opcode {
            Err(Error::UnsupportedOperation)
        } else {
            self.ran.push(instruction.opcode());
            Ok(())
        }
    }
}

fn opcodes(recorder: &Recorder) -> Vec<OpCode> {
    recorder.instructions.iter().map(|x| x.opcode()).collect()
}

#[test]
fn the_pipeline_runs_streams_as_they_become_ready() {
    let instructions = program();
    let streams = make_streams(&make_simple_instructions(&instructions));
    let (recorder, outcome) = execute_streams(&streams, &instructions, 1, Recorder::new());
    assert_eq!(outcome, Ok(()));
    // Streams 0 and 1 are ready at the start; when both are done, stream 0
    // has set stream 3 free and stream 1 has set stream 2 free.
    assert_eq!(
        opcodes(&recorder),
        vec![OpCode::Zero, OpCode::Sqrt, OpCode::Zero, OpCode::Bernoulli, OpCode::Add]
    );
    assert_eq!(recorder.instructions[1].inputs(), &vec![1]);
    assert_eq!(recorder.instructions[1].outputs(), &vec![4]);
}

#[test]
fn the_pipeline_goes_on_after_what_an_operator_layer_has_run_before() {
    let instructions = program();
    let streams = make_streams(&make_simple_instructions(&instructions));
    let mut recorder = Recorder::new();
    recorder.execute(&instruction(OpCode::Transpose, vec![9], vec![9])).unwrap();
    let (recorder, outcome) = execute_streams(&streams, &instructions, 1, recorder);
    assert_eq!(outcome, Ok(()));
    assert_eq!(recorder.instructions.len(), 6);
    assert_eq!(recorder.instructions[0].opcode(), OpCode::Transpose);
}

#[test]
fn the_first_failure_ends_the_run_of_the_pipeline() {
    let instructions = program();
    let streams = make_streams(&make_simple_instructions(&instructions));
    let operators = FailsAt { opcode: OpCode::Bernoulli, ran: vec![] };
    let (operators, outcome) = execute_streams(&streams, &instructions, 1, operators);
    assert_eq!(outcome, Err(Error::UnsupportedOperation));
    assert_eq!(operators.ran, vec![OpCode::Zero, OpCode::Sqrt, OpCode::Zero]);

    let operators = FailsAt { opcode: OpCode::Sqrt, ran: vec![] };
    let (operators, outcome) = execute_streams(&streams, &instructions, 1, operators);
    assert_eq!(outcome, Err(Error::UnsupportedOperation));
    assert_eq!(operators.ran, vec![OpCode::Zero]);
}

#[test]
fn run_streams_hands_the_handler_back() {
    let instructions = program();
    let streams = make_streams(&make_simple_instructions(&instructions));
    let handler = StreamExecutor::new(Recorder::new());
    let (handler, outcome) = run_streams(&streams, &instructions, handler);
    assert_eq!(outcome, Ok(()));
    assert_eq!(handler.into_operators().instructions.len(), 5);
}

#[test]
fn no_streams_nothing_runs() {
    let (recorder, outcome) = execute_streams(&vec![], &vec![], 1, Recorder::new());
    assert_eq!(outcome, Ok(()));
    assert!(recorder.instructions.is_empty());
    assert!(simulate_execution_and_collect_transactions(&vec![], &vec![], &vec![], 1).is_empty());
}

#[test]
fn the_simulation_writes_the_accesses_down() {
    let instructions = program();
    let simple = make_simple_instructions(&instructions);
    let streams = make_streams(&simple);
    let transactions =
        simulate_execution_and_collect_transactions(&streams, &instructions, &simple, 1);
    let read = |instruction, operand| Transaction { instruction, operand, access: Access::Read };
    let write = |instruction, operand| Transaction { instruction, operand, access: Access::Write };
    assert_eq!(
        transactions,
        vec![write(0, 1), read(3, 1), write(3, 4), write(1, 2), write(4, 1), read(2, 1), read(2, 2), write(2, 3)]
    );
    // The same accesses as in program order, in another order.
    let mut in_order = get_all_instruction_transactions(&simple);
    let mut simulated = transactions.clone();
    in_order.sort();
    simulated.sort();
    assert_eq!(in_order, simulated);
}

#[test]
fn the_bounded_run_takes_the_streams_by_their_numbers() {
    let instructions = program();
    let mut streams = make_streams(&make_simple_instructions(&instructions));
    for bound in [0, 1, 2, 8] {
        let mut recorder = Recorder::new();
        let outcome = bounded::execute_streams(&mut streams, &instructions, bound, &mut recorder);
        assert_eq!(outcome, Ok(()));
        assert_eq!(
            opcodes(&recorder),
            vec![OpCode::Zero, OpCode::Sqrt, OpCode::Zero, OpCode::Add, OpCode::Bernoulli]
        );
        assert!(streams.iter().all(|x| x.state == StreamState::Joined));
        assert_eq!(streams[0].instructions, vec![0, 3]);
        assert_eq!(streams[2].dependencies, vec![0, 1]);
        reset_streams(&mut streams);
    }
}

#[test]
fn the_first_failure_ends_the_bounded_run() {
    let instructions = program();
    let mut streams = make_streams(&make_simple_instructions(&instructions));
    let mut operators = FailsAt { opcode: OpCode::Add, ran: vec![] };
    let outcome = bounded::execute_streams(&mut streams, &instructions, 2, &mut operators);
    assert_eq!(outcome, Err(Error::UnsupportedOperation));
    assert_eq!(operators.ran, vec![OpCode::Zero, OpCode::Sqrt, OpCode::Zero]);
    assert_eq!(streams[3].state, StreamState::Unreached);
    assert_eq!(streams[2].state, StreamState::Spawned);
}

#[test]
fn a_failed_bounded_run_leaves_the_active_streams_spawned() {
    let instructions = program();
    let states = |bound: usize| {
        let mut streams = make_streams(&make_simple_instructions(&instructions));
        let mut operators = FailsAt { opcode: OpCode::Bernoulli, ran: vec![] };
        let outcome = bounded::execute_streams(&mut streams, &instructions, bound, &mut operators);
        assert_eq!(outcome, Err(Error::UnsupportedOperation));
        assert_eq!(operators.ran, vec![OpCode::Zero, OpCode::Sqrt, OpCode::Zero, OpCode::Add]);
        streams.iter().map(|x| x.state).collect::<Vec<_>>()
    };
    let (joined, spawned) = (StreamState::Joined, StreamState::Spawned);
    // With room for one stream, each stream is joined before the next is
    // spawned. With room for two, stream 2 is still active when stream 3
    // fails. Without a bound, stream 2 is active too: its dependencies were
    // joined for it.
    assert_eq!(states(1), vec![joined, joined, joined, spawned]);
    assert_eq!(states(2), vec![joined, joined, spawned, spawned]);
    assert_eq!(states(0), vec![joined, joined, spawned, spawned]);
}

#[test]
fn a_layer_that_cannot_fail_runs_to_the_end() {
    let instructions = program();
    let mut streams = make_streams(&make_simple_instructions(&instructions));
    let mut recorder = Recorder::new();
    assert_eq!(bounded::execute_streams(&mut streams, &instructions, 3, &mut recorder), Ok(()));
    assert_eq!(recorder.instructions.len(), 5);
}

#[test]
fn streams_must_name_instructions_of_the_program() {
    let instructions = program();
    let streams = make_streams(&make_simple_instructions(&instructions));
    assert!(names_instructions_below(&streams, 5));
    assert!(names_instructions_below(&streams, 6));
    assert!(!names_instructions_below(&streams, 4));
    assert!(names_instructions_below(&vec![], 0));
}
