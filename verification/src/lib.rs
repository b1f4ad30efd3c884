//! The execution core of a tensor engine.
//!
//! A recorded computation becomes a flat list of instructions. The
//! dependency analyzer finds which instructions must keep their order, the
//! stream builder chains instructions into streams, and the scheduler runs
//! the streams so that every instruction comes after the instructions it
//! depends on.

pub mod bounded;
pub mod dependencies;
pub mod dispatch;
pub mod error;
pub mod fusion;
pub mod handlers;
pub mod instruction;
pub mod neural_machine;
pub mod pairs;
pub mod pipeline;
pub mod schedule;
pub mod scheduler;
pub mod sequences;
pub mod streams;
pub mod tape;
pub mod transaction;

pub use dependencies::{get_instruction_dependencies, Access, Dependencies};
pub use error::Error;
pub use fusion::optimize_softmax_and_cross_entropy_loss;
pub use handlers::{StreamEventHandler, StreamExecutor, TransactionEmitter};
pub use instruction::{Category, Instruction, OpCode, Operator, OperatorAttributes, Recorder};
pub use neural_machine::NeuralMachine;
pub use pairs::{get_operand_transaction_pairs, group_by_operand};
pub use pipeline::{
    execute_streams, run_streams, simulate_execution_and_collect_transactions, ExecutionUnit,
};
pub use scheduler::{Scheduler, STOP};
pub use streams::{
    assign_instructions_to_streams, make_simple_instructions, make_streams, reset_streams,
    verify_machine_inputs, Stream, StreamState,
};
pub use tape::{get_tape, TensorWithGrad};
pub use transaction::{
    get_all_instruction_transactions, get_instruction_transactions, Transaction,
};
