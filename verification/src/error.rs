use vstd::prelude::*;

verus! {

/// What can go wrong while a program is compiled or run.
#[derive(Clone, Copy, Debug, PartialEq, Eq, Structural)]
pub enum Error {
    /// Two operands of one operator do not have shapes that fit together.
    IncompatibleTensorShapes,
    /// An operator was configured with attributes it cannot work with.
    IncorrectOperatorConfiguration,
    /// An operator was asked for something it does not implement.
    UnsupportedOperation,
    /// An instruction writes to an operand that the caller owns and the
    /// program may only read.
    MachineInputWritten { instruction: usize, operand: usize },
}

} // verus!
