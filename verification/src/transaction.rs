//! Transactions: the single accesses to operands that a run of a program
//! consists of, in the order in which they happen.

use crate::dependencies::{program_of, Access, Program};
use vstd::prelude::*;

verus! {

/// One access of one instruction to one operand.
#[derive(Clone, Copy, Debug, PartialEq, Eq, PartialOrd, Ord, Hash, Structural)]
pub struct Transaction {
    pub instruction: usize,
    pub operand: usize,
    pub access: Access,
}

/// The accesses of one instruction: its reads in the order of its inputs,
/// then its writes in the order of its outputs.
pub open spec fn instruction_transactions(
    instruction: usize,
    inputs: Seq<usize>,
    outputs: Seq<usize>,
) -> Seq<Transaction> {
    Seq::new(
        inputs.len(),
        |k: int| Transaction { instruction, operand: inputs[k], access: Access::Read },
    ) + Seq::new(
        outputs.len(),
        |k: int| Transaction { instruction, operand: outputs[k], access: Access::Write },
    )
}

/// The accesses that happen when the instructions of `trace` run one after
/// another.
pub open spec fn transactions_along(trace: Seq<usize>, program: Program) -> Seq<Transaction>
    decreases trace.len(),
{
    if trace.len() == 0 {
        Seq::empty()
    } else {
        transactions_along(trace.drop_last(), program) + instruction_transactions(
            trace.last(),
            program[trace.last() as int].0,
            program[trace.last() as int].1,
        )
    }
}

/// The instructions of a program of `n` instructions in program order.
pub open spec fn program_order(n: nat) -> Seq<usize> {
    Seq::new(n, |i: int| i as usize)
}

/// Running one trace after another gives the accesses of the first, then
/// those of the second.
pub proof fn lemma_transactions_along_concat(first: Seq<usize>, then: Seq<usize>, program: Program)
    ensures
        transactions_along(first + then, program) == transactions_along(first, program)
            + transactions_along(then, program),
    decreases then.len(),
{
    if then.len() == 0 {
        assert(first + then == first);
    } else {
        lemma_transactions_along_concat(first, then.drop_last(), program);
        assert((first + then).drop_last() == first + then.drop_last());
        assert((first + then).last() == then.last());
    }
}

/// The accesses of one instruction.
pub fn get_instruction_transactions(instruction: usize, inputs: &[usize], outputs: &[usize]) -> (
    transactions: Vec<Transaction>)
    ensures
        transactions@ == instruction_transactions(instruction, inputs@, outputs@),
{
    let mut transactions: Vec<Transaction> = Vec::new();
    let mut k: usize = 0;
    while k < inputs.len()
        invariant
            k <= inputs@.len(),
            transactions@ == Seq::new(
                k as nat,
                |m: int| Transaction { instruction, operand: inputs@[m], access: Access::Read },
            ),
        decreases inputs@.len() - k,
    {
        transactions.push(Transaction { instruction, operand: inputs[k], access: Access::Read });
        k += 1;
    }
    let ghost reads = transactions@;
    let mut k: usize = 0;
    while k < outputs.len()
        invariant
            k <= outputs@.len(),
            transactions@ == reads + Seq::new(
                k as nat,
                |m: int| Transaction { instruction, operand: outputs@[m], access: Access::Write },
            ),
        decreases outputs@.len() - k,
    {
        transactions.push(Transaction { instruction, operand: outputs[k], access: Access::Write });
        k += 1;
    }
    transactions
}

/// Appends the entries of `more` to `transactions`.
pub fn append_transactions(transactions: &mut Vec<Transaction>, more: &Vec<Transaction>)
    ensures
        final(transactions)@ == old(transactions)@ + more@,
{
    let mut k: usize = 0;
    while k < more.len()
        invariant
            k <= more@.len(),
            transactions@ == old(transactions)@ + more@.take(k as int),
        decreases more@.len() - k,
    {
        transactions.push(more[k]);
        k += 1;
    }
    assert(more@.take(k as int) == more@);
}

/// The accesses of a whole program, instruction after instruction.
pub fn get_all_instruction_transactions(instructions: &[(Vec<usize>, Vec<usize>)]) -> (transactions:
    Vec<Transaction>)
    ensures
        transactions@ == transactions_along(
            program_order(instructions@.len()),
            program_of(instructions@),
        ),
{
    let ghost program = program_of(instructions@);
    let ghost n = instructions@.len();
    let mut transactions: Vec<Transaction> = Vec::new();
    let mut i: usize = 0;
    while i < instructions.len()
        invariant
            i <= instructions@.len(),
            n == instructions@.len(),
            program == program_of(instructions@),
            transactions@ == transactions_along(program_order(i as nat), program),
        decreases instructions@.len() - i,
    {
        let more = get_instruction_transactions(
            i,
            instructions[i].0.as_slice(),
            instructions[i].1.as_slice(),
        );
        append_transactions(&mut transactions, &more);
        proof {
            assert(program_order((i + 1) as nat).drop_last() == program_order(i as nat));
            assert(program_order((i + 1) as nat).last() == i);
        }
        i += 1;
    }
    transactions
}

} // verus!
