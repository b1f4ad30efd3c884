//! The dependency analyzer: which earlier instructions an instruction has to
//! wait for.
//!
//! A program is a flat list of instructions, each with the operands it reads
//! and the operands it writes. Two accesses to one operand must keep their
//! order unless both are reads.

use vstd::prelude::*;

verus! {

/// How an instruction touches an operand.
#[derive(Clone, Copy, Debug, PartialEq, Eq, PartialOrd, Ord, Hash, Structural)]
pub enum Access {
    Read,
    Write,
}

/// The instructions that one instruction depends on, by kind of hazard.
#[derive(Clone, Debug)]
pub struct Dependencies {
    /// For each operand read: the nearest earlier instruction that writes it.
    pub write_before_read: Vec<usize>,
    /// For each operand written: the nearest earlier instruction that writes it.
    pub write_before_write: Vec<usize>,
    /// For each operand written: the nearest earlier instruction that reads it.
    pub read_before_write: Vec<usize>,
}

impl Default for Dependencies {
    fn default() -> (record: Self)
        ensures
            record.write_before_read@.len() == 0,
            record.write_before_write@.len() == 0,
            record.read_before_write@.len() == 0,
    {
        Dependencies {
            write_before_read: Vec::new(),
            write_before_write: Vec::new(),
            read_before_write: Vec::new(),
        }
    }
}

/// A program as mathematics: for each instruction, the operands it reads
/// and the operands it writes.
pub type Program = Seq<(Seq<usize>, Seq<usize>)>;

/// The mathematical program that a list of instructions stands for.
pub open spec fn program_of(instructions: Seq<(Vec<usize>, Vec<usize>)>) -> Program {
    Seq::new(instructions.len(), |i: int| (instructions[i].0@, instructions[i].1@))
}

/// Whether instruction `i` of `program` accesses `operand` in the given way.
pub open spec fn touches(program: Program, i: int, operand: usize, access: Access) -> bool {
    match access {
        Access::Read => program[i].0.contains(operand),
        Access::Write => program[i].1.contains(operand),
    }
}

/// The last instruction before `i` that accesses `operand` in the given way,
/// if there is one.
pub open spec fn nearest_prior(program: Program, i: int, operand: usize, access: Access) -> Option<
    int,
>
    decreases i,
{
    if i <= 0 {
        None
    } else if touches(program, i - 1, operand, access) {
        Some(i - 1)
    } else {
        nearest_prior(program, i - 1, operand, access)
    }
}

/// For each of `operands` in turn, the nearest instruction before `i` that
/// accesses it in the given way; operands without one contribute nothing.
pub open spec fn hazards(program: Program, i: int, operands: Seq<usize>, access: Access) -> Seq<
    usize,
>
    decreases operands.len(),
{
    if operands.len() == 0 {
        Seq::empty()
    } else {
        let before = hazards(program, i, operands.drop_last(), access);
        match nearest_prior(program, i, operands.last(), access) {
            Some(j) => before.push(j as usize),
            None => before,
        }
    }
}

/// Whether `found` is the dependency record of instruction `i`.
pub open spec fn is_record_of(found: Dependencies, program: Program, i: int) -> bool {
    &&& found.write_before_read@ == hazards(program, i, program[i].0, Access::Write)
    &&& found.write_before_write@ == hazards(program, i, program[i].1, Access::Write)
    &&& found.read_before_write@ == hazards(program, i, program[i].1, Access::Read)
}

/// `nearest_prior` names an instruction exactly when it is the greatest
/// index below `i` that accesses the operand.
pub proof fn lemma_nearest_prior(program: Program, i: int, operand: usize, access: Access)
    ensures
        match nearest_prior(program, i, operand, access) {
            Some(j) => {
                &&& 0 <= j < i
                &&& touches(program, j, operand, access)
                &&& forall|k: int| j < k < i ==> !touches(program, k, operand, access)
            },
            None => forall|k: int| 0 <= k < i ==> !touches(program, k, operand, access),
        },
    decreases i,
{
    if i > 0 && !touches(program, i - 1, operand, access) {
        lemma_nearest_prior(program, i - 1, operand, access);
    }
}

/// Every entry of a hazard list is the nearest prior access to one of the
/// operands, and every operand with a prior access has its entry.
pub proof fn lemma_hazards(program: Program, i: int, operands: Seq<usize>, access: Access)
    requires
        i <= usize::MAX,
    ensures
        forall|j: usize|
            hazards(program, i, operands, access).contains(j) <==> exists|k: int|
                0 <= k < operands.len() && #[trigger] nearest_prior(
                    program,
                    i,
                    operands[k],
                    access,
                ) == Some(j as int),
        forall|k: int|
            0 <= k < hazards(program, i, operands, access).len() ==> hazards(
                program,
                i,
                operands,
                access,
            )[k] < i,
    decreases operands.len(),
{
    let all = hazards(program, i, operands, access);
    if operands.len() > 0 {
        let front = operands.drop_last();
        let before = hazards(program, i, front, access);
        lemma_hazards(program, i, front, access);
        lemma_nearest_prior(program, i, operands.last(), access);
        let last = nearest_prior(program, i, operands.last(), access);
        assert forall|j: usize| all.contains(j) implies exists|k: int|
            0 <= k < operands.len() && #[trigger] nearest_prior(program, i, operands[k], access)
                == Some(j as int) by {
            if before.contains(j) {
                let k = choose|k: int|
                    0 <= k < front.len() && #[trigger] nearest_prior(program, i, front[k], access)
                        == Some(j as int);
                assert(front[k] == operands[k]);
            } else {
                let at = choose|at: int| 0 <= at < all.len() && all[at] == j;
                assert(at == before.len());
                assert(last == Some(j as int));
                assert(operands[operands.len() - 1] == operands.last());
            }
        }
        assert forall|j: usize|
            (exists|k: int|
                0 <= k < operands.len() && #[trigger] nearest_prior(
                    program,
                    i,
                    operands[k],
                    access,
                ) == Some(j as int)) implies all.contains(j) by {
            let k = choose|k: int|
                0 <= k < operands.len() && #[trigger] nearest_prior(program, i, operands[k], access)
                    == Some(j as int);
            if k < front.len() {
                assert(front[k] == operands[k]);
                assert(before.contains(j));
                let at = choose|at: int| 0 <= at < before.len() && before[at] == j;
                assert(all[at] == j);
            } else {
                assert(all[before.len() as int] == j);
            }
        }
    }
}

/// Whether `operand` occurs in `operands`.
pub fn contains_operand(operands: &Vec<usize>, operand: usize) -> (found: bool)
    ensures
        found == operands@.contains(operand),
{
    let mut k: usize = 0;
    while k < operands.len()
        invariant
            k <= operands.len(),
            forall|m: int| 0 <= m < k ==> operands@[m] != operand,
        decreases operands.len() - k,
    {
        if operands[k] == operand {
            return true;
        }
        k += 1;
    }
    false
}

/// The last instruction before `i` that accesses `operand` in the given way.
pub fn find_nearest_prior(
    instructions: &[(Vec<usize>, Vec<usize>)],
    i: usize,
    operand: usize,
    access: Access,
) -> (found: Option<usize>)
    requires
        i <= instructions@.len(),
    ensures
        match found {
            Some(j) => nearest_prior(program_of(instructions@), i as int, operand, access) == Some(
                j as int,
            ),
            None => nearest_prior(program_of(instructions@), i as int, operand, access) is None,
        },
{
    let ghost program = program_of(instructions@);
    let mut j: usize = i;
    while j > 0
        invariant
            j <= i <= instructions@.len(),
            program == program_of(instructions@),
            nearest_prior(program, i as int, operand, access) == nearest_prior(
                program,
                j as int,
                operand,
                access,
            ),
        decreases j,
    {
        let hit = match access {
            Access::Read => contains_operand(&instructions[j - 1].0, operand),
            Access::Write => contains_operand(&instructions[j - 1].1, operand),
        };
        if hit {
            return Some(j - 1);
        }
        j -= 1;
    }
    None
}

/// The hazard list of instruction `i` for the given operands.
fn collect_hazards(
    instructions: &[(Vec<usize>, Vec<usize>)],
    i: usize,
    operands: &Vec<usize>,
    access: Access,
) -> (found: Vec<usize>)
    requires
        i <= instructions@.len(),
    ensures
        found@ == hazards(program_of(instructions@), i as int, operands@, access),
{
    let ghost program = program_of(instructions@);
    let mut found: Vec<usize> = Vec::new();
    let mut k: usize = 0;
    while k < operands.len()
        invariant
            k <= operands.len(),
            i <= instructions@.len(),
            program == program_of(instructions@),
            found@ == hazards(program, i as int, operands@.take(k as int), access),
        decreases operands.len() - k,
    {
        assert(operands@.take(k + 1).drop_last() == operands@.take(k as int));
        if let Some(j) = find_nearest_prior(instructions, i, operands[k], access) {
            found.push(j);
        }
        k += 1;
    }
    assert(operands@.take(k as int) == operands@);
    found
}

/// One dependency record per instruction: for every operand an instruction
/// reads, the nearest earlier writer of it; for every operand it writes, the
/// nearest earlier writer and the nearest earlier reader of it.
pub fn get_instruction_dependencies(instructions: &[(Vec<usize>, Vec<usize>)]) -> (dependencies:
    Vec<Dependencies>)
    ensures
        dependencies@.len() == instructions@.len(),
        forall|i: int|
            0 <= i < instructions@.len() ==> is_record_of(
                #[trigger] dependencies@[i],
                program_of(instructions@),
                i,
            ),
{
    let ghost program = program_of(instructions@);
    let mut dependencies: Vec<Dependencies> = Vec::new();
    let mut i: usize = 0;
    while i < instructions.len()
        invariant
            i <= instructions@.len(),
            program == program_of(instructions@),
            dependencies@.len() == i,
            forall|m: int| 0 <= m < i ==> is_record_of(#[trigger] dependencies@[m], program, m),
        decreases instructions@.len() - i,
    {
        let write_before_read = collect_hazards(instructions, i, &instructions[i].0, Access::Write);
        let write_before_write = collect_hazards(
            instructions,
            i,
            &instructions[i].1,
            Access::Write,
        );
        let read_before_write = collect_hazards(instructions, i, &instructions[i].1, Access::Read);
        dependencies.push(Dependencies { write_before_read, write_before_write, read_before_write });
        i += 1;
    }
    dependencies
}

} // verus!
