//! The tape: the recorded tensors that lead to a result, each after the
//! tensors it was computed from.
//!
//! While a model runs forward, every tensor it produces is recorded with
//! the tensors it was computed from and with the instructions that compute
//! it and its gradient. The tensors are numbered as they are recorded, so a
//! tensor is computed from tensors with smaller numbers only.

use crate::error::Error;
use crate::instruction::{
    carries_out, fails_at, lemma_carries_out_next, lemma_carries_out_nothing, lemma_fails_next,
    views, Category, Instruction, InstructionView, Operator,
};
use vstd::prelude::*;

verus! {

/// A recorded tensor: where its values and its gradient live, the recorded
/// tensors it was computed from, and the instructions recorded for it.
pub struct TensorWithGrad {
    /// The earlier tensors that this one was computed from.
    pub inputs: Vec<usize>,
    pub instructions: Vec<Instruction>,
    /// The operand that holds the values.
    pub tensor: usize,
    /// The operand that holds the gradient.
    pub gradient: usize,
}

/// Whether an instruction of this category computes values.
pub open spec fn is_forward(category: Category) -> bool {
    category == Category::Inference || category == Category::Loss
}

/// Whether an instruction of this category is wanted: one that computes
/// values if `forward`, one that computes a gradient if not.
pub open spec fn is_wanted(category: Category, forward: bool) -> bool {
    if forward {
        is_forward(category)
    } else {
        category == Category::Gradient
    }
}

/// The wanted instructions of a list, in their order.
pub open spec fn wanted(list: Seq<InstructionView>, forward: bool) -> Seq<InstructionView>
    decreases list.len(),
{
    if list.len() == 0 {
        Seq::empty()
    } else if is_wanted(list.last().category, forward) {
        wanted(list.drop_last(), forward).push(list.last())
    } else {
        wanted(list.drop_last(), forward)
    }
}

/// Whether a tensor has instructions that compute values.
pub open spec fn has_forward(tensor: TensorWithGrad) -> bool {
    wanted(views(tensor.instructions@), true).len() > 0
}

/// Whether every tensor was computed from tensors recorded before it.
pub open spec fn recorded_in_order(tensors: Seq<TensorWithGrad>) -> bool {
    forall|t: int, k: int|
        0 <= t < tensors.len() && 0 <= k < tensors[t].inputs@.len() ==> (
        #[trigger] tensors[t].inputs@[k]) < t
}

/// The tape that ends in tensor `t`: nothing if the tensor has no
/// instructions that compute values; else the tapes of its inputs, one
/// after another, and then the tensor itself. A tensor that is reached on
/// several ways stands on the tape once for each way.
pub open spec fn walk(tensors: Seq<TensorWithGrad>, t: int) -> Seq<usize>
    decreases t, 1nat, 0nat,
{
    if t >= 0 && has_forward(tensors[t]) {
        walk_inputs(tensors, t, tensors[t].inputs@.len()).push(t as usize)
    } else {
        Seq::empty()
    }
}

/// The tapes of the first `k` inputs of tensor `t`, one after another.
pub open spec fn walk_inputs(tensors: Seq<TensorWithGrad>, t: int, k: nat) -> Seq<usize>
    decreases t, 0nat, k,
{
    if k == 0 || t < 0 {
        Seq::empty()
    } else if tensors[t].inputs@[k - 1] < t {
        walk_inputs(tensors, t, (k - 1) as nat) + walk(tensors, tensors[t].inputs@[k - 1] as int)
    } else {
        walk_inputs(tensors, t, (k - 1) as nat)
    }
}

/// The tapes of the tensors of `stack`, one after another.
pub open spec fn walks(tensors: Seq<TensorWithGrad>, stack: Seq<usize>) -> Seq<usize>
    decreases stack.len(),
{
    if stack.len() == 0 {
        Seq::empty()
    } else {
        walks(tensors, stack.drop_last()) + walk(tensors, stack.last() as int)
    }
}

/// How many steps the walk from tensor `t` takes.
pub open spec fn effort(tensors: Seq<TensorWithGrad>, t: int) -> nat
    decreases t, 1nat, 0nat,
{
    if t >= 0 && has_forward(tensors[t]) {
        effort_inputs(tensors, t, tensors[t].inputs@.len()) + 1
    } else {
        1
    }
}

/// How many steps the walks from the first `k` inputs of tensor `t` take.
pub open spec fn effort_inputs(tensors: Seq<TensorWithGrad>, t: int, k: nat) -> nat
    decreases t, 0nat, k,
{
    if k == 0 || t < 0 {
        0
    } else if tensors[t].inputs@[k - 1] < t {
        effort_inputs(tensors, t, (k - 1) as nat) + effort(
            tensors,
            tensors[t].inputs@[k - 1] as int,
        )
    } else {
        effort_inputs(tensors, t, (k - 1) as nat)
    }
}

/// How many steps the walks from the tensors of `stack` take.
pub open spec fn efforts(tensors: Seq<TensorWithGrad>, stack: Seq<usize>) -> nat
    decreases stack.len(),
{
    if stack.len() == 0 {
        0
    } else {
        efforts(tensors, stack.drop_last()) + effort(tensors, stack.last() as int)
    }
}

/// On a tape every tensor stands after the tapes of all its inputs: before
/// each place where tensor `t` stands, the tape of each input of `t` stands
/// as a whole.
pub proof fn lemma_inputs_come_first(tensors: Seq<TensorWithGrad>, t: int, k: int)
    requires
        recorded_in_order(tensors),
        0 <= t < tensors.len() <= usize::MAX,
        has_forward(tensors[t]),
        0 <= k < tensors[t].inputs@.len(),
    ensures
        exists|from: int|
            0 <= from && from + walk(tensors, tensors[t].inputs@[k] as int).len() < walk(
                tensors,
                t,
            ).len() && #[trigger] walk(tensors, t).subrange(
                from,
                from + walk(tensors, tensors[t].inputs@[k] as int).len(),
            ) == walk(tensors, tensors[t].inputs@[k] as int),
        walk(tensors, t).last() == t,
{
    let whole = walk(tensors, t);
    let part = walk(tensors, tensors[t].inputs@[k] as int);
    let from = lemma_input_stands(tensors, t, tensors[t].inputs@.len(), k);
    let before = walk_inputs(tensors, t, tensors[t].inputs@.len());
    assert(whole.subrange(from, from + part.len()) =~= before.subrange(from, from + part.len()));
}

/// Among the tapes of the first `upto` inputs stands the tape of input `k`.
proof fn lemma_input_stands(tensors: Seq<TensorWithGrad>, t: int, upto: nat, k: int) -> (from: int)
    requires
        recorded_in_order(tensors),
        0 <= t < tensors.len(),
        0 <= k < upto <= tensors[t].inputs@.len(),
    ensures
        0 <= from,
        from + walk(tensors, tensors[t].inputs@[k] as int).len() <= walk_inputs(
            tensors,
            t,
            upto,
        ).len(),
        walk_inputs(tensors, t, upto).subrange(
            from,
            from + walk(tensors, tensors[t].inputs@[k] as int).len(),
        ) == walk(tensors, tensors[t].inputs@[k] as int),
    decreases upto,
{
    let part = walk(tensors, tensors[t].inputs@[k] as int);
    let front = walk_inputs(tensors, t, (upto - 1) as nat);
    let whole = walk_inputs(tensors, t, upto);
    assert(tensors[t].inputs@[upto - 1] < t);
    if k == upto - 1 {
        assert(whole.subrange(front.len() as int, (front.len() + part.len()) as int) =~= part);
        front.len() as int
    } else {
        let from = lemma_input_stands(tensors, t, (upto - 1) as nat, k);
        assert(whole.subrange(from, from + part.len()) =~= front.subrange(
            from,
            from + part.len(),
        ));
        from
    }
}

impl TensorWithGrad {
    /// A tensor with no instructions yet.
    pub fn new(tensor: usize, gradient: usize, inputs: Vec<usize>) -> (recorded: Self)
        ensures
            recorded.tensor == tensor,
            recorded.gradient == gradient,
            recorded.inputs == inputs,
            recorded.instructions@.len() == 0,
    {
        TensorWithGrad { inputs, instructions: Vec::new(), tensor, gradient }
    }

    /// Records one more instruction for this tensor.
    pub fn push_instruction(&mut self, instruction: Instruction)
        ensures
            final(self).instructions@ == old(self).instructions@.push(instruction),
            final(self).inputs == old(self).inputs,
            final(self).tensor == old(self).tensor,
            final(self).gradient == old(self).gradient,
    {
        self.instructions.push(instruction);
    }

    /// The operand that holds the values.
    pub fn tensor(&self) -> (operand: usize)
        ensures
            operand == self.tensor,
    {
        self.tensor
    }

    /// The operand that holds the gradient.
    pub fn gradient(&self) -> (operand: usize)
        ensures
            operand == self.gradient,
    {
        self.gradient
    }

    /// The recorded instructions, wanted or not.
    pub fn instructions(&self) -> (copies: Vec<Instruction>)
        ensures
            views(copies@) == views(self.instructions@),
    {
        let mut copies: Vec<Instruction> = Vec::new();
        let mut k: usize = 0;
        while k < self.instructions.len()
            invariant
                k <= self.instructions@.len(),
                copies@.len() == k,
                forall|m: int| 0 <= m < k ==> (#[trigger] copies@[m])@ == self.instructions@[m]@,
            decreases self.instructions@.len() - k,
        {
            copies.push(self.instructions[k].clone());
            k += 1;
        }
        assert(views(copies@) =~= views(self.instructions@));
        copies
    }

    /// The recorded instructions that are wanted, in their order.
    fn select(&self, forward: bool) -> (copies: Vec<Instruction>)
        ensures
            views(copies@) == wanted(views(self.instructions@), forward),
    {
        let ghost list = views(self.instructions@);
        let mut copies: Vec<Instruction> = Vec::new();
        let mut k: usize = 0;
        while k < self.instructions.len()
            invariant
                k <= self.instructions@.len(),
                list == views(self.instructions@),
                views(copies@) == wanted(list.take(k as int), forward),
            decreases self.instructions@.len() - k,
        {
            let instruction = &self.instructions[k];
            let category = instruction.category();
            let keep = if forward {
                category == Category::Inference || category == Category::Loss
            } else {
                category == Category::Gradient
            };
            proof {
                assert(list.take(k + 1).drop_last() == list.take(k as int));
                assert(list.take(k + 1).last() == instruction@);
            }
            if keep {
                let ghost before = copies@;
                copies.push(instruction.clone());
                assert(views(copies@) =~= views(before).push(instruction@));
            }
            k += 1;
        }
        assert(list.take(k as int) == list);
        copies
    }

    /// The recorded instructions that compute values: those of inference
    /// and of the loss.
    pub fn forward_instructions(&self) -> (copies: Vec<Instruction>)
        ensures
            views(copies@) == wanted(views(self.instructions@), true),
    {
        self.select(true)
    }

    /// The recorded instructions that compute a gradient.
    pub fn gradient_instructions(&self) -> (copies: Vec<Instruction>)
        ensures
            views(copies@) == wanted(views(self.instructions@), false),
    {
        self.select(false)
    }
}

/// Whether `after` is `before` with some of the instructions of `list`
/// carried out, from the first on and in their order, and the next one
/// failed with `error`.
pub open spec fn carries_out_part<Operators: Operator>(
    before: Operators,
    list: Seq<InstructionView>,
    after: Operators,
    error: Error,
) -> bool {
    exists|k: int|
        0 <= k < list.len() && fails_at(before, #[trigger] list.take(k), list[k], error, after)
}

/// Hands the instructions of `list` to the operator layer, one after
/// another, up to the first that fails. The error of that instruction is
/// returned.
pub fn execute_all<Operators: Operator>(list: &Vec<Instruction>, operators: &mut Operators) -> (result:
    Result<(), Error>)
    ensures
        !Operators::may_fail() ==> result is Ok,
        result is Ok ==> carries_out(*old(operators), views(list@), *final(operators)),
        result is Err ==> carries_out_part(
            *old(operators),
            views(list@),
            *final(operators),
            result->Err_0,
        ),
{
    let mut failure: Option<Error> = None;
    let mut k: usize = 0;
    proof {
        assert(views(list@).take(0) =~= Seq::empty());
        lemma_carries_out_nothing(*operators);
        if list@.len() == 0 {
            assert(views(list@).take(0) == views(list@));
        }
    }
    while k < list.len()
        invariant_except_break
            k <= list@.len(),
            k == list@.len() ==> views(list@).take(k as int) == views(list@),
            failure is None,
            carries_out(*old(operators), views(list@).take(k as int), *operators),
        ensures
            failure is Some ==> Operators::may_fail(),
            failure is None ==> carries_out(*old(operators), views(list@), *operators),
            failure is Some ==> carries_out_part(
                *old(operators),
                views(list@),
                *operators,
                failure->0,
            ),
        decreases list@.len() - k,
    {
        let ghost between = *operators;
        let ghost first = views(list@).take(k as int);
        match operators.execute(&list[k]) {
            Ok(()) => {},
            Err(error) => {
                failure = Some(error);
                proof {
                    lemma_fails_next(
                        *old(operators),
                        first,
                        between,
                        list@[k as int]@,
                        error,
                        *operators,
                    );
                    assert(views(list@)[k as int] == list@[k as int]@);
                }
                break ;
            },
        }
        proof {
            lemma_carries_out_next(*old(operators), first, between, list@[k as int]@, *operators);
            assert(views(list@).take(k + 1) == first.push(list@[k as int]@));
        }
        k += 1;
        proof {
            if k == list@.len() {
                assert(views(list@).take(k as int) == views(list@));
            }
        }
    }
    match failure {
        Some(error) => Err(error),
        None => Ok(()),
    }
}

/// Whether every tensor was computed from tensors recorded before it.
pub fn is_recorded_in_order(tensors: &Vec<TensorWithGrad>) -> (fine: bool)
    ensures
        fine == recorded_in_order(tensors@),
{
    let mut t: usize = 0;
    while t < tensors.len()
        invariant
            t <= tensors@.len(),
            forall|s: int, k: int|
                0 <= s < t && 0 <= k < tensors@[s].inputs@.len() ==> (
                #[trigger] tensors@[s].inputs@[k]) < s,
        decreases tensors@.len() - t,
    {
        let mut k: usize = 0;
        while k < tensors[t].inputs.len()
            invariant
                t < tensors@.len(),
                k <= tensors@[t as int].inputs@.len(),
                forall|m: int| 0 <= m < k ==> (#[trigger] tensors@[t as int].inputs@[m]) < t,
            decreases tensors@[t as int].inputs@.len() - k,
        {
            if tensors[t].inputs[k] >= t {
                return false;
            }
            k += 1;
        }
        t += 1;
    }
    true
}

/// Whether a tensor has instructions that compute values.
fn computes_values(tensor: &TensorWithGrad) -> (found: bool)
    ensures
        found == has_forward(*tensor),
{
    let ghost list = views(tensor.instructions@);
    let mut k: usize = 0;
    while k < tensor.instructions.len()
        invariant
            k <= tensor.instructions@.len(),
            list == views(tensor.instructions@),
            wanted(list.take(k as int), true).len() == 0,
        decreases tensor.instructions@.len() - k,
    {
        let category = tensor.instructions[k].category();
        proof {
            assert(list.take(k + 1).drop_last() == list.take(k as int));
            assert(list.take(k + 1).last() == tensor.instructions@[k as int]@);
        }
        if category == Category::Inference || category == Category::Loss {
            proof {
                lemma_wanted_grows(list, k + 1);
            }
            return true;
        }
        k += 1;
    }
    assert(list.take(k as int) == list);
    false
}

/// The more of a list is looked at, the more wanted instructions are found.
proof fn lemma_wanted_grows(list: Seq<InstructionView>, k: int)
    requires
        0 <= k <= list.len(),
    ensures
        wanted(list.take(k), true).len() <= wanted(list, true).len(),
    decreases list.len() - k,
{
    if k < list.len() {
        lemma_wanted_grows(list, k + 1);
        assert(list.take(k + 1).drop_last() == list.take(k));
    } else {
        assert(list.take(k) == list);
    }
}

/// The tape that ends in tensor `root`, found with a stack, not by
/// recursion.
pub fn get_tape(tensors: &Vec<TensorWithGrad>, root: usize) -> (tape: Vec<usize>)
    requires
        recorded_in_order(tensors@),
        root < tensors@.len(),
    ensures
        tape@ == walk(tensors@, root as int),
        forall|m: int| 0 <= m < tape@.len() ==> (#[trigger] tape@[m]) < tensors@.len(),
{
    let mut reversed: Vec<usize> = Vec::new();
    let mut stack: Vec<usize> = Vec::new();
    stack.push(root);
    proof {
        assert(stack@.drop_last() =~= Seq::empty());
        assert(stack@.last() == root);
        assert(walks(tensors@, stack@.drop_last()) =~= Seq::empty());
        assert(walks(tensors@, stack@) =~= walk(tensors@, root as int));
        assert(reversed@.reverse() =~= Seq::empty());
    }
    while stack.len() > 0
        invariant
            recorded_in_order(tensors@),
            root < tensors@.len(),
            forall|m: int| 0 <= m < stack@.len() ==> (#[trigger] stack@[m]) < tensors@.len(),
            forall|m: int| 0 <= m < reversed@.len() ==> (#[trigger] reversed@[m]) < tensors@.len(),
            walks(tensors@, stack@) + reversed@.reverse() == walk(tensors@, root as int),
        decreases efforts(tensors@, stack@),
    {
        let ghost before = stack@;
        let ghost tape_before = reversed@;
        let element = stack.pop().unwrap();
        let ghost rest = stack@;
        assert(rest == before.drop_last());
        assert(before.last() == element);
        if computes_values(&tensors[element]) {
            let inputs = &tensors[element].inputs;
            let mut k: usize = 0;
            while k < inputs.len()
                invariant
                    recorded_in_order(tensors@),
                    element < tensors@.len(),
                    inputs == &tensors@[element as int].inputs,
                    k <= inputs@.len(),
                    forall|m: int| 0 <= m < stack@.len() ==> (#[trigger] stack@[m]) < tensors@.len(),
                    walks(tensors@, stack@) == walks(tensors@, rest) + walk_inputs(
                        tensors@,
                        element as int,
                        k as nat,
                    ),
                    efforts(tensors@, stack@) == efforts(tensors@, rest) + effort_inputs(
                        tensors@,
                        element as int,
                        k as nat,
                    ),
                decreases inputs@.len() - k,
            {
                let ghost lower = stack@;
                assert(tensors@[element as int].inputs@[k as int] < element);
                stack.push(inputs[k]);
                proof {
                    assert(stack@.drop_last() == lower);
                    assert(stack@.last() == inputs@[k as int]);
                }
                k += 1;
            }
            reversed.push(element);
            proof {
                assert(reversed@.reverse() =~= seq![element] + tape_before.reverse());
                let less = walk_inputs(
                    tensors@,
                    element as int,
                    tensors@[element as int].inputs@.len(),
                );
                assert(walk(tensors@, element as int) == less.push(element));
                assert(walks(tensors@, stack@) + reversed@.reverse() =~= walks(tensors@, before)
                    + tape_before.reverse());
            }
        } else {
            proof {
                assert(walk(tensors@, element as int) =~= Seq::empty());
                assert(walks(tensors@, before) =~= walks(tensors@, rest));
            }
        }
    }
    let mut tape: Vec<usize> = Vec::new();
    let mut k: usize = reversed.len();
    while k > 0
        invariant
            k <= reversed@.len(),
            tape@.len() == reversed@.len() - k,
            forall|m: int| 0 <= m < tape@.len() ==> tape@[m] == reversed@[reversed@.len() - 1 - m],
            forall|m: int| 0 <= m < reversed@.len() ==> (#[trigger] reversed@[m]) < tensors@.len(),
        decreases k,
    {
        k -= 1;
        tape.push(reversed[k]);
    }
    assert(tape@ =~= reversed@.reverse());
    assert(walks(tensors@, stack@) =~= Seq::empty());
    tape
}

} // verus!
