//! Instructions, programs and the shape of a program: how many operands it
//! binds and how deep its evaluation stack grows.

use vstd::prelude::*;

verus! {

/// One step of a postfix program.
#[derive(Clone, Copy, Debug, PartialEq, Eq, Structural)]
pub enum Instruction {
    /// Binds the next unconsumed operand and pushes it. The carried index is
    /// a label only: operands are bound in the order in which they are given.
    Arg(u64),
    /// Pops the right operand, then the left one, and pushes the result of
    /// the bound operation on them.
    BinaryOp,
}

/// Why an evaluation produced no value.
#[derive(Clone, Copy, Debug, PartialEq, Eq, Structural)]
pub enum EvalError {
    /// An `Arg` was reached after every operand had been bound.
    InsufficientArguments,
    /// A `BinaryOp` was reached with fewer than two values on the stack.
    StackUnderflow,
    /// The program ended with nothing on the stack.
    EmptyResult,
}

impl Instruction {
    /// Whether this instruction binds an operand.
    pub open spec fn binds(self) -> bool {
        self is Arg
    }
}

/// The number of `Arg` instructions in `program`.
pub open spec fn arg_count(program: Seq<Instruction>) -> nat
    decreases program.len(),
{
    if program.len() == 0 {
        0
    } else {
        arg_count(program.drop_last()) + if program.last().binds() { 1nat } else { 0nat }
    }
}

/// The number of `BinaryOp` instructions in `program`.
pub open spec fn op_count(program: Seq<Instruction>) -> nat
    decreases program.len(),
{
    if program.len() == 0 {
        0
    } else {
        op_count(program.drop_last()) + if program.last().binds() { 0nat } else { 1nat }
    }
}

/// The height of the stack after `program` has run without a fault: every
/// `Arg` adds one value, every `BinaryOp` replaces two by one.
pub open spec fn depth(program: Seq<Instruction>) -> int {
    arg_count(program) - op_count(program)
}

/// Whether the instruction at `i` cannot be carried out when `supplied`
/// operands were given and everything before `i` went well.
pub open spec fn faults_at(program: Seq<Instruction>, supplied: nat, i: int) -> bool {
    &&& 0 <= i < program.len()
    &&& if program[i].binds() {
        arg_count(program.take(i)) >= supplied
    } else {
        depth(program.take(i)) < 2
    }
}

/// Whether no instruction before `end` faults.
pub open spec fn sound_until(program: Seq<Instruction>, supplied: nat, end: int) -> bool {
    forall|j: int| 0 <= j < end ==> !faults_at(program, supplied, j)
}

/// Whether `i` is the first instruction that faults.
pub open spec fn first_fault(program: Seq<Instruction>, supplied: nat, i: int) -> bool {
    &&& faults_at(program, supplied, i)
    &&& sound_until(program, supplied, i)
}

/// The error that a fault at instruction `i` raises.
pub open spec fn fault_error(program: Seq<Instruction>, i: int) -> EvalError {
    if program[i].binds() {
        EvalError::InsufficientArguments
    } else {
        EvalError::StackUnderflow
    }
}

} // verus!
