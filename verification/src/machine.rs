//! The meaning of a program: a stack machine that binds operands in order
//! and combines them with one binary operation.
//!
//! The operation comes in two forms. A mathematical function `f` gives each
//! program one outcome ([`evaluate`]). An executable operation is known by
//! what its calls may return, so a program may have several outcomes
//! ([`may_yield`]).

use vstd::prelude::*;
use crate::program::{EvalError, Instruction};

verus! {

/// The state of the machine between two instructions.
pub struct Machine<T> {
    /// The evaluation stack, its top last.
    pub stack: Seq<T>,
    /// How many operands have been bound so far.
    pub bound: nat,
}

/// The machine before the first instruction.
pub open spec fn initial<T>() -> Machine<T> {
    Machine { stack: Seq::empty(), bound: 0 }
}

impl<T> Machine<T> {
    /// The left operand of a `BinaryOp`: the value below the top.
    pub open spec fn left(self) -> T
        recommends
            self.stack.len() >= 2,
    {
        self.stack[self.stack.len() - 2]
    }

    /// The right operand of a `BinaryOp`: the top of the stack.
    pub open spec fn right(self) -> T
        recommends
            self.stack.len() >= 2,
    {
        self.stack[self.stack.len() - 1]
    }

    /// The machine after the next operand of `args` has been pushed.
    pub open spec fn bind(self, args: Seq<T>) -> Machine<T>
        recommends
            self.bound < args.len(),
    {
        Machine { stack: self.stack.push(args[self.bound as int]), bound: self.bound + 1 }
    }

    /// The machine after the two topmost values have given way to `value`.
    pub open spec fn combine(self, value: T) -> Machine<T>
        recommends
            self.stack.len() >= 2,
    {
        Machine { stack: self.stack.take(self.stack.len() - 2).push(value), bound: self.bound }
    }

    /// One instruction, with `f` as the operation.
    pub open spec fn step(self, instruction: Instruction, args: Seq<T>, f: spec_fn(T, T) -> T)
        -> Result<Machine<T>, EvalError> {
        match instruction {
            Instruction::Arg(_) => if self.bound < args.len() {
                Ok(self.bind(args))
            } else {
                Err(EvalError::InsufficientArguments)
            },
            Instruction::BinaryOp => if self.stack.len() >= 2 {
                Ok(self.combine(f(self.left(), self.right())))
            } else {
                Err(EvalError::StackUnderflow)
            },
        }
    }

    /// Whether one instruction, carried out with the executable operation
    /// `op`, may lead from this machine to `next`.
    pub open spec fn step_admits<F: Fn(T, T) -> T>(
        self,
        op: F,
        instruction: Instruction,
        args: Seq<T>,
        next: Result<Machine<T>, EvalError>,
    ) -> bool {
        match instruction {
            Instruction::Arg(_) => next == if self.bound < args.len() {
                Ok::<Machine<T>, EvalError>(self.bind(args))
            } else {
                Err::<Machine<T>, EvalError>(EvalError::InsufficientArguments)
            },
            Instruction::BinaryOp => if self.stack.len() >= 2 {
                exists|value: T|
                    #[trigger] call_ensures(op, (self.left(), self.right()), value) && next == Ok::<
                        Machine<T>,
                        EvalError,
                    >(self.combine(value))
            } else {
                next == Err::<Machine<T>, EvalError>(EvalError::StackUnderflow)
            },
        }
    }
}

/// The machine after `program` has run from `start`, or the first error.
pub open spec fn run_from<T>(
    start: Machine<T>,
    program: Seq<Instruction>,
    args: Seq<T>,
    f: spec_fn(T, T) -> T,
) -> Result<Machine<T>, EvalError>
    decreases program.len(),
{
    if program.len() == 0 {
        Ok(start)
    } else {
        match run_from(start, program.drop_last(), args, f) {
            Ok(m) => m.step(program.last(), args, f),
            Err(e) => Err(e),
        }
    }
}

/// What an evaluation hands back once the program has ended: the top of the
/// stack. Values below it are dropped without complaint, and so are operands
/// that no `Arg` has bound.
pub open spec fn finish<T>(end: Result<Machine<T>, EvalError>) -> Result<T, EvalError> {
    match end {
        Ok(m) => if m.stack.len() == 0 {
            Err(EvalError::EmptyResult)
        } else {
            Ok(m.stack.last())
        },
        Err(e) => Err(e),
    }
}

/// The outcome of `program` on `args` with `f` as the operation.
pub open spec fn evaluate<T>(program: Seq<Instruction>, args: Seq<T>, f: spec_fn(T, T) -> T)
    -> Result<T, EvalError> {
    finish(run_from(initial(), program, args, f))
}

/// Whether `next` may come after `before` by one instruction carried out
/// with the executable operation `op`. An error stays as it is.
pub open spec fn follows<T, F: Fn(T, T) -> T>(
    op: F,
    before: Result<Machine<T>, EvalError>,
    instruction: Instruction,
    args: Seq<T>,
    next: Result<Machine<T>, EvalError>,
) -> bool {
    match before {
        Ok(m) => m.step_admits(op, instruction, args, next),
        Err(e) => next == Err::<Machine<T>, EvalError>(e),
    }
}

/// Whether instruction `i` of `program` may lead from `states[i]` to
/// `states[i + 1]`.
pub open spec fn link<T, F: Fn(T, T) -> T>(
    op: F,
    program: Seq<Instruction>,
    args: Seq<T>,
    states: Seq<Result<Machine<T>, EvalError>>,
    i: int,
) -> bool {
    follows(op, states[i], program[i], args, states[i + 1])
}

/// Whether `states` records a run of `program` with the executable operation
/// `op`: it starts with the initial machine and holds, after it, what each
/// instruction in turn led to.
pub open spec fn is_run<T, F: Fn(T, T) -> T>(
    op: F,
    program: Seq<Instruction>,
    args: Seq<T>,
    states: Seq<Result<Machine<T>, EvalError>>,
) -> bool {
    &&& states.len() == program.len() + 1
    &&& states[0] == Ok::<Machine<T>, EvalError>(initial())
    &&& forall|i: int| 0 <= i < program.len() ==> #[trigger] link(op, program, args, states, i)
}

/// Whether `program`, run from the initial machine with the executable
/// operation `op`, may end in `end`.
pub open spec fn may_reach<T, F: Fn(T, T) -> T>(
    op: F,
    program: Seq<Instruction>,
    args: Seq<T>,
    end: Result<Machine<T>, EvalError>,
) -> bool {
    exists|states: Seq<Result<Machine<T>, EvalError>>| #[trigger]
        is_run(op, program, args, states) && states.last() == end
}

/// Whether `outcome` is a possible outcome of `program` on `args` with the
/// executable operation `op`.
pub open spec fn may_yield<T, F: Fn(T, T) -> T>(
    op: F,
    program: Seq<Instruction>,
    args: Seq<T>,
    outcome: Result<T, EvalError>,
) -> bool {
    exists|end: Result<Machine<T>, EvalError>|
        #[trigger] may_reach(op, program, args, end) && outcome == finish(end)
}

/// Whether every call of `op` returns what `f` says.
pub open spec fn computes<T, F: Fn(T, T) -> T>(op: F, f: spec_fn(T, T) -> T) -> bool {
    forall|a: T, b: T, r: T| #[trigger] call_ensures(op, (a, b), r) ==> r == f(a, b)
}

/// Whether `op` can be called on every pair of values.
pub open spec fn total<T, F: Fn(T, T) -> T>(op: F) -> bool {
    forall|a: T, b: T| #[trigger] call_requires(op, (a, b))
}

/// A program without instructions ends where it starts.
pub proof fn lemma_nothing_run<T, F: Fn(T, T) -> T>(op: F, args: Seq<T>)
    ensures
        may_reach(op, Seq::<Instruction>::empty(), args, Ok::<Machine<T>, EvalError>(initial())),
{
    let states = seq![Ok::<Machine<T>, EvalError>(initial())];
    assert(is_run(op, Seq::<Instruction>::empty(), args, states));
}

/// One instruction more: what the machine may reach after `upto`
/// instructions, and one step from there, it may reach after `upto + 1`.
pub proof fn lemma_one_more<T, F: Fn(T, T) -> T>(
    op: F,
    program: Seq<Instruction>,
    args: Seq<T>,
    upto: int,
    before: Result<Machine<T>, EvalError>,
    end: Result<Machine<T>, EvalError>,
)
    requires
        0 <= upto < program.len(),
        may_reach(op, program.take(upto), args, before),
        follows(op, before, program[upto], args, end),
    ensures
        may_reach(op, program.take(upto + 1), args, end),
{
    let shorter = program.take(upto);
    let longer = program.take(upto + 1);
    let states = choose|states: Seq<Result<Machine<T>, EvalError>>| #[trigger]
        is_run(op, shorter, args, states) && states.last() == before;
    let extended = states.push(end);
    assert forall|i: int| 0 <= i < longer.len() implies #[trigger] link(
        op,
        longer,
        args,
        extended,
        i,
    ) by {
        if i < upto {
            assert(link(op, shorter, args, states, i));
        }
    }
    assert(is_run(op, longer, args, extended));
}

/// An error that the first `upto` instructions may reach is one that the
/// whole program may reach.
pub proof fn lemma_error_stays<T, F: Fn(T, T) -> T>(
    op: F,
    program: Seq<Instruction>,
    args: Seq<T>,
    upto: int,
    e: EvalError,
)
    requires
        0 <= upto <= program.len(),
        may_reach(op, program.take(upto), args, Err::<Machine<T>, EvalError>(e)),
    ensures
        may_reach(op, program, args, Err::<Machine<T>, EvalError>(e)),
    decreases program.len() - upto,
{
    if upto == program.len() {
        assert(program.take(upto) =~= program);
    } else {
        let failed = Err::<Machine<T>, EvalError>(e);
        lemma_one_more(op, program, args, upto, failed, failed);
        lemma_error_stays(op, program, args, upto + 1, e);
    }
}

} // verus!
