//! Binding a program to an operation, and running the result on operands.

use vstd::prelude::*;
use std::collections::VecDeque;
use crate::laws::lemma_outcome;
use crate::machine::{
    computes, evaluate, finish, initial, lemma_error_stays, lemma_nothing_run, lemma_one_more,
    may_reach, may_yield, total, Machine,
};
use crate::program::{fault_error, first_fault, sound_until, EvalError, Instruction};

verus! {

/// A program bound to the operation that its `BinaryOp` instructions apply.
/// It holds nothing that a run changes, so it can be run any number of times.
#[verifier::reject_recursive_types(T)]
pub struct Evaluator<T, F: Fn(T, T) -> T> {
    program: Vec<Instruction>,
    op: F,
    _values: core::marker::PhantomData<T>,
}

impl<T, F: Fn(T, T) -> T> Evaluator<T, F> {
    /// The instructions that a run carries out.
    pub closed spec fn program(&self) -> Seq<Instruction> {
        self.program@
    }

    /// The operation that a run applies.
    pub closed spec fn op(&self) -> F {
        self.op
    }

    /// Runs the program on `args`, which are bound in order, one by each
    /// `Arg`. The result is the top of the stack when the program ends.
    ///
    /// The first instruction that cannot be carried out ends the run with its
    /// error. A program that leaves more than one value on the stack is not
    /// refused: the values below the top are dropped, and so are the operands
    /// that no `Arg` has bound.
    pub fn run(&self, args: Vec<T>) -> (outcome: Result<T, EvalError>)
        requires
            total(self.op()),
        ensures
            may_yield(self.op(), self.program(), args@, outcome),
            forall|f: spec_fn(T, T) -> T| #[trigger]
                computes(self.op(), f) ==> outcome == evaluate(self.program(), args@, f),
            forall|k: int| #[trigger]
                first_fault(self.program(), args@.len(), k) ==> outcome == Err::<T, EvalError>(
                    fault_error(self.program(), k),
                ),
            outcome is Ok <==> self.program().len() > 0 && sound_until(
                self.program(),
                args@.len(),
                self.program().len() as int,
            ),
            outcome == Err::<T, EvalError>(EvalError::EmptyResult) <==> self.program().len() == 0,
    {
        let ghost given = args@;
        let mut queue: VecDeque<T> = VecDeque::new();
        for arg in it: args.into_iter()
            invariant
                it.seq() == given,
                queue@ == it.history(),
        {
            queue.push_back(arg);
        }
        assert(queue@ == given);
        let mut stack: Vec<T> = Vec::new();
        let ghost mut bound: nat = 0;
        proof {
            lemma_nothing_run(self.op, given);
            assert(self.program@.take(0) =~= Seq::<Instruction>::empty());
            assert(stack@ =~= initial::<T>().stack);
        }
        let mut pc: usize = 0;
        while pc < self.program.len()
            invariant
                total(self.op),
                given == args@,
                pc <= self.program.len(),
                bound <= given.len(),
                queue@ == given.skip(bound as int),
                may_reach(
                    self.op,
                    self.program@.take(pc as int),
                    given,
                    Ok::<Machine<T>, EvalError>(Machine { stack: stack@, bound }),
                ),
            decreases self.program.len() - pc,
        {
            let ghost before = Machine { stack: stack@, bound };
            match self.program[pc] {
                Instruction::Arg(_) => {
                    match queue.pop_front() {
                        Some(arg) => {
                            stack.push(arg);
                            proof {
                                bound = bound + 1;
                                assert(queue@ =~= given.skip(bound as int));
                                assert(stack@ =~= before.bind(given).stack);
                                lemma_one_more(
                                    self.op,
                                    self.program@,
                                    given,
                                    pc as int,
                                    Ok(before),
                                    Ok(Machine { stack: stack@, bound }),
                                );
                            }
                        },
                        None => {
                            proof {
                                let end = Err::<Machine<T>, EvalError>(
                                    EvalError::InsufficientArguments,
                                );
                                lemma_one_more(self.op, self.program@, given, pc as int, Ok(before), end);
                                lemma_error_stays(
                                    self.op,
                                    self.program@,
                                    given,
                                    pc as int + 1,
                                    EvalError::InsufficientArguments,
                                );
                                assert(finish(end) == Err::<T, EvalError>(
                                    EvalError::InsufficientArguments,
                                ));
                                lemma_outcome(
                                    self.op,
                                    self.program@,
                                    given,
                                    Err(EvalError::InsufficientArguments),
                                );
                            }
                            return Err(EvalError::InsufficientArguments);
                        },
                    }
                },
                Instruction::BinaryOp => {
                    if stack.len() < 2 {
                        proof {
                            let end = Err::<Machine<T>, EvalError>(EvalError::StackUnderflow);
                            lemma_one_more(self.op, self.program@, given, pc as int, Ok(before), end);
                            lemma_error_stays(
                                self.op,
                                self.program@,
                                given,
                                pc as int + 1,
                                EvalError::StackUnderflow,
                            );
                            assert(finish(end) == Err::<T, EvalError>(EvalError::StackUnderflow));
                            lemma_outcome(
                                self.op,
                                self.program@,
                                given,
                                Err(EvalError::StackUnderflow),
                            );
                        }
                        return Err(EvalError::StackUnderflow);
                    }
                    let b = stack.pop().unwrap();
                    let a = stack.pop().unwrap();
                    assert(stack@ =~= before.stack.take(before.stack.len() - 2));
                    let value = (self.op)(a, b);
                    stack.push(value);
                    proof {
                        assert(call_ensures(self.op, (before.left(), before.right()), value));
                        assert(stack@ =~= before.combine(value).stack);
                        lemma_one_more(
                            self.op,
                            self.program@,
                            given,
                            pc as int,
                            Ok(before),
                            Ok(Machine { stack: stack@, bound }),
                        );
                    }
                },
            }
            pc += 1;
        }
        assert(self.program@.take(pc as int) =~= self.program@);
        let ghost end = Ok::<Machine<T>, EvalError>(Machine { stack: stack@, bound });
        assert(may_reach(self.op, self.program@, given, end));
        match stack.pop() {
            Some(value) => {
                proof {
                    assert(finish(end) == Ok::<T, EvalError>(value));
                    lemma_outcome(self.op, self.program@, given, Ok(value));
                }
                Ok(value)
            },
            None => {
                proof {
                    assert(finish(end) == Err::<T, EvalError>(EvalError::EmptyResult));
                    lemma_outcome(self.op, self.program@, given, Err(EvalError::EmptyResult));
                }
                Err(EvalError::EmptyResult)
            },
        }
    }
}

/// Binds `program` to the operation `mul`. Nothing is run and nothing is
/// checked here: a program that cannot be carried out fails when it is run.
pub fn parse<T, F: Fn(T, T) -> T>(program: Vec<Instruction>, mul: F) -> (evaluator: Evaluator<T, F>)
    ensures
        evaluator.program() == program@,
        evaluator.op() == mul,
{
    Evaluator { program, op: mul, _values: core::marker::PhantomData }
}

} // verus!
