//! What holds of every run: which error a program ends in and when, and that
//! an operation which computes a function leaves one outcome only.

use vstd::prelude::*;
use crate::machine::{
    computes, evaluate, finish, initial, is_run, link, may_reach, may_yield, run_from,
    Machine,
};
use crate::program::{
    arg_count, depth, fault_error, faults_at, first_fault, op_count, sound_until, EvalError,
    Instruction,
};

verus! {

/// The counts of a prefix that is one instruction longer.
pub proof fn lemma_counts_grow(program: Seq<Instruction>, i: int)
    requires
        0 <= i < program.len(),
    ensures
        arg_count(program.take(i + 1)) == arg_count(program.take(i)) + if program[i].binds() {
            1nat
        } else {
            0nat
        },
        op_count(program.take(i + 1)) == op_count(program.take(i)) + if program[i].binds() {
            0nat
        } else {
            1nat
        },
{
    let longer = program.take(i + 1);
    assert(longer.drop_last() =~= program.take(i));
    assert(longer.last() == program[i]);
}

/// With an operation that computes `f`, a run passes through the machines
/// that `f` gives.
pub proof fn lemma_run_agrees<T, F: Fn(T, T) -> T>(
    op: F,
    f: spec_fn(T, T) -> T,
    program: Seq<Instruction>,
    args: Seq<T>,
    states: Seq<Result<Machine<T>, EvalError>>,
    i: int,
)
    requires
        computes(op, f),
        is_run(op, program, args, states),
        0 <= i <= program.len(),
    ensures
        states[i] == run_from(initial(), program.take(i), args, f),
    decreases i,
{
    if i == 0 {
        assert(program.take(0) =~= Seq::<Instruction>::empty());
    } else {
        lemma_run_agrees(op, f, program, args, states, i - 1);
        assert(link(op, program, args, states, i - 1));
        let prefix = program.take(i);
        assert(prefix.drop_last() =~= program.take(i - 1));
        assert(prefix.last() == program[i - 1]);
    }
}

/// With an operation that computes `f`, a program has the one outcome that
/// `f` gives.
pub proof fn law_exact<T, F: Fn(T, T) -> T>(
    op: F,
    f: spec_fn(T, T) -> T,
    program: Seq<Instruction>,
    args: Seq<T>,
    outcome: Result<T, EvalError>,
)
    requires
        computes(op, f),
        may_yield(op, program, args, outcome),
    ensures
        outcome == evaluate(program, args, f),
{
    let end = choose|end: Result<Machine<T>, EvalError>| #[trigger]
        may_reach(op, program, args, end) && outcome == finish(end);
    let states = choose|states: Seq<Result<Machine<T>, EvalError>>| #[trigger]
        is_run(op, program, args, states) && states.last() == end;
    lemma_run_agrees(op, f, program, args, states, program.len() as int);
    assert(program.take(program.len() as int) =~= program);
}

/// As long as no instruction faults, the stack is as high as the counts say
/// and one operand is bound for each `Arg`.
pub proof fn lemma_run_shape<T, F: Fn(T, T) -> T>(
    op: F,
    program: Seq<Instruction>,
    args: Seq<T>,
    states: Seq<Result<Machine<T>, EvalError>>,
    i: int,
)
    requires
        is_run(op, program, args, states),
        0 <= i <= program.len(),
        sound_until(program, args.len(), i),
    ensures
        states[i] is Ok,
        states[i]->Ok_0.stack.len() == depth(program.take(i)),
        states[i]->Ok_0.bound == arg_count(program.take(i)),
    decreases i,
{
    if i == 0 {
        assert(program.take(0) =~= Seq::<Instruction>::empty());
    } else {
        lemma_run_shape(op, program, args, states, i - 1);
        lemma_counts_grow(program, i - 1);
        assert(link(op, program, args, states, i - 1));
        assert(!faults_at(program, args.len(), i - 1));
    }
}

/// Once a run has failed, it stays failed with the same error.
pub proof fn lemma_error_lasts<T, F: Fn(T, T) -> T>(
    op: F,
    program: Seq<Instruction>,
    args: Seq<T>,
    states: Seq<Result<Machine<T>, EvalError>>,
    i: int,
    j: int,
)
    requires
        is_run(op, program, args, states),
        0 <= i <= j <= program.len(),
        states[i] is Err,
    ensures
        states[j] == states[i],
    decreases j - i,
{
    if i < j {
        lemma_error_lasts(op, program, args, states, i, j - 1);
        assert(link(op, program, args, states, j - 1));
    }
}

/// The first instruction that faults decides the outcome, whatever the
/// operation returns.
pub proof fn law_first_fault<T, F: Fn(T, T) -> T>(
    op: F,
    program: Seq<Instruction>,
    args: Seq<T>,
    outcome: Result<T, EvalError>,
    k: int,
)
    requires
        may_yield(op, program, args, outcome),
        first_fault(program, args.len(), k),
    ensures
        outcome == Err::<T, EvalError>(fault_error(program, k)),
{
    let end = choose|end: Result<Machine<T>, EvalError>| #[trigger]
        may_reach(op, program, args, end) && outcome == finish(end);
    let states = choose|states: Seq<Result<Machine<T>, EvalError>>| #[trigger]
        is_run(op, program, args, states) && states.last() == end;
    lemma_run_shape(op, program, args, states, k);
    assert(link(op, program, args, states, k));
    lemma_error_lasts(op, program, args, states, k + 1, program.len() as int);
}

/// A program of which no instruction faults yields a value, unless it is
/// empty.
pub proof fn law_sound<T, F: Fn(T, T) -> T>(
    op: F,
    program: Seq<Instruction>,
    args: Seq<T>,
    outcome: Result<T, EvalError>,
)
    requires
        may_yield(op, program, args, outcome),
        sound_until(program, args.len(), program.len() as int),
    ensures
        program.len() > 0 ==> outcome is Ok,
        program.len() == 0 ==> outcome == Err::<T, EvalError>(EvalError::EmptyResult),
{
    let end = choose|end: Result<Machine<T>, EvalError>| #[trigger]
        may_reach(op, program, args, end) && outcome == finish(end);
    let states = choose|states: Seq<Result<Machine<T>, EvalError>>| #[trigger]
        is_run(op, program, args, states) && states.last() == end;
    let n = program.len() as int;
    lemma_run_shape(op, program, args, states, n);
    assert(program.take(n) =~= program);
    if n > 0 {
        lemma_run_shape(op, program, args, states, n - 1);
        lemma_counts_grow(program, n - 1);
        assert(!faults_at(program, args.len(), n - 1));
    }
}

/// Where an instruction faults, there is a first one that does, at or before
/// it.
pub proof fn lemma_first_fault_exists(program: Seq<Instruction>, supplied: nat, j: int)
    requires
        faults_at(program, supplied, j),
    ensures
        exists|k: int| 0 <= k <= j && #[trigger] first_fault(program, supplied, k),
    decreases j,
{
    if sound_until(program, supplied, j) {
        assert(first_fault(program, supplied, j));
    } else {
        let earlier = choose|i: int| 0 <= i < j && faults_at(program, supplied, i);
        lemma_first_fault_exists(program, supplied, earlier);
    }
}

/// Among more than `supplied` instructions that bind an operand there is
/// one with exactly `supplied` of them before it.
pub proof fn lemma_unserved_arg(program: Seq<Instruction>, supplied: nat)
    requires
        arg_count(program) > supplied,
    ensures
        exists|k: int|
            0 <= k < program.len() && program[k].binds() && #[trigger] arg_count(program.take(k))
                == supplied,
    decreases program.len(),
{
    let shorter = program.drop_last();
    let last = program.len() - 1;
    if arg_count(shorter) > supplied {
        lemma_unserved_arg(shorter, supplied);
        let k = choose|k: int|
            0 <= k < shorter.len() && shorter[k].binds() && #[trigger] arg_count(shorter.take(k))
                == supplied;
        assert(shorter.take(k) =~= program.take(k));
        assert(program[k] == shorter[k]);
    } else {
        assert(program.take(last) =~= shorter);
    }
}

/// Whether every `BinaryOp` of `program` finds two values on the stack,
/// provided that enough operands are supplied.
pub open spec fn well_stacked(program: Seq<Instruction>) -> bool {
    forall|j: int|
        0 <= j < program.len() && !program[j].binds() ==> #[trigger] depth(program.take(j)) >= 2
}

/// A program in which every `BinaryOp` finds its two values, and which binds
/// more operands than are supplied, ends in `InsufficientArguments`.
pub proof fn law_too_few_operands<T, F: Fn(T, T) -> T>(
    op: F,
    program: Seq<Instruction>,
    args: Seq<T>,
    outcome: Result<T, EvalError>,
)
    requires
        may_yield(op, program, args, outcome),
        well_stacked(program),
        arg_count(program) > args.len(),
    ensures
        outcome == Err::<T, EvalError>(EvalError::InsufficientArguments),
{
    lemma_unserved_arg(program, args.len());
    let j = choose|j: int|
        0 <= j < program.len() && program[j].binds() && #[trigger] arg_count(program.take(j))
            == args.len();
    assert(faults_at(program, args.len(), j));
    lemma_first_fault_exists(program, args.len(), j);
    let k = choose|k: int| 0 <= k <= j && #[trigger] first_fault(program, args.len(), k);
    assert(program[k].binds()) by {
        if !program[k].binds() {
            assert(depth(program.take(k)) >= 2);
        }
    }
    law_first_fault(op, program, args, outcome, k);
}

/// The number of operands bound never falls as a program grows.
pub proof fn lemma_arg_count_grows(program: Seq<Instruction>, i: int)
    requires
        0 <= i <= program.len(),
    ensures
        arg_count(program.take(i)) <= arg_count(program),
    decreases program.len() - i,
{
    if i == program.len() {
        assert(program.take(i) =~= program);
    } else {
        lemma_counts_grow(program, i);
        lemma_arg_count_grows(program, i + 1);
    }
}

/// A program that binds no more operands than are supplied, and in which
/// some `BinaryOp` comes before two values are on the stack, ends in
/// `StackUnderflow`.
pub proof fn law_operator_too_early<T, F: Fn(T, T) -> T>(
    op: F,
    program: Seq<Instruction>,
    args: Seq<T>,
    outcome: Result<T, EvalError>,
    j: int,
)
    requires
        may_yield(op, program, args, outcome),
        arg_count(program) <= args.len(),
        0 <= j < program.len(),
        !program[j].binds(),
        depth(program.take(j)) < 2,
    ensures
        outcome == Err::<T, EvalError>(EvalError::StackUnderflow),
{
    assert(faults_at(program, args.len(), j));
    lemma_first_fault_exists(program, args.len(), j);
    let k = choose|k: int| 0 <= k <= j && #[trigger] first_fault(program, args.len(), k);
    assert(!program[k].binds()) by {
        if program[k].binds() {
            lemma_counts_grow(program, k);
            lemma_arg_count_grows(program, k + 1);
        }
    }
    law_first_fault(op, program, args, outcome, k);
}

/// A program ends in `EmptyResult` if and only if it has no instruction.
pub proof fn law_empty_program<T, F: Fn(T, T) -> T>(
    op: F,
    program: Seq<Instruction>,
    args: Seq<T>,
    outcome: Result<T, EvalError>,
)
    requires
        may_yield(op, program, args, outcome),
    ensures
        outcome == Err::<T, EvalError>(EvalError::EmptyResult) <==> program.len() == 0,
{
    if sound_until(program, args.len(), program.len() as int) {
        law_sound(op, program, args, outcome);
    } else {
        let j = choose|j: int| 0 <= j < program.len() && faults_at(program, args.len(), j);
        lemma_first_fault_exists(program, args.len(), j);
        let k = choose|k: int| 0 <= k <= j && #[trigger] first_fault(program, args.len(), k);
        law_first_fault(op, program, args, outcome, k);
    }
}

/// An operation that computes a function gives the same outcome each time
/// a program is run on the same operands.
pub proof fn law_deterministic<T, F: Fn(T, T) -> T>(
    op: F,
    f: spec_fn(T, T) -> T,
    program: Seq<Instruction>,
    args: Seq<T>,
    first: Result<T, EvalError>,
    second: Result<T, EvalError>,
)
    requires
        computes(op, f),
        may_yield(op, program, args, first),
        may_yield(op, program, args, second),
    ensures
        first == second,
{
    law_exact(op, f, program, args, first);
    law_exact(op, f, program, args, second);
}

/// Two runs of one program, on operands of their own, do not touch each
/// other: each yields what it would have yielded alone.
pub proof fn law_reusable<T, F: Fn(T, T) -> T>(
    op: F,
    f: spec_fn(T, T) -> T,
    program: Seq<Instruction>,
    earlier_args: Seq<T>,
    earlier: Result<T, EvalError>,
    later_args: Seq<T>,
    later: Result<T, EvalError>,
)
    requires
        computes(op, f),
        may_yield(op, program, earlier_args, earlier),
        may_yield(op, program, later_args, later),
    ensures
        earlier == evaluate(program, earlier_args, f),
        later == evaluate(program, later_args, f),
{
    law_exact(op, f, program, earlier_args, earlier);
    law_exact(op, f, program, later_args, later);
}

/// Whether two programs differ at most in the labels that their `Arg`
/// instructions carry.
pub open spec fn same_shape(p: Seq<Instruction>, q: Seq<Instruction>) -> bool {
    &&& p.len() == q.len()
    &&& forall|i: int| 0 <= i < p.len() ==> #[trigger] p[i].binds() == q[i].binds()
}

/// The label of an `Arg` binds nothing: programs that differ in labels only,
/// for one by an exchange of two `Arg` instructions, have the same outcomes
/// on the same operands, whatever the operation.
pub proof fn law_labels_bind_nothing<T, F: Fn(T, T) -> T>(
    op: F,
    p: Seq<Instruction>,
    q: Seq<Instruction>,
    args: Seq<T>,
    outcome: Result<T, EvalError>,
)
    requires
        same_shape(p, q),
        may_yield(op, p, args, outcome),
    ensures
        may_yield(op, q, args, outcome),
{
    let end = choose|end: Result<Machine<T>, EvalError>| #[trigger]
        may_reach(op, p, args, end) && outcome == finish(end);
    let states = choose|states: Seq<Result<Machine<T>, EvalError>>| #[trigger]
        is_run(op, p, args, states) && states.last() == end;
    assert forall|i: int| 0 <= i < q.len() implies #[trigger] link(op, q, args, states, i) by {
        assert(link(op, p, args, states, i));
        assert(p[i].binds() == q[i].binds());
    }
    assert(is_run(op, q, args, states));
    assert(may_reach(op, q, args, end));
}

/// The same for an operation given as a function: programs that differ in
/// labels only evaluate alike.
pub proof fn law_labels_bind_nothing_in_evaluation<T>(
    start: Machine<T>,
    p: Seq<Instruction>,
    q: Seq<Instruction>,
    args: Seq<T>,
    f: spec_fn(T, T) -> T,
)
    requires
        same_shape(p, q),
    ensures
        run_from(start, p, args, f) == run_from(start, q, args, f),
        start == initial::<T>() ==> evaluate(p, args, f) == evaluate(q, args, f),
    decreases p.len(),
{
    if p.len() > 0 {
        assert(p.last().binds() == q.last().binds()) by {
            assert(p[p.len() - 1].binds() == q[p.len() - 1].binds());
        }
        assert(same_shape(p.drop_last(), q.drop_last())) by {
            assert forall|i: int| 0 <= i < p.drop_last().len() implies #[trigger] p.drop_last()[i].binds()
                == q.drop_last()[i].binds() by {
                assert(p[i].binds() == q[i].binds());
            }
        }
        law_labels_bind_nothing_in_evaluation(start, p.drop_last(), q.drop_last(), args, f);
    }
}

/// All that is known of an outcome, in one place: the function that the
/// operation computes fixes it; the first fault decides the error; without a
/// fault there is a value, unless the program is empty.
pub proof fn lemma_outcome<T, F: Fn(T, T) -> T>(
    op: F,
    program: Seq<Instruction>,
    args: Seq<T>,
    outcome: Result<T, EvalError>,
)
    requires
        may_yield(op, program, args, outcome),
    ensures
        forall|f: spec_fn(T, T) -> T| #[trigger]
            computes(op, f) ==> outcome == evaluate(program, args, f),
        forall|k: int| #[trigger]
            first_fault(program, args.len(), k) ==> outcome == Err::<T, EvalError>(
                fault_error(program, k),
            ),
        outcome is Ok <==> program.len() > 0 && sound_until(
            program,
            args.len(),
            program.len() as int,
        ),
        outcome == Err::<T, EvalError>(EvalError::EmptyResult) <==> program.len() == 0,
{
    assert forall|f: spec_fn(T, T) -> T| #[trigger] computes(op, f) implies outcome == evaluate(
        program,
        args,
        f,
    ) by {
        law_exact(op, f, program, args, outcome);
    }
    assert forall|k: int| #[trigger] first_fault(program, args.len(), k) implies outcome == Err::<
        T,
        EvalError,
    >(fault_error(program, k)) by {
        law_first_fault(op, program, args, outcome, k);
    }
    if sound_until(program, args.len(), program.len() as int) {
        law_sound(op, program, args, outcome);
    } else {
        let j = choose|j: int| 0 <= j < program.len() && faults_at(program, args.len(), j);
        lemma_first_fault_exists(program, args.len(), j);
        let k = choose|k: int| 0 <= k <= j && #[trigger] first_fault(program, args.len(), k);
        law_first_fault(op, program, args, outcome, k);
    }
    law_empty_program(op, program, args, outcome);
}

} // verus!
