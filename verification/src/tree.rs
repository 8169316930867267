//! Expression trees over one binary operation, their postfix encoding, and
//! the proof that running the encoding gives the value of the tree.

use vstd::prelude::*;
use crate::laws::law_exact;
use crate::machine::{computes, evaluate, initial, may_yield, run_from, Machine};
use crate::program::{EvalError, Instruction};

verus! {

/// An expression: an operand, or the operation applied to two expressions.
pub enum Expr {
    /// An operand. The label goes into the `Arg` that stands for the leaf.
    Leaf(u64),
    /// The operation on the value of the left and of the right expression.
    Node(Box<Expr>, Box<Expr>),
}

impl Expr {
    /// The number of operands of the expression.
    pub open spec fn leaves(self) -> nat
        decreases self,
    {
        match self {
            Expr::Leaf(_) => 1,
            Expr::Node(l, r) => l.leaves() + r.leaves(),
        }
    }

    /// The postfix encoding: the left expression, the right one, then the
    /// operation.
    pub open spec fn postfix(self) -> Seq<Instruction>
        decreases self,
    {
        match self {
            Expr::Leaf(label) => seq![Instruction::Arg(label)],
            Expr::Node(l, r) => (l.postfix() + r.postfix()).push(Instruction::BinaryOp),
        }
    }

    /// The value of the expression when its operands, from left to right,
    /// are `args[from]`, `args[from + 1]` and so on.
    pub open spec fn value<T>(self, args: Seq<T>, from: int, f: spec_fn(T, T) -> T) -> T
        decreases self,
    {
        match self {
            Expr::Leaf(_) => args[from],
            Expr::Node(l, r) => f(l.value(args, from, f), r.value(args, from + l.leaves(), f)),
        }
    }
}

/// Running two programs one after the other is running the first, then the
/// second from where the first ended.
pub proof fn lemma_run_in_two<T>(
    start: Machine<T>,
    first: Seq<Instruction>,
    second: Seq<Instruction>,
    args: Seq<T>,
    f: spec_fn(T, T) -> T,
)
    ensures
        run_from(start, first + second, args, f) == match run_from(start, first, args, f) {
            Ok(m) => run_from(m, second, args, f),
            Err(e) => Err(e),
        },
    decreases second.len(),
{
    if second.len() == 0 {
        assert(first + second =~= first);
    } else {
        lemma_run_in_two(start, first, second.drop_last(), args, f);
        assert((first + second).drop_last() =~= first + second.drop_last());
        assert((first + second).last() == second.last());
    }
}

/// Run from any machine with enough operands left, the encoding of an
/// expression binds its operands and leaves its value on top of the stack.
pub proof fn lemma_postfix_pushes_value<T>(
    e: Expr,
    start: Machine<T>,
    args: Seq<T>,
    f: spec_fn(T, T) -> T,
)
    requires
        start.bound + e.leaves() <= args.len(),
    ensures
        run_from(start, e.postfix(), args, f) == Ok::<Machine<T>, EvalError>(
            Machine {
                stack: start.stack.push(e.value(args, start.bound as int, f)),
                bound: start.bound + e.leaves(),
            },
        ),
    decreases e,
{
    match e {
        Expr::Leaf(label) => {
            let program = seq![Instruction::Arg(label)];
            assert(e.postfix() == program);
            assert(program.drop_last() =~= Seq::<Instruction>::empty());
            assert(program.last() == Instruction::Arg(label));
            assert(run_from(start, program.drop_last(), args, f) == Ok::<Machine<T>, EvalError>(
                start,
            ));
        },
        Expr::Node(l, r) => {
            let after_left = Machine {
                stack: start.stack.push(l.value(args, start.bound as int, f)),
                bound: start.bound + l.leaves(),
            };
            let after_right = Machine {
                stack: after_left.stack.push(r.value(args, after_left.bound as int, f)),
                bound: after_left.bound + r.leaves(),
            };
            lemma_postfix_pushes_value(*l, start, args, f);
            lemma_postfix_pushes_value(*r, after_left, args, f);
            lemma_run_in_two(start, l.postfix(), r.postfix(), args, f);
            let program = e.postfix();
            assert(program.drop_last() =~= l.postfix() + r.postfix());
            assert(program.last() == Instruction::BinaryOp);
            assert(after_right.stack.take(after_right.stack.len() - 2) =~= start.stack);
        },
    }
}

/// Postfix correctness: with at least as many operands as the expression has
/// leaves, its encoding evaluates to the value of the expression, the
/// operands bound from left to right.
pub proof fn law_postfix<T>(e: Expr, args: Seq<T>, f: spec_fn(T, T) -> T)
    requires
        e.leaves() <= args.len(),
    ensures
        evaluate(e.postfix(), args, f) == Ok::<T, EvalError>(e.value(args, 0, f)),
{
    lemma_postfix_pushes_value(e, initial(), args, f);
}

/// Postfix correctness of a run: an operation that computes `f`, run on the
/// encoding of an expression, yields the value of the expression.
pub proof fn law_postfix_run<T, F: Fn(T, T) -> T>(
    op: F,
    f: spec_fn(T, T) -> T,
    e: Expr,
    args: Seq<T>,
    outcome: Result<T, EvalError>,
)
    requires
        computes(op, f),
        may_yield(op, e.postfix(), args, outcome),
        e.leaves() <= args.len(),
    ensures
        outcome == Ok::<T, EvalError>(e.value(args, 0, f)),
{
    law_exact(op, f, e.postfix(), args, outcome);
    law_postfix(e, args, f);
}

/// The value of an expression depends on the operands that it binds and on
/// no others.
pub proof fn lemma_value_is_local<T>(
    e: Expr,
    xs: Seq<T>,
    from_x: int,
    ys: Seq<T>,
    from_y: int,
    f: spec_fn(T, T) -> T,
)
    requires
        0 <= from_x,
        from_x + e.leaves() <= xs.len(),
        0 <= from_y,
        from_y + e.leaves() <= ys.len(),
        xs.subrange(from_x, from_x + e.leaves()) == ys.subrange(from_y, from_y + e.leaves()),
    ensures
        e.value(xs, from_x, f) == e.value(ys, from_y, f),
    decreases e,
{
    let n = e.leaves() as int;
    let window_x = xs.subrange(from_x, from_x + n);
    let window_y = ys.subrange(from_y, from_y + n);
    match e {
        Expr::Leaf(_) => {
            assert(window_x[0] == window_y[0]);
        },
        Expr::Node(l, r) => {
            let m = l.leaves() as int;
            assert(xs.subrange(from_x, from_x + m) =~= window_x.subrange(0, m));
            assert(ys.subrange(from_y, from_y + m) =~= window_y.subrange(0, m));
            assert(xs.subrange(from_x + m, from_x + n) =~= window_x.subrange(m, n));
            assert(ys.subrange(from_y + m, from_y + n) =~= window_y.subrange(m, n));
            lemma_value_is_local(*l, xs, from_x, ys, from_y, f);
            lemma_value_is_local(*r, xs, from_x + m, ys, from_y + m, f);
        },
    }
}

/// The order of the operands counts. Let an expression combine `left`, on
/// the operands `a`, with `right`, on the operands `b`. Exchanging the two,
/// expressions and operands, gives the operation with its arguments
/// exchanged: the outcome is the same if and only if the operation commutes
/// on the two values.
pub proof fn law_order_of_operands<T>(
    left: Expr,
    right: Expr,
    a: Seq<T>,
    b: Seq<T>,
    f: spec_fn(T, T) -> T,
)
    requires
        left.leaves() == a.len(),
        right.leaves() == b.len(),
    ensures
        evaluate(Expr::Node(Box::new(left), Box::new(right)).postfix(), a + b, f) == Ok::<
            T,
            EvalError,
        >(f(left.value(a, 0, f), right.value(b, 0, f))),
        evaluate(Expr::Node(Box::new(right), Box::new(left)).postfix(), b + a, f) == Ok::<
            T,
            EvalError,
        >(f(right.value(b, 0, f), left.value(a, 0, f))),
        evaluate(Expr::Node(Box::new(left), Box::new(right)).postfix(), a + b, f) == evaluate(
            Expr::Node(Box::new(right), Box::new(left)).postfix(),
            b + a,
            f,
        ) <==> f(left.value(a, 0, f), right.value(b, 0, f)) == f(
            right.value(b, 0, f),
            left.value(a, 0, f),
        ),
{
    let straight = Expr::Node(Box::new(left), Box::new(right));
    let exchanged = Expr::Node(Box::new(right), Box::new(left));
    law_postfix(straight, a + b, f);
    law_postfix(exchanged, b + a, f);
    let la = a.len() as int;
    let lb = b.len() as int;
    assert((a + b).subrange(0, la) =~= a.subrange(0, la));
    assert((a + b).subrange(la, la + lb) =~= b.subrange(0, lb));
    assert((b + a).subrange(0, lb) =~= b.subrange(0, lb));
    assert((b + a).subrange(lb, lb + la) =~= a.subrange(0, la));
    lemma_value_is_local(left, a + b, 0, a, 0, f);
    lemma_value_is_local(right, a + b, la, b, 0, f);
    lemma_value_is_local(right, b + a, 0, b, 0, f);
    lemma_value_is_local(left, b + a, lb, a, 0, f);
}

} // verus!
