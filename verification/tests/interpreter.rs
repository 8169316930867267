use blind_compute::interpreter::parse;
use blind_compute::program::{EvalError, Instruction};

fn arg(label: u64) -> Instruction {
    Instruction::Arg(label)
}

fn op() -> Instruction {
    Instruction::BinaryOp
}

fn text(s: &str) -> String {
    s.to_string()
}

fn paren(a: String, b: String) -> String {
    format!("({} {})", a, b)
}

fn times(a: u64, b: u64) -> u64 {
    a * b
}

fn minus(a: i64, b: i64) -> i64 {
    a - b
}

#[test]
fn left_nested_product_of_three() {
    let run = parse(vec![arg(0), arg(1), op(), arg(2), op()], times);
    assert_eq!(run.run(vec![2, 4, 10]), Ok(80));
}

#[test]
fn single_operand_is_returned_as_it_is() {
    let run = parse(vec![arg(0)], times);
    assert_eq!(run.run(vec![7]), Ok(7));
}

#[test]
fn binary_op_takes_left_operand_from_below_the_top() {
    let run = parse(vec![arg(0), arg(1), op()], minus);
    assert_eq!(run.run(vec![10, 3]), Ok(7));
}

#[test]
fn postfix_of_left_nested_tree_keeps_operand_order() {
    let run = parse(vec![arg(0), arg(1), op(), arg(2), op()], paren);
    assert_eq!(
        run.run(vec![text("a"), text("b"), text("c")]),
        Ok(text("((a b) c)"))
    );
}

#[test]
fn postfix_of_right_nested_tree_keeps_operand_order() {
    let run = parse(vec![arg(0), arg(1), arg(2), op(), op()], paren);
    assert_eq!(
        run.run(vec![text("a"), text("b"), text("c")]),
        Ok(text("(a (b c))"))
    );
}

#[test]
fn postfix_of_balanced_tree_keeps_operand_order() {
    let program = vec![arg(0), arg(1), op(), arg(2), arg(3), op(), op()];
    let run = parse(program, paren);
    assert_eq!(
        run.run(vec![text("a"), text("b"), text("c"), text("d")]),
        Ok(text("((a b) (c d))"))
    );
}

#[test]
fn right_nested_difference() {
    let run = parse(vec![arg(0), arg(1), arg(2), op(), op()], minus);
    assert_eq!(run.run(vec![10, 4, 1]), Ok(7));
}

#[test]
fn same_run_twice_gives_same_result() {
    let run = parse(vec![arg(0), arg(1), op(), arg(2), op()], minus);
    let first = run.run(vec![50, 8, 2]);
    let second = run.run(vec![50, 8, 2]);
    assert_eq!(first, Ok(40));
    assert_eq!(first, second);
}

#[test]
fn more_args_than_operands_is_insufficient_arguments() {
    let run = parse(vec![arg(0), arg(1), op(), arg(2), op()], times);
    assert_eq!(run.run(vec![2, 4]), Err(EvalError::InsufficientArguments));
}

#[test]
fn arg_with_no_operands_is_insufficient_arguments() {
    let run = parse(vec![arg(0)], times);
    assert_eq!(run.run(vec![]), Err(EvalError::InsufficientArguments));
}

#[test]
fn binary_op_on_empty_stack_is_stack_underflow() {
    let run = parse(vec![op()], times);
    assert_eq!(run.run(vec![1, 2]), Err(EvalError::StackUnderflow));
}

#[test]
fn binary_op_on_one_value_is_stack_underflow() {
    let run = parse(vec![arg(0), op()], times);
    assert_eq!(run.run(vec![1, 2]), Err(EvalError::StackUnderflow));
}

#[test]
fn second_binary_op_without_operands_is_stack_underflow() {
    let run = parse(vec![arg(0), arg(1), op(), op()], times);
    assert_eq!(run.run(vec![1, 2]), Err(EvalError::StackUnderflow));
}

#[test]
fn first_fault_decides_underflow_before_missing_operand() {
    let run = parse(vec![op(), arg(0)], times);
    assert_eq!(run.run(vec![]), Err(EvalError::StackUnderflow));
}

#[test]
fn first_fault_decides_missing_operand_before_underflow() {
    let run = parse(vec![arg(0), op()], times);
    assert_eq!(run.run(vec![]), Err(EvalError::InsufficientArguments));
}

#[test]
fn empty_program_is_empty_result() {
    let run = parse(Vec::new(), times);
    assert_eq!(run.run(vec![]), Err(EvalError::EmptyResult));
}

#[test]
fn empty_program_with_operands_is_empty_result() {
    let run = parse(Vec::new(), times);
    assert_eq!(run.run(vec![3, 4]), Err(EvalError::EmptyResult));
}

#[test]
fn values_left_below_the_top_are_dropped() {
    let run = parse(vec![arg(0), arg(1)], times);
    assert_eq!(run.run(vec![5, 9]), Ok(9));
}

#[test]
fn operands_that_no_arg_binds_are_ignored() {
    let run = parse(vec![arg(0), arg(1), op()], times);
    assert_eq!(run.run(vec![3, 5, 1000]), Ok(15));
}

#[test]
fn arg_labels_do_not_choose_the_operand() {
    let straight = parse(vec![arg(0), arg(1), op()], minus);
    let exchanged = parse(vec![arg(1), arg(0), op()], minus);
    let repeated = parse(vec![arg(7), arg(7), op()], minus);
    assert_eq!(straight.run(vec![10, 3]), Ok(7));
    assert_eq!(exchanged.run(vec![10, 3]), Ok(7));
    assert_eq!(repeated.run(vec![10, 3]), Ok(7));
}

#[test]
fn exchanged_operands_change_a_difference() {
    let run = parse(vec![arg(0), arg(1), op()], minus);
    assert_eq!(run.run(vec![10, 3]), Ok(7));
    assert_eq!(run.run(vec![3, 10]), Ok(-7));
}

#[test]
fn exchanged_operands_keep_a_product() {
    let run = parse(vec![arg(0), arg(1), op()], times);
    assert_eq!(run.run(vec![10, 3]), Ok(30));
    assert_eq!(run.run(vec![3, 10]), Ok(30));
}

#[test]
fn exchanged_subtrees_change_a_difference() {
    let straight = parse(vec![arg(0), arg(1), op(), arg(2), op()], minus);
    let exchanged = parse(vec![arg(2), arg(0), arg(1), op(), op()], minus);
    assert_eq!(straight.run(vec![10, 3, 2]), Ok(5));
    assert_eq!(exchanged.run(vec![2, 10, 3]), Ok(-5));
}

#[test]
fn one_evaluator_serves_runs_that_do_not_touch_each_other() {
    let run = parse(vec![arg(0), arg(1), op(), arg(2), op()], times);
    assert_eq!(run.run(vec![2, 4, 10]), Ok(80));
    assert_eq!(run.run(vec![1, 1, 1]), Ok(1));
    let fresh = parse(vec![arg(0), arg(1), op(), arg(2), op()], times);
    assert_eq!(fresh.run(vec![1, 1, 1]), Ok(1));
}

#[test]
fn a_failed_run_leaves_nothing_behind() {
    let run = parse(vec![arg(0), arg(1), op(), arg(2), op()], times);
    assert_eq!(run.run(vec![2, 4]), Err(EvalError::InsufficientArguments));
    assert_eq!(run.run(vec![2, 4, 10]), Ok(80));
}

#[test]
fn operation_is_called_once_for_each_binary_op() {
    let calls = std::cell::Cell::new(0u32);
    let counted = |a: u64, b: u64| {
        calls.set(calls.get() + 1);
        a + b
    };
    let run = parse(vec![arg(0), arg(1), op(), arg(2), op()], counted);
    assert_eq!(run.run(vec![1, 2, 3]), Ok(6));
    assert_eq!(calls.get(), 2);
}

#[test]
fn operation_is_not_called_after_a_fault() {
    let calls = std::cell::Cell::new(0u32);
    let counted = |a: u64, b: u64| {
        calls.set(calls.get() + 1);
        a + b
    };
    let run = parse(vec![arg(0), arg(1), op(), op(), arg(2), op()], counted);
    assert_eq!(run.run(vec![1, 2, 3]), Err(EvalError::StackUnderflow));
    assert_eq!(calls.get(), 1);
}
