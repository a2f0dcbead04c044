use stack_compiler::ir_generator::{IRInstruction, IrProgram};
use stack_compiler::optimizer::optimize_ir;

use stack_compiler::ir_generator::IRInstruction::{
    Add, Compare, Divide, Jump, JumpIfFalse, LoadConstant, LoadVariable, Multiply, Store, Subtract,
};

fn optimize(instructions: Vec<IRInstruction>, labels: Vec<usize>) -> IrProgram {
    let mut p = IrProgram { instructions, labels };
    optimize_ir(&mut p);
    p
}

#[test]
fn constant_addition_folds() {
    let p = optimize(vec![LoadConstant(2), LoadConstant(3), Add], vec![]);
    assert_eq!(p.instructions, vec![LoadConstant(5)]);
}

#[test]
fn chained_additions_fold_twice() {
    let p = optimize(vec![LoadConstant(1), LoadConstant(2), Add, LoadConstant(3), Add], vec![]);
    assert_eq!(p.instructions, vec![LoadConstant(6)]);
}

#[test]
fn other_operators_are_not_folded() {
    let input = vec![LoadConstant(2), LoadConstant(3), Multiply, LoadConstant(4), LoadConstant(5), Subtract];
    let p = optimize(input, vec![]);
    assert_eq!(
        p.instructions,
        vec![LoadConstant(2), LoadConstant(3), Multiply, LoadConstant(4), LoadConstant(5), Subtract]
    );
}

#[test]
fn program_without_constant_pairs_is_unchanged() {
    let input = vec![
        LoadConstant(5),
        Store("x".to_string()),
        LoadConstant(10),
        Store("y".to_string()),
        LoadVariable("x".to_string()),
        LoadVariable("y".to_string()),
        Add,
        Store("z".to_string()),
    ];
    let p = optimize(input, vec![]);
    assert_eq!(p.instructions.len(), 8);
    assert_eq!(p.instructions[6], Add);
}

#[test]
fn short_sequences_are_unchanged() {
    assert_eq!(optimize(vec![], vec![]).instructions, vec![]);
    assert_eq!(
        optimize(vec![LoadConstant(1), LoadConstant(2)], vec![]).instructions,
        vec![LoadConstant(1), LoadConstant(2)]
    );
}

#[test]
fn labels_after_a_fold_move_back() {
    let p = optimize(vec![LoadConstant(2), LoadConstant(3), Add, Jump(0), Add], vec![0, 4, 5]);
    assert_eq!(p.instructions, vec![LoadConstant(5), Jump(0), Add]);
    assert_eq!(p.labels, vec![0, 2, 3]);
}

#[test]
fn fold_stops_at_a_jump_target() {
    let input = vec![LoadConstant(2), LoadConstant(3), Add];
    let p = optimize(input, vec![1]);
    assert_eq!(p.instructions, vec![LoadConstant(2), LoadConstant(3), Add]);
    assert_eq!(p.labels, vec![1]);
}

#[test]
fn overflowing_sum_is_not_folded() {
    let p = optimize(vec![LoadConstant(i32::MAX), LoadConstant(1), Add], vec![]);
    assert_eq!(p.instructions, vec![LoadConstant(i32::MAX), LoadConstant(1), Add]);
}

#[test]
fn second_pass_changes_nothing_when_first_left_no_triple() {
    let input = vec![LoadConstant(1), LoadConstant(2), Add, LoadConstant(3), Add, Store("x".to_string())];
    let mut p = optimize(input, vec![]);
    let once = p.instructions.clone();
    optimize_ir(&mut p);
    assert_eq!(p.instructions, once);
}

#[test]
fn one_pass_can_leave_a_triple_behind() {
    let input = vec![LoadConstant(1), LoadConstant(2), LoadConstant(3), Add, Add];
    let mut p = optimize(input, vec![]);
    assert_eq!(p.instructions, vec![LoadConstant(1), LoadConstant(5), Add]);
    optimize_ir(&mut p);
    assert_eq!(p.instructions, vec![LoadConstant(6)]);
}
