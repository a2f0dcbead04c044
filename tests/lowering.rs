use stack_compiler::error::CompileError;
use stack_compiler::ir_generator::{generate_ir, IRInstruction, IrProgram};
use stack_compiler::lexer::{lexer, Token};
use stack_compiler::parser::{parse, AstNode};

use stack_compiler::ir_generator::IRInstruction::{
    Add, Compare, Divide, Jump, JumpIfFalse, LoadConstant, LoadVariable, Multiply, Store, Subtract,
};

fn lower(s: &str) -> IrProgram {
    generate_ir(&parse(&lexer(s).unwrap()).unwrap()).unwrap()
}

/// Runs the instructions; returns the variables and whether each position ran.
fn run(p: &IrProgram) -> (std::collections::HashMap<String, i64>, Vec<bool>) {
    let mut vars = std::collections::HashMap::new();
    let mut stack: Vec<i64> = Vec::new();
    let mut ran = vec![false; p.instructions.len()];
    let mut pc = 0;
    let mut steps = 0;
    while pc < p.instructions.len() {
        steps += 1;
        assert!(steps < 10_000);
        ran[pc] = true;
        match &p.instructions[pc] {
            LoadConstant(n) => stack.push(*n as i64),
            LoadVariable(v) => stack.push(vars[v]),
            Store(v) => {
                let x = stack.pop().unwrap();
                vars.insert(v.clone(), x);
            }
            Add | Subtract | Multiply | Divide | Compare(_) => {
                let b = stack.pop().unwrap();
                let a = stack.pop().unwrap();
                let r = match &p.instructions[pc] {
                    Add => a + b,
                    Subtract => a - b,
                    Multiply => a * b,
                    Divide => a / b,
                    Compare(op) => match op.as_str() {
                        "==" => (a == b) as i64,
                        "<" => (a < b) as i64,
                        ">" => (a > b) as i64,
                        "<=" => (a <= b) as i64,
                        ">=" => (a >= b) as i64,
                        _ => panic!("bad comparison"),
                    },
                    _ => unreachable!(),
                };
                stack.push(r);
            }
            JumpIfFalse(l) => {
                if stack.pop().unwrap() == 0 {
                    pc = p.labels[*l];
                    continue;
                }
            }
            Jump(l) => {
                pc = p.labels[*l];
                continue;
            }
        }
        pc += 1;
    }
    (vars, ran)
}

#[test]
fn end_to_end_assignments_lower_in_order() {
    let p = lower("x = 5; y = 10; z = x + y;");
    assert_eq!(
        p.instructions,
        vec![
            LoadConstant(5),
            Store("x".to_string()),
            LoadConstant(10),
            Store("y".to_string()),
            LoadVariable("x".to_string()),
            LoadVariable("y".to_string()),
            Add,
            Store("z".to_string()),
        ]
    );
    assert!(p.labels.is_empty());
}

#[test]
fn every_operator_maps_to_its_instruction() {
    let p = lower("1 - 2 * 3 / 4 == 5 < 6 > 7 <= 8 >= 9");
    let ops: Vec<&IRInstruction> =
        p.instructions.iter().filter(|i| !matches!(i, LoadConstant(_))).collect();
    assert_eq!(
        ops,
        vec![
            &Multiply,
            &Divide,
            &Subtract,
            &Compare("==".to_string()),
            &Compare("<".to_string()),
            &Compare(">".to_string()),
            &Compare("<=".to_string()),
            &Compare(">=".to_string()),
        ]
    );
}

#[test]
fn arithmetic_tree_has_loads_plus_operators() {
    // four binary operators: five loads and four operator instructions
    let p = lower("(1 + 2) * (3 - 4) / 5");
    assert_eq!(p.instructions.len(), 9);
    let loads = p.instructions.iter().filter(|i| matches!(i, LoadConstant(_))).count();
    assert_eq!(loads, 5);
}

#[test]
fn one_store_per_assignment() {
    let p = lower("a = 1; if (a < 2) { b = a; c = b; } else { d = 3; }; e = 4;");
    let stores = p.instructions.iter().filter(|i| matches!(i, Store(_))).count();
    assert_eq!(stores, 5);
}

#[test]
fn if_else_lowering_places_each_label_once() {
    let p = lower("if (1 < 2) { x = 1; } else { x = 2; }");
    assert_eq!(
        p.instructions,
        vec![
            LoadConstant(1),
            LoadConstant(2),
            Compare("<".to_string()),
            JumpIfFalse(0),
            LoadConstant(1),
            Store("x".to_string()),
            Jump(1),
            LoadConstant(2),
            Store("x".to_string()),
        ]
    );
    assert_eq!(p.labels, vec![7, 9]);
}

#[test]
fn if_else_true_condition_skips_else_branch() {
    let p = lower("if (1 < 2) { x = 1; } else { x = 2; }");
    let (vars, ran) = run(&p);
    assert_eq!(vars["x"], 1);
    assert!(!ran[7] && !ran[8]);
    for ins in &p.instructions {
        if let Jump(l) | JumpIfFalse(l) = ins {
            assert!(*l < p.labels.len());
        }
    }
}

#[test]
fn if_else_false_condition_runs_else_branch() {
    let p = lower("if (2 < 1) { x = 1; } else { x = 2; }");
    let (vars, ran) = run(&p);
    assert_eq!(vars["x"], 2);
    assert!(!ran[4] && !ran[5]);
}

#[test]
fn if_without_else_jumps_to_end() {
    let p = lower("x = 0; if (x > 1) { x = 5; }; y = x;");
    assert_eq!(p.labels, vec![8, 8]);
    assert_eq!(p.instructions[5], JumpIfFalse(0));
    let (vars, _) = run(&p);
    assert_eq!(vars["y"], 0);
}

#[test]
fn nested_ifs_get_fresh_labels() {
    let p = lower("x = 1; if (x) { if (x) { y = 1; } else { y = 2; } } else { y = 3; }");
    assert_eq!(p.labels.len(), 4);
    let (vars, _) = run(&p);
    assert_eq!(vars["y"], 1);
}

#[test]
fn lowering_rejects_non_operator_token() {
    let node = AstNode::BinaryOp {
        left: Box::new(AstNode::Integer(1)),
        op: Token::If,
        right: Box::new(AstNode::Integer(2)),
    };
    assert_eq!(generate_ir(&[node]).err(), Some(CompileError::OperatorError(Token::If)));
}
