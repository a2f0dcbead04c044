use stack_compiler::code_generator::{generate_output_code, Dialect};
use stack_compiler::compile;
use stack_compiler::error::{CodegenFault, CompileError};
use stack_compiler::ir_generator::{IRInstruction, IrProgram};

use stack_compiler::ir_generator::IRInstruction::{
    Add, Compare, Divide, Jump, JumpIfFalse, LoadConstant, LoadVariable, Multiply, Store, Subtract,
};

const X64_HEAD: &str = "    .data\n    .bss\n    .lcomm stack_pointer, 8\n\n    .text\n    .globl main\n\nmain:\n    pushq %rbp\n    movq %rsp, %rbp\n    subq $256, %rsp\n\n";
const X64_TAIL: &str = "\n    movq $0, %rax\n    leave\n    ret\n";
const X86_HEAD: &str = "section .bss\n    scratch resd 1\n\nsection .text\nglobal main\n\nmain:\n    push ebp\n    mov ebp, esp\n    sub esp, 256\n\n";
const X86_TAIL: &str = "\n    mov eax, 0\n    leave\n    ret\n";

fn program(instructions: Vec<IRInstruction>, labels: Vec<usize>) -> IrProgram {
    IrProgram { instructions, labels }
}

#[test]
fn single_assignment_in_both_dialects() {
    let text = compile("x = 1;", Dialect::X86_64).unwrap();
    let body = "    movq $1, %rax\n    pushq %rax\n    popq %rax\n    movq %rax, -8(%rbp)\n";
    assert_eq!(text, format!("{}{}{}", X64_HEAD, body, X64_TAIL));
    let text = compile("x = 1;", Dialect::X86).unwrap();
    let body = "    mov eax, 1\n    push eax\n    pop eax\n    mov [ebp-4], eax\n";
    assert_eq!(text, format!("{}{}{}", X86_HEAD, body, X86_TAIL));
}

#[test]
fn three_variables_get_three_slots() {
    let text = compile("x = 5; y = 10; z = x + y;", Dialect::X86_64).unwrap();
    let stores: Vec<&str> = text.lines().filter(|l| l.starts_with("    movq %rax, ")).collect();
    assert_eq!(
        stores,
        vec!["    movq %rax, -8(%rbp)", "    movq %rax, -16(%rbp)", "    movq %rax, -24(%rbp)"]
    );
    assert!(text.contains("    movq -8(%rbp), %rax\n    pushq %rax\n    movq -16(%rbp), %rax\n"));
    assert!(text.contains("    popq %rbx\n    popq %rax\n    addq %rbx, %rax\n    pushq %rax\n"));
}

#[test]
fn variables_sharing_a_first_letter_do_not_alias() {
    let text = compile("ab = 1; ac = 2; ad = ab + ac;", Dialect::X86).unwrap();
    assert!(text.contains("    mov [ebp-4], eax\n"));
    assert!(text.contains("    mov [ebp-8], eax\n"));
    assert!(text.contains("    mov [ebp-12], eax\n"));
}

#[test]
fn arithmetic_instructions_in_both_dialects() {
    let p = program(vec![LoadConstant(7), LoadConstant(2), Subtract, LoadConstant(3), Multiply, LoadConstant(4), Divide], vec![]);
    let text = generate_output_code(&p, Dialect::X86_64).unwrap();
    assert!(text.contains("    subq %rbx, %rax\n"));
    assert!(text.contains("    imulq %rbx, %rax\n"));
    assert!(text.contains("    popq %rbx\n    popq %rax\n    cqo\n    idivq %rbx\n    pushq %rax\n"));
    let text = generate_output_code(&p, Dialect::X86).unwrap();
    assert!(text.contains("    sub eax, ebx\n"));
    assert!(text.contains("    imul eax, ebx\n"));
    assert!(text.contains("    pop ebx\n    pop eax\n    cdq\n    idiv ebx\n    push eax\n"));
}

#[test]
fn negative_constant_prints_with_sign() {
    let p = program(vec![LoadConstant(-42)], vec![]);
    let text = generate_output_code(&p, Dialect::X86_64).unwrap();
    assert_eq!(text, format!("{}    movq $-42, %rax\n    pushq %rax\n{}", X64_HEAD, X64_TAIL));
}

#[test]
fn comparisons_use_matching_set_instruction() {
    for (op, set) in [("==", "sete"), ("<", "setl"), (">", "setg"), ("<=", "setle"), (">=", "setge")] {
        let p = program(vec![LoadConstant(1), LoadConstant(2), Compare(op.to_string())], vec![]);
        let text = generate_output_code(&p, Dialect::X86_64).unwrap();
        let expected = format!(
            "    popq %rbx\n    popq %rax\n    cmpq %rbx, %rax\n    {} %al\n    movzbq %al, %rax\n    pushq %rax\n",
            set
        );
        assert!(text.contains(&expected));
        let text = generate_output_code(&p, Dialect::X86).unwrap();
        let expected = format!(
            "    pop ebx\n    pop eax\n    cmp eax, ebx\n    {} al\n    movzx eax, al\n    push eax\n",
            set
        );
        assert!(text.contains(&expected));
    }
}

#[test]
fn if_else_markers_stand_at_their_positions() {
    let text = compile("if (1 < 2) { x = 1; } else { x = 2; }", Dialect::X86_64).unwrap();
    assert_eq!(text.matches(".L0:\n").count(), 1);
    assert_eq!(text.matches(".L1:\n").count(), 1);
    assert!(text.contains("    popq %rax\n    testq %rax, %rax\n    je .L0\n"));
    assert!(text.contains("    jmp .L1\n.L0:\n    movq $2, %rax\n"));
    assert!(text.ends_with(&format!(".L1:\n{}", X64_TAIL)));
    let text = compile("if (1 < 2) { x = 1; } else { x = 2; }", Dialect::X86).unwrap();
    assert!(text.contains("    pop eax\n    test eax, eax\n    je L0\n"));
    assert!(text.contains("    jmp L1\nL0:\n    mov eax, 2\n"));
    assert!(text.ends_with(&format!("L1:\n{}", X86_TAIL)));
}

#[test]
fn labels_sharing_a_position_each_get_one_marker() {
    let p = program(vec![LoadConstant(0), JumpIfFalse(0)], vec![2, 2]);
    let text = generate_output_code(&p, Dialect::X86_64).unwrap();
    assert!(text.ends_with(&format!("    je .L0\n.L0:\n.L1:\n{}", X64_TAIL)));
}

#[test]
fn unknown_comparison_is_a_codegen_error() {
    let p = program(vec![LoadConstant(1), LoadConstant(2), Compare("!=".to_string())], vec![]);
    assert_eq!(
        generate_output_code(&p, Dialect::X86_64),
        Err(CompileError::CodegenError(CodegenFault::UnknownComparison("!=".to_string())))
    );
}

#[test]
fn jump_to_missing_label_is_a_codegen_error() {
    let p = program(vec![Jump(3)], vec![0]);
    assert_eq!(
        generate_output_code(&p, Dialect::X86),
        Err(CompileError::CodegenError(CodegenFault::UndefinedLabel(3)))
    );
}

#[test]
fn label_past_the_end_is_a_codegen_error() {
    let p = program(vec![Jump(0)], vec![0, 5]);
    assert_eq!(
        generate_output_code(&p, Dialect::X86_64),
        Err(CompileError::CodegenError(CodegenFault::UndefinedLabel(1)))
    );
}

#[test]
fn frame_holds_a_bounded_number_of_variables() {
    let mut source = String::new();
    for i in 0..32 {
        source.push_str(&format!("v{} = {};", i, i));
    }
    assert!(compile(&source, Dialect::X86_64).is_ok());
    source.push_str("w = 1;");
    assert_eq!(
        compile(&source, Dialect::X86_64),
        Err(CompileError::CodegenError(CodegenFault::TooManyVariables))
    );
    assert!(compile(&source, Dialect::X86).is_ok());
}

#[test]
fn compile_stops_at_first_failing_stage() {
    assert_eq!(compile("x = 1 $", Dialect::X86_64), Err(CompileError::UnrecognizedCharacter('$')));
    assert_eq!(
        compile("x = ;", Dialect::X86_64),
        Err(CompileError::SyntaxError(Some(stack_compiler::lexer::Token::Semicolon)))
    );
    assert_eq!(compile("y = x;", Dialect::X86), Err(CompileError::NameError("x".to_string())));
}

#[test]
fn compile_folds_constants() {
    let text = compile("x = 2 + 3;", Dialect::X86_64).unwrap();
    let body = "    movq $5, %rax\n    pushq %rax\n    popq %rax\n    movq %rax, -8(%rbp)\n";
    assert_eq!(text, format!("{}{}{}", X64_HEAD, body, X64_TAIL));
}
