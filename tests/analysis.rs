use stack_compiler::error::CompileError;
use stack_compiler::lexer::{lexer, Token};
use stack_compiler::parser::{parse, AstNode};
use stack_compiler::semantic_analyzer::semantic_analysis;

fn check(s: &str) -> Result<(), CompileError> {
    semantic_analysis(&parse(&lexer(s).unwrap()).unwrap())
}

#[test]
fn declared_variables_pass() {
    assert_eq!(check("x = 5; y = 10; z = x + y;"), Ok(()));
}

#[test]
fn use_before_assignment_is_a_name_error() {
    assert_eq!(check("y = x + 1;"), Err(CompileError::NameError("x".to_string())));
    assert_eq!(check("x = x;"), Err(CompileError::NameError("x".to_string())));
}

#[test]
fn first_undeclared_name_is_reported() {
    assert_eq!(check("a = b + c;"), Err(CompileError::NameError("b".to_string())));
}

#[test]
fn branch_declarations_are_visible_afterwards() {
    assert_eq!(check("if (1 < 2) { x = 1; }; y = x;"), Ok(()));
    assert_eq!(check("if (1 < 2) { } else { x = 2; }; y = x;"), Ok(()));
}

#[test]
fn condition_is_checked() {
    assert_eq!(check("if (q < 2) { x = 1; }"), Err(CompileError::NameError("q".to_string())));
}

#[test]
fn bare_expression_statement_is_legal() {
    assert_eq!(check("x = 1; x + 2;"), Ok(()));
}

#[test]
fn non_operator_token_in_binary_node_is_an_operator_error() {
    let node = AstNode::BinaryOp {
        left: Box::new(AstNode::Integer(1)),
        op: Token::Semicolon,
        right: Box::new(AstNode::Integer(2)),
    };
    assert_eq!(semantic_analysis(&[node]), Err(CompileError::OperatorError(Token::Semicolon)));
}

#[test]
fn malformed_input_fails_before_analysis() {
    let tokens = lexer("x = ;").unwrap();
    assert_eq!(parse(&tokens), Err(CompileError::SyntaxError(Some(Token::Semicolon))));
}
