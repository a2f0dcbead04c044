use stack_compiler::error::CompileError;
use stack_compiler::lexer::{lexer, Token};
use stack_compiler::parser::{parse, AstNode};

fn parse_text(s: &str) -> Result<Vec<AstNode>, CompileError> {
    parse(&lexer(s).unwrap())
}

fn num(n: i32) -> AstNode {
    AstNode::Integer(n)
}

fn var(s: &str) -> AstNode {
    AstNode::Identifier(s.to_string())
}

fn bin(l: AstNode, op: Token, r: AstNode) -> AstNode {
    AstNode::BinaryOp { left: Box::new(l), op, right: Box::new(r) }
}

fn assign(s: &str, v: AstNode) -> AstNode {
    AstNode::Assignment { identifier: s.to_string(), value: Box::new(v) }
}

#[test]
fn multiplication_binds_tighter_than_addition() {
    let ast = parse_text("1 + 2 * 3").unwrap();
    assert_eq!(ast, vec![bin(num(1), Token::Plus, bin(num(2), Token::Star, num(3)))]);
}

#[test]
fn operators_associate_to_the_left() {
    let ast = parse_text("8 - 4 - 2").unwrap();
    assert_eq!(ast, vec![bin(bin(num(8), Token::Minus, num(4)), Token::Minus, num(2))]);
    let ast = parse_text("8 / 4 / 2").unwrap();
    assert_eq!(ast, vec![bin(bin(num(8), Token::Slash, num(4)), Token::Slash, num(2))]);
}

#[test]
fn comparison_shares_the_additive_level() {
    let ast = parse_text("1 + 2 < 3").unwrap();
    assert_eq!(ast, vec![bin(bin(num(1), Token::Plus, num(2)), Token::LessThan, num(3))]);
}

#[test]
fn parentheses_reset_precedence() {
    let ast = parse_text("(1 + 2) * 3").unwrap();
    assert_eq!(ast, vec![bin(bin(num(1), Token::Plus, num(2)), Token::Star, num(3))]);
}

#[test]
fn assignment_needs_identifier_then_equals() {
    let ast = parse_text("x = y + 1; y").unwrap();
    assert_eq!(ast, vec![assign("x", bin(var("y"), Token::Plus, num(1))), var("y")]);
}

#[test]
fn statement_count_matches_separators() {
    assert_eq!(parse_text("x = 5; y = 10; z = x + y;").unwrap().len(), 3);
    assert_eq!(parse_text("x = 5; y = 10; z = x + y").unwrap().len(), 3);
    assert_eq!(parse_text("").unwrap().len(), 0);
    assert_eq!(parse_text("if (1 < 2) { a = 1; b = 2; } else { c = 3; }; d = 4").unwrap().len(), 2);
}

#[test]
fn if_else_statement() {
    let ast = parse_text("if (1 < 2) { x = 1; } else { x = 2; }").unwrap();
    assert_eq!(
        ast,
        vec![AstNode::IfElse {
            condition: Box::new(bin(num(1), Token::LessThan, num(2))),
            if_branch: vec![assign("x", num(1))],
            else_branch: Some(vec![assign("x", num(2))]),
        }]
    );
}

#[test]
fn if_without_else_and_empty_block() {
    let ast = parse_text("if x { }").unwrap();
    assert_eq!(
        ast,
        vec![AstNode::IfElse { condition: Box::new(var("x")), if_branch: vec![], else_branch: None }]
    );
}

#[test]
fn missing_operand_is_a_syntax_error() {
    assert_eq!(parse_text("x = ;"), Err(CompileError::SyntaxError(Some(Token::Semicolon))));
}

#[test]
fn missing_brace_is_a_syntax_error() {
    assert_eq!(
        parse_text("if x y = 1; }"),
        Err(CompileError::SyntaxError(Some(Token::Identifier("y".to_string()))))
    );
    assert_eq!(parse_text("if x { y = 1;"), Err(CompileError::SyntaxError(None)));
}

#[test]
fn unmatched_parenthesis_is_a_syntax_error() {
    assert_eq!(parse_text("(1 + 2"), Err(CompileError::SyntaxError(None)));
    assert_eq!(parse_text("(1 + 2;"), Err(CompileError::SyntaxError(Some(Token::Semicolon))));
}

#[test]
fn statements_need_separators() {
    assert_eq!(
        parse_text("x = 1 y = 2"),
        Err(CompileError::SyntaxError(Some(Token::Identifier("y".to_string()))))
    );
}

#[test]
fn stray_closing_brace_is_a_syntax_error() {
    assert_eq!(parse_text("}"), Err(CompileError::SyntaxError(Some(Token::RBrace))));
}

#[test]
fn if_statement_needs_separator_before_next_statement() {
    assert_eq!(
        parse_text("if x { } y = 1"),
        Err(CompileError::SyntaxError(Some(Token::Identifier("y".to_string()))))
    );
    assert_eq!(parse_text("if x { }; y = 1").unwrap().len(), 2);
}
