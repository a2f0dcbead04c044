use stack_compiler::error::CompileError;
use stack_compiler::lexer::{lexer, Token};

fn ident(s: &str) -> Token {
    Token::Identifier(s.to_string())
}

#[test]
fn lexes_assignment_statement() {
    let tokens = lexer("x = 5;").unwrap();
    assert_eq!(tokens, vec![ident("x"), Token::Equals, Token::Integer(5), Token::Semicolon]);
}

#[test]
fn lexes_every_operator_and_delimiter() {
    let tokens = lexer("+ - * / ( ) { } ; = == < > <= >=").unwrap();
    assert_eq!(
        tokens,
        vec![
            Token::Plus,
            Token::Minus,
            Token::Star,
            Token::Slash,
            Token::LParen,
            Token::RParen,
            Token::LBrace,
            Token::RBrace,
            Token::Semicolon,
            Token::Equals,
            Token::DoubleEquals,
            Token::LessThan,
            Token::GreaterThan,
            Token::LessThanEquals,
            Token::GreaterThanEquals,
        ]
    );
}

#[test]
fn two_character_operators_take_maximal_munch() {
    let tokens = lexer("a<=b>=c==d=e").unwrap();
    assert_eq!(
        tokens,
        vec![
            ident("a"),
            Token::LessThanEquals,
            ident("b"),
            Token::GreaterThanEquals,
            ident("c"),
            Token::DoubleEquals,
            ident("d"),
            Token::Equals,
            ident("e"),
        ]
    );
}

#[test]
fn reserved_words_and_identifiers() {
    let tokens = lexer("if else iff elsewhere x1 If").unwrap();
    assert_eq!(
        tokens,
        vec![Token::If, Token::Else, ident("iff"), ident("elsewhere"), ident("x1"), ident("If")]
    );
}

#[test]
fn whitespace_is_skipped() {
    let tokens = lexer(" \t\n12\n\t34 ").unwrap();
    assert_eq!(tokens, vec![Token::Integer(12), Token::Integer(34)]);
}

#[test]
fn empty_source_has_no_tokens() {
    assert_eq!(lexer("").unwrap(), vec![]);
    assert_eq!(lexer("  \n ").unwrap(), vec![]);
}

#[test]
fn digits_then_letters_split() {
    let tokens = lexer("12ab").unwrap();
    assert_eq!(tokens, vec![Token::Integer(12), ident("ab")]);
}

#[test]
fn largest_integer_literal() {
    assert_eq!(lexer("2147483647").unwrap(), vec![Token::Integer(2147483647)]);
}

#[test]
fn integer_literal_too_large() {
    assert_eq!(lexer("x = 2147483648;"), Err(CompileError::IntegerTooLarge));
}

#[test]
fn unrecognized_character_is_reported() {
    assert_eq!(lexer("x = 5 $ 3"), Err(CompileError::UnrecognizedCharacter('$')));
    assert_eq!(lexer("é"), Err(CompileError::UnrecognizedCharacter('é')));
}

#[test]
fn lexer_is_total_on_supported_characters() {
    let source = "if (a1 <= 22) { b = a1 * (3 - 4) / 5; } else { c = 7 >= 8; }\n\tx == y > z < w;";
    assert!(lexer(source).is_ok());
}
