use vstd::prelude::*;

use crate::lexer::Token;

verus! {

/// The ways in which one compilation can fail. Each stage stops at its first
/// failure and hands it back to the caller.
#[derive(Debug, Clone, PartialEq, Eq)]
pub enum CompileError {
    /// The lexer met a character outside the language's character set.
    UnrecognizedCharacter(char),
    /// An integer literal does not fit in an `i32`.
    IntegerTooLarge,
    /// The parser met a token that the grammar does not allow there; `None`
    /// stands for the end of the input.
    SyntaxError(Option<Token>),
    /// A variable is read before any assignment to it.
    NameError(String),
    /// A binary operator node holds a token that is no binary operator.
    OperatorError(Token),
    /// The code generator met an instruction that it cannot emit.
    CodegenError(CodegenFault),
}

/// Why code generation refused an instruction sequence.
#[derive(Debug, Clone, PartialEq, Eq)]
pub enum CodegenFault {
    /// A `Compare` names an operator outside `== < > <= >=`.
    UnknownComparison(String),
    /// A jump names a label that has no position.
    UndefinedLabel(usize),
    /// More distinct variables than the fixed frame has slots for.
    TooManyVariables,
}

} // verus!
