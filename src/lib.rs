pub mod code_generator;
pub mod error;
pub mod ir_generator;
pub mod lexer;
pub mod optimizer;
pub mod parser;
pub mod semantic_analyzer;

use vstd::prelude::*;

use crate::code_generator::{codegen_spec, generate_output_code, Dialect};
use crate::error::CompileError;
use crate::ir_generator::{generate_ir, ir_view, lower_program, IRInstruction};
use crate::lexer::{lex_spec, lexer, tokens_view, Token};
use crate::optimizer::{optimize_ir, optimize_spec};
use crate::parser::{nodes_view, parse, parse_spec, AstNode};
use crate::semantic_analyzer::{check_all_spec, semantic_analysis};

verus! {

/// Every stage succeeds on `source`: `ts` are its tokens, `ast` their
/// statements, which pass the declaration check, `code` and `labels` the
/// lowered program, `opt_code` and `opt_labels` the optimized one, and
/// `text` its assembly for dialect `d`.
pub open spec fn compiles_through(
    source: Seq<char>,
    d: Dialect,
    ts: Seq<Token>,
    ast: Seq<AstNode>,
    code: Seq<IRInstruction>,
    labels: Seq<usize>,
    opt_code: Seq<IRInstruction>,
    opt_labels: Seq<usize>,
    text: Seq<char>,
) -> bool {
    &&& lex_spec(source) == Ok::<_, CompileError>(tokens_view(ts))
    &&& parse_spec(ts) == Ok::<_, CompileError>(nodes_view(ast))
    &&& check_all_spec(ast, Set::empty()) is Ok
    &&& lower_program(ast) == Ok::<_, CompileError>((ir_view(code), labels))
    &&& optimize_spec(ir_view(code), labels) == (ir_view(opt_code), opt_labels)
    &&& codegen_spec(opt_code, opt_labels, d) == Ok::<_, CompileError>(text)
}

/// The stages run on `source` through the values given, and the first of
/// them that fails fails with `e`.
pub open spec fn fails_through(
    source: Seq<char>,
    d: Dialect,
    ts: Seq<Token>,
    ast: Seq<AstNode>,
    code: Seq<IRInstruction>,
    labels: Seq<usize>,
    opt_code: Seq<IRInstruction>,
    opt_labels: Seq<usize>,
    e: CompileError,
) -> bool {
    ||| lex_spec(source) == Err::<Seq<crate::lexer::TokenModel>, CompileError>(e)
    ||| lex_spec(source) == Ok::<_, CompileError>(tokens_view(ts)) && ({
        ||| parse_spec(ts) == Err::<Seq<crate::parser::AstModel>, CompileError>(e)
        ||| parse_spec(ts) == Ok::<_, CompileError>(nodes_view(ast)) && ({
            ||| check_all_spec(ast, Set::empty()) == Err::<Set<Seq<char>>, CompileError>(e)
            ||| check_all_spec(ast, Set::empty()) is Ok && ({
                ||| lower_program(ast) == Err::<crate::ir_generator::LowerState, CompileError>(e)
                ||| lower_program(ast) == Ok::<_, CompileError>((ir_view(code), labels))
                    && optimize_spec(ir_view(code), labels) == (ir_view(opt_code), opt_labels)
                    && codegen_spec(opt_code, opt_labels, d) == Err::<Seq<char>, CompileError>(e)
            })
        })
    })
}

/// Compiles source text to assembly for dialect `d`: lexing, parsing, the
/// declaration check, lowering, constant folding and code generation, in
/// that order, stopping at the first stage that fails.
pub fn compile(source: &str, d: Dialect) -> (r: Result<String, CompileError>)
    ensures
        match r {
            Ok(text) => exists|
                ts: Seq<Token>,
                ast: Seq<AstNode>,
                code: Seq<IRInstruction>,
                labels: Seq<usize>,
                opt_code: Seq<IRInstruction>,
                opt_labels: Seq<usize>,
            |
                #[trigger] compiles_through(
                    source@,
                    d,
                    ts,
                    ast,
                    code,
                    labels,
                    opt_code,
                    opt_labels,
                    text@,
                ),
            Err(e) => exists|
                ts: Seq<Token>,
                ast: Seq<AstNode>,
                code: Seq<IRInstruction>,
                labels: Seq<usize>,
                opt_code: Seq<IRInstruction>,
                opt_labels: Seq<usize>,
            |
                #[trigger] fails_through(
                    source@,
                    d,
                    ts,
                    ast,
                    code,
                    labels,
                    opt_code,
                    opt_labels,
                    e,
                ),
        },
{
    let ghost none_t = Seq::<Token>::empty();
    let ghost none_a = Seq::<AstNode>::empty();
    let ghost none_i = Seq::<IRInstruction>::empty();
    let ghost none_l = Seq::<usize>::empty();
    let tokens = match lexer(source) {
        Ok(t) => t,
        Err(e) => {
            assert(fails_through(source@, d, none_t, none_a, none_i, none_l, none_i, none_l, e));
            return Err(e);
        },
    };
    let ast = match parse(&tokens) {
        Ok(a) => a,
        Err(e) => {
            assert(fails_through(source@, d, tokens@, none_a, none_i, none_l, none_i, none_l, e));
            return Err(e);
        },
    };
    match semantic_analysis(&ast) {
        Ok(()) => {},
        Err(e) => {
            assert(fails_through(source@, d, tokens@, ast@, none_i, none_l, none_i, none_l, e));
            return Err(e);
        },
    }
    let mut program = match generate_ir(&ast) {
        Ok(p) => p,
        Err(e) => {
            assert(fails_through(source@, d, tokens@, ast@, none_i, none_l, none_i, none_l, e));
            return Err(e);
        },
    };
    let ghost code = program.instructions@;
    let ghost labels = program.labels@;
    optimize_ir(&mut program);
    match generate_output_code(&program, d) {
        Ok(text) => {
            assert(compiles_through(
                source@,
                d,
                tokens@,
                ast@,
                code,
                labels,
                program.instructions@,
                program.labels@,
                text@,
            ));
            Ok(text)
        },
        Err(e) => {
            assert(fails_through(
                source@,
                d,
                tokens@,
                ast@,
                code,
                labels,
                program.instructions@,
                program.labels@,
                e,
            ));
            Err(e)
        },
    }
}

} // verus!
