use vstd::prelude::*;

use crate::error::CompileError;
use crate::lexer::{Token, TokenModel};

verus! {

/// A node of the syntax tree. Each node owns its children; `if_branch` and
/// `else_branch` are blocks of statements.
#[derive(Debug, PartialEq, Eq)]
pub enum AstNode {
    Integer(i32),
    BinaryOp { left: Box<AstNode>, op: Token, right: Box<AstNode> },
    Assignment { identifier: String, value: Box<AstNode> },
    Identifier(String),
    IfElse { condition: Box<AstNode>, if_branch: Vec<AstNode>, else_branch: Option<Vec<AstNode>> },
}

/// A syntax tree as a mathematical value: names are sequences of characters,
/// blocks are sequences of nodes.
pub ghost enum AstModel {
    Integer(i32),
    BinaryOp { left: Box<AstModel>, op: TokenModel, right: Box<AstModel> },
    Assignment { identifier: Seq<char>, value: Box<AstModel> },
    Identifier(Seq<char>),
    IfElse { condition: Box<AstModel>, if_branch: Seq<AstModel>, else_branch: Option<Seq<AstModel>> },
}

/// The mathematical value of a node.
pub open spec fn node_view(n: AstNode) -> AstModel
    decreases n, 0nat,
{
    match n {
        AstNode::Integer(v) => AstModel::Integer(v),
        AstNode::Identifier(s) => AstModel::Identifier(s@),
        AstNode::BinaryOp { left, op, right } => AstModel::BinaryOp {
            left: Box::new(node_view(*left)),
            op: op@,
            right: Box::new(node_view(*right)),
        },
        AstNode::Assignment { identifier, value } => AstModel::Assignment {
            identifier: identifier@,
            value: Box::new(node_view(*value)),
        },
        AstNode::IfElse { condition, if_branch, else_branch } => AstModel::IfElse {
            condition: Box::new(node_view(*condition)),
            if_branch: nodes_view(if_branch@),
            else_branch: match else_branch {
                Some(e) => Some(nodes_view(e@)),
                None => None,
            },
        },
    }
}

pub open spec fn nodes_view(s: Seq<AstNode>) -> Seq<AstModel>
    decreases s, 1nat,
{
    if s.len() == 0 {
        Seq::empty()
    } else {
        nodes_view(s.drop_last()).push(node_view(s.last()))
    }
}


pub open spec fn at(ts: Seq<Token>, p: int) -> Option<Token> {
    if 0 <= p < ts.len() {
        Some(ts[p])
    } else {
        None
    }
}

/// Operators of the additive level, which comparisons share.
pub open spec fn is_additive(t: Token) -> bool {
    t is Plus || t is Minus || t is DoubleEquals || t is LessThan || t is GreaterThan
        || t is LessThanEquals || t is GreaterThanEquals
}

pub open spec fn is_multiplicative(t: Token) -> bool {
    t is Star || t is Slash
}

/// The nine binary operators.
pub open spec fn is_binary_operator(t: Token) -> bool {
    is_additive(t) || is_multiplicative(t)
}

/// The failure at position `p`: the token found there, or `None` at the end.
pub open spec fn stuck<A>(ts: Seq<Token>, p: int) -> Result<A, CompileError> {
    Err(CompileError::SyntaxError(at(ts, p)))
}

pub open spec fn advances(ts: Seq<Token>, p: int, q: int) -> bool {
    p < q <= ts.len()
}

pub open spec fn binary(left: AstModel, op: Token, right: AstModel) -> AstModel {
    AstModel::BinaryOp { left: Box::new(left), op: op@, right: Box::new(right) }
}

/// `factor := integer | identifier | '(' expression ')'` at `p`: the node
/// and the position after it.
pub open spec fn factor_at(ts: Seq<Token>, p: int) -> Result<(AstModel, int), CompileError>
    decreases ts.len() - p, 1nat,
{
    if !(0 <= p < ts.len()) {
        stuck(ts, p)
    } else {
        match ts[p] {
            Token::Integer(n) => Ok((AstModel::Integer(n), p + 1)),
            Token::Identifier(name) => Ok((AstModel::Identifier(name@), p + 1)),
            Token::LParen => match expression_at(ts, p + 1) {
                Ok((e, q)) => if at(ts, q) == Some(Token::RParen) {
                    Ok((e, q + 1))
                } else {
                    stuck(ts, q)
                },
                Err(err) => Err(err),
            },
            _ => stuck(ts, p),
        }
    }
}

/// `(('*'|'/') factor)*` at `p`, folded to the left onto `left`.
pub open spec fn term_rest(ts: Seq<Token>, left: AstModel, p: int) -> Result<(AstModel, int), CompileError>
    decreases ts.len() - p, 2nat,
{
    if 0 <= p < ts.len() && is_multiplicative(ts[p]) {
        match factor_at(ts, p + 1) {
            Ok((r, q)) => if advances(ts, p, q) {
                term_rest(ts, binary(left, ts[p], r), q)
            } else {
                stuck(ts, q)
            },
            Err(e) => Err(e),
        }
    } else {
        Ok((left, p))
    }
}

/// `term := factor (('*'|'/') factor)*` at `p`.
pub open spec fn term_at(ts: Seq<Token>, p: int) -> Result<(AstModel, int), CompileError>
    decreases ts.len() - p, 3nat,
{
    match factor_at(ts, p) {
        Ok((l, q)) => if advances(ts, p, q) {
            term_rest(ts, l, q)
        } else {
            stuck(ts, q)
        },
        Err(e) => Err(e),
    }
}

/// `(op term)*` at `p` for the additive and comparison operators, folded to
/// the left onto `left`.
pub open spec fn expression_rest(ts: Seq<Token>, left: AstModel, p: int) -> Result<(AstModel, int), CompileError>
    decreases ts.len() - p, 4nat,
{
    if 0 <= p < ts.len() && is_additive(ts[p]) {
        match term_at(ts, p + 1) {
            Ok((r, q)) => if advances(ts, p, q) {
                expression_rest(ts, binary(left, ts[p], r), q)
            } else {
                stuck(ts, q)
            },
            Err(e) => Err(e),
        }
    } else {
        Ok((left, p))
    }
}

/// `expression := term (op term)*` at `p`.
pub open spec fn expression_at(ts: Seq<Token>, p: int) -> Result<(AstModel, int), CompileError>
    decreases ts.len() - p, 5nat,
{
    match term_at(ts, p) {
        Ok((l, q)) => if advances(ts, p, q) {
            expression_rest(ts, l, q)
        } else {
            stuck(ts, q)
        },
        Err(e) => Err(e),
    }
}

/// `assignment := identifier '=' expression` at `p`.
pub open spec fn assignment_at(ts: Seq<Token>, p: int) -> Result<(AstModel, int), CompileError>
    decreases ts.len() - p, 6nat,
{
    match at(ts, p) {
        Some(Token::Identifier(name)) => match expression_at(ts, p + 2) {
            Ok((v, q)) => Ok((AstModel::Assignment { identifier: name@, value: Box::new(v) }, q)),
            Err(e) => Err(e),
        },
        _ => stuck(ts, p),
    }
}

/// `'{' block '}'` at `p`: the statements and the position after the `}`.
pub open spec fn braced_at(ts: Seq<Token>, p: int) -> Result<(Seq<AstModel>, int), CompileError>
    decreases ts.len() - p, 9nat,
{
    if at(ts, p) != Some(Token::LBrace) {
        stuck(ts, p)
    } else {
        match block_at(ts, p + 1) {
            Ok((b, r)) => if !advances(ts, p, r) {
                stuck(ts, r)
            } else if at(ts, r) != Some(Token::RBrace) {
                stuck(ts, r)
            } else {
                Ok((b, r + 1))
            },
            Err(e) => Err(e),
        }
    }
}

/// What follows the condition of an `if`: `'{' block '}' ('else' '{' block '}')?`
/// at `q`, with `c` the condition already parsed.
pub open spec fn if_else_tail(ts: Seq<Token>, c: AstModel, q: int) -> Result<(AstModel, int), CompileError>
    decreases ts.len() - q, 10nat,
{
    match braced_at(ts, q) {
        Ok((b, r)) => if !advances(ts, q, r) {
            stuck(ts, r)
        } else if at(ts, r) == Some(Token::Else) {
            match braced_at(ts, r + 1) {
                Ok((e, s)) => Ok((
                    AstModel::IfElse { condition: Box::new(c), if_branch: b, else_branch: Some(e) },
                    s,
                )),
                Err(err) => Err(err),
            }
        } else {
            Ok((AstModel::IfElse { condition: Box::new(c), if_branch: b, else_branch: None }, r))
        },
        Err(err) => Err(err),
    }
}

/// `ifElse := 'if' expression '{' block '}' ('else' '{' block '}')?` at `p`,
/// where `ts[p]` is `if`.
pub open spec fn if_else_at(ts: Seq<Token>, p: int) -> Result<(AstModel, int), CompileError>
    decreases ts.len() - p, 7nat,
{
    match expression_at(ts, p + 1) {
        Ok((c, q)) => if !advances(ts, p, q) {
            stuck(ts, q)
        } else {
            if_else_tail(ts, c, q)
        },
        Err(e) => Err(e),
    }
}

/// `statement := ifElse | assignment | expression` at `p`: an assignment
/// exactly where `identifier '='` begins it.
pub open spec fn statement_at(ts: Seq<Token>, p: int) -> Result<(AstModel, int), CompileError>
    decreases ts.len() - p, 8nat,
{
    match at(ts, p) {
        Some(Token::If) => if_else_at(ts, p),
        Some(Token::Identifier(_)) => if at(ts, p + 1) == Some(Token::Equals) {
            assignment_at(ts, p)
        } else {
            expression_at(ts, p)
        },
        _ => expression_at(ts, p),
    }
}

pub open spec fn prepend_node(s: AstModel, r: Result<(Seq<AstModel>, int), CompileError>) -> Result<
    (Seq<AstModel>, int),
    CompileError,
> {
    match r {
        Ok((b, q)) => Ok((seq![s] + b, q)),
        Err(e) => Err(e),
    }
}

/// The statements of a block from `p` up to its closing `}` or the end of
/// the tokens, with the position where they stop. A `;` separates two
/// statements and may follow the last one.
pub open spec fn block_at(ts: Seq<Token>, p: int) -> Result<(Seq<AstModel>, int), CompileError>
    decreases ts.len() - p, 10nat,
{
    if !(0 <= p < ts.len()) || ts[p] is RBrace {
        Ok((Seq::empty(), p))
    } else {
        match statement_at(ts, p) {
            Ok((s, q)) => if !advances(ts, p, q) {
                stuck(ts, q)
            } else if at(ts, q) == Some(Token::Semicolon) {
                prepend_node(s, block_at(ts, q + 1))
            } else if q == ts.len() || at(ts, q) == Some(Token::RBrace) {
                Ok((seq![s], q))
            } else {
                stuck(ts, q)
            },
            Err(e) => Err(e),
        }
    }
}

/// The statements of the program from `p` to the end of the tokens.
pub open spec fn program_at(ts: Seq<Token>, p: int) -> Result<Seq<AstModel>, CompileError>
    decreases ts.len() - p,
{
    if !(0 <= p < ts.len()) {
        Ok(Seq::empty())
    } else {
        match statement_at(ts, p) {
            Ok((s, q)) => if !advances(ts, p, q) {
                stuck(ts, q)
            } else if at(ts, q) == Some(Token::Semicolon) {
                match program_at(ts, q + 1) {
                    Ok(rest) => Ok(seq![s] + rest),
                    Err(e) => Err(e),
                }
            } else if q == ts.len() {
                Ok(seq![s])
            } else {
                stuck(ts, q)
            },
            Err(e) => Err(e),
        }
    }
}

/// What a whole token sequence parses to.
pub open spec fn parse_spec(ts: Seq<Token>) -> Result<Seq<AstModel>, CompileError> {
    program_at(ts, 0)
}

pub open spec fn depth_step(t: Token, d: int) -> int {
    if t is LBrace {
        d + 1
    } else if t is RBrace {
        d - 1
    } else {
        d
    }
}

/// The semicolons of `ts[p..q]` that stand outside all braces, counting
/// brace depth from `d` at `p`.
pub open spec fn semicolons_outside(ts: Seq<Token>, p: int, q: int, d: int) -> nat
    decreases q - p,
{
    if p >= q || p < 0 || p >= ts.len() {
        0
    } else {
        (if ts[p] is Semicolon && d == 0 {
            1nat
        } else {
            0
        }) + semicolons_outside(ts, p + 1, q, depth_step(ts[p], d))
    }
}

/// The brace depth after `ts[p..q]`, from `d` at `p`.
pub open spec fn depth_after(ts: Seq<Token>, p: int, q: int, d: int) -> int
    decreases q - p,
{
    if p >= q || p < 0 || p >= ts.len() {
        d
    } else {
        depth_after(ts, p + 1, q, depth_step(ts[p], d))
    }
}

/// The semicolons of a token sequence that stand outside all braces.
pub open spec fn top_level_semicolons(ts: Seq<Token>) -> nat {
    semicolons_outside(ts, 0, ts.len() as int, 0)
}

/// `ts[p..q]` holds no semicolon outside braces and closes every brace it
/// opens, seen from depth `d`.
pub open spec fn neutral(ts: Seq<Token>, p: int, q: int, d: int) -> bool {
    semicolons_outside(ts, p, q, d) == 0 && depth_after(ts, p, q, d) == d
}

/// `ts[p..q]` holds no semicolon and no brace.
pub open spec fn flat(ts: Seq<Token>, p: int, q: int) -> bool {
    forall|k: int|
        p <= k < q ==> !(#[trigger] ts[k] is Semicolon) && !(ts[k] is LBrace) && !(ts[k] is RBrace)
}

proof fn lemma_compose(ts: Seq<Token>, p: int, q: int, r: int, d: int)
    requires
        0 <= p <= q <= r <= ts.len(),
    ensures
        semicolons_outside(ts, p, r, d) == semicolons_outside(ts, p, q, d) + semicolons_outside(
            ts,
            q,
            r,
            depth_after(ts, p, q, d),
        ),
        depth_after(ts, p, r, d) == depth_after(ts, q, r, depth_after(ts, p, q, d)),
    decreases q - p,
{
    if p < q {
        lemma_compose(ts, p + 1, q, r, depth_step(ts[p], d));
    }
}

proof fn lemma_flat_neutral(ts: Seq<Token>, p: int, q: int, d: int)
    requires
        0 <= p <= q <= ts.len(),
        flat(ts, p, q),
    ensures
        neutral(ts, p, q, d),
    decreases q - p,
{
    if p < q {
        assert(!(ts[p] is Semicolon) && !(ts[p] is LBrace) && !(ts[p] is RBrace));
        lemma_flat_neutral(ts, p + 1, q, d);
    }
}

proof fn lemma_one(ts: Seq<Token>, p: int, d: int)
    requires
        0 <= p < ts.len(),
    ensures
        semicolons_outside(ts, p, p + 1, d) == (if ts[p] is Semicolon && d == 0 {
            1nat
        } else {
            0
        }),
        depth_after(ts, p, p + 1, d) == depth_step(ts[p], d),
{
    assert(semicolons_outside(ts, p + 1, p + 1, depth_step(ts[p], d)) == 0);
    assert(depth_after(ts, p + 1, p + 1, depth_step(ts[p], d)) == depth_step(ts[p], d));
}

proof fn lemma_factor_flat(ts: Seq<Token>, p: int)
    requires
        0 <= p,
    ensures
        factor_at(ts, p) is Ok ==> p < factor_at(ts, p)->Ok_0.1 <= ts.len() && flat(
            ts,
            p,
            factor_at(ts, p)->Ok_0.1,
        ),
    decreases ts.len() - p, 1nat,
{
    if 0 <= p < ts.len() && ts[p] is LParen {
        lemma_expression_flat(ts, p + 1);
    }
}

proof fn lemma_term_rest_flat(ts: Seq<Token>, left: AstModel, p: int)
    requires
        0 <= p <= ts.len(),
    ensures
        term_rest(ts, left, p) is Ok ==> p <= term_rest(ts, left, p)->Ok_0.1 <= ts.len() && flat(
            ts,
            p,
            term_rest(ts, left, p)->Ok_0.1,
        ),
    decreases ts.len() - p, 2nat,
{
    if 0 <= p < ts.len() && is_multiplicative(ts[p]) {
        lemma_factor_flat(ts, p + 1);
        if let Ok((r, q)) = factor_at(ts, p + 1) {
            if advances(ts, p, q) {
                lemma_term_rest_flat(ts, binary(left, ts[p], r), q);
            }
        }
    }
}

proof fn lemma_term_flat(ts: Seq<Token>, p: int)
    requires
        0 <= p,
    ensures
        term_at(ts, p) is Ok ==> p < term_at(ts, p)->Ok_0.1 <= ts.len() && flat(
            ts,
            p,
            term_at(ts, p)->Ok_0.1,
        ),
    decreases ts.len() - p, 3nat,
{
    lemma_factor_flat(ts, p);
    if let Ok((l, q)) = factor_at(ts, p) {
        if advances(ts, p, q) {
            lemma_term_rest_flat(ts, l, q);
        }
    }
}

proof fn lemma_expression_rest_flat(ts: Seq<Token>, left: AstModel, p: int)
    requires
        0 <= p <= ts.len(),
    ensures
        expression_rest(ts, left, p) is Ok ==> p <= expression_rest(ts, left, p)->Ok_0.1 <= ts.len()
            && flat(ts, p, expression_rest(ts, left, p)->Ok_0.1),
    decreases ts.len() - p, 4nat,
{
    if 0 <= p < ts.len() && is_additive(ts[p]) {
        lemma_term_flat(ts, p + 1);
        if let Ok((r, q)) = term_at(ts, p + 1) {
            if advances(ts, p, q) {
                lemma_expression_rest_flat(ts, binary(left, ts[p], r), q);
            }
        }
    }
}

proof fn lemma_expression_flat(ts: Seq<Token>, p: int)
    requires
        0 <= p,
    ensures
        expression_at(ts, p) is Ok ==> p < expression_at(ts, p)->Ok_0.1 <= ts.len() && flat(
            ts,
            p,
            expression_at(ts, p)->Ok_0.1,
        ),
    decreases ts.len() - p, 5nat,
{
    lemma_term_flat(ts, p);
    if let Ok((l, q)) = term_at(ts, p) {
        if advances(ts, p, q) {
            lemma_expression_rest_flat(ts, l, q);
        }
    }
}

proof fn lemma_braced_neutral(ts: Seq<Token>, p: int, d: int)
    requires
        0 <= p,
        0 <= d,
    ensures
        braced_at(ts, p) is Ok ==> p < braced_at(ts, p)->Ok_0.1 <= ts.len() && neutral(
            ts,
            p,
            braced_at(ts, p)->Ok_0.1,
            d,
        ),
    decreases ts.len() - p, 9nat,
{
    if at(ts, p) == Some(Token::LBrace) {
        assert(p < ts.len());
        lemma_block_neutral(ts, p + 1, d + 1);
        if let Ok((b, r)) = block_at(ts, p + 1) {
            if advances(ts, p, r) && at(ts, r) == Some(Token::RBrace) {
                lemma_one(ts, p, d);
                lemma_one(ts, r, d + 1);
                lemma_compose(ts, p, p + 1, r, d);
                lemma_compose(ts, p, r, r + 1, d);
            }
        }
    }
}

proof fn lemma_if_else_tail_neutral(ts: Seq<Token>, c: AstModel, q: int, d: int)
    requires
        0 <= q,
        0 <= d,
    ensures
        if_else_tail(ts, c, q) is Ok ==> q < if_else_tail(ts, c, q)->Ok_0.1 <= ts.len() && neutral(
            ts,
            q,
            if_else_tail(ts, c, q)->Ok_0.1,
            d,
        ),
    decreases ts.len() - q, 10nat,
{
    lemma_braced_neutral(ts, q, d);
    if let Ok((b, r)) = braced_at(ts, q) {
        if advances(ts, q, r) && at(ts, r) == Some(Token::Else) {
            lemma_braced_neutral(ts, r + 1, d);
            if let Ok((e, s)) = braced_at(ts, r + 1) {
                lemma_one(ts, r, d);
                lemma_compose(ts, q, r, r + 1, d);
                lemma_compose(ts, q, r + 1, s, d);
            }
        }
    }
}

proof fn lemma_if_else_neutral(ts: Seq<Token>, p: int, d: int)
    requires
        0 <= p < ts.len(),
        ts[p] is If,
        0 <= d,
    ensures
        if_else_at(ts, p) is Ok ==> p < if_else_at(ts, p)->Ok_0.1 <= ts.len() && neutral(
            ts,
            p,
            if_else_at(ts, p)->Ok_0.1,
            d,
        ),
    decreases ts.len() - p, 7nat,
{
    lemma_expression_flat(ts, p + 1);
    if let Ok((c, q)) = expression_at(ts, p + 1) {
        if advances(ts, p, q) {
            lemma_if_else_tail_neutral(ts, c, q, d);
            if let Ok((n, s)) = if_else_tail(ts, c, q) {
                lemma_one(ts, p, d);
                lemma_flat_neutral(ts, p + 1, q, d);
                lemma_compose(ts, p, p + 1, q, d);
                lemma_compose(ts, p, q, s, d);
            }
        }
    }
}

proof fn lemma_statement_neutral(ts: Seq<Token>, p: int, d: int)
    requires
        0 <= p,
        0 <= d,
    ensures
        statement_at(ts, p) is Ok ==> p < statement_at(ts, p)->Ok_0.1 <= ts.len() && neutral(
            ts,
            p,
            statement_at(ts, p)->Ok_0.1,
            d,
        ),
    decreases ts.len() - p, 8nat,
{
    match at(ts, p) {
        Some(Token::If) => {
            lemma_if_else_neutral(ts, p, d);
        },
        Some(Token::Identifier(_)) => {
            if at(ts, p + 1) == Some(Token::Equals) {
                lemma_expression_flat(ts, p + 2);
                if let Ok((v, q)) = expression_at(ts, p + 2) {
                    assert(flat(ts, p, q)) by {
                        assert forall|k: int| p <= k < q implies !(#[trigger] ts[k] is Semicolon)
                            && !(ts[k] is LBrace) && !(ts[k] is RBrace) by {
                            if k >= p + 2 {
                                assert(flat(ts, p + 2, q));
                            }
                        }
                    }
                    lemma_flat_neutral(ts, p, q, d);
                }
            } else {
                lemma_expression_flat(ts, p);
                if let Ok((e, q)) = expression_at(ts, p) {
                    lemma_flat_neutral(ts, p, q, d);
                }
            }
        },
        _ => {
            lemma_expression_flat(ts, p);
            if let Ok((e, q)) = expression_at(ts, p) {
                lemma_flat_neutral(ts, p, q, d);
            }
        },
    }
}

proof fn lemma_block_neutral(ts: Seq<Token>, p: int, d: int)
    requires
        0 <= p <= ts.len(),
        1 <= d,
    ensures
        block_at(ts, p) is Ok ==> p <= block_at(ts, p)->Ok_0.1 <= ts.len() && neutral(
            ts,
            p,
            block_at(ts, p)->Ok_0.1,
            d,
        ),
    decreases ts.len() - p, 10nat,
{
    if !(0 <= p < ts.len()) || ts[p] is RBrace {
    } else {
        lemma_statement_neutral(ts, p, d);
        if let Ok((s, q)) = statement_at(ts, p) {
            if advances(ts, p, q) && at(ts, q) == Some(Token::Semicolon) {
                lemma_block_neutral(ts, q + 1, d);
                if let Ok((b, r)) = block_at(ts, q + 1) {
                    lemma_one(ts, q, d);
                    lemma_compose(ts, p, q, q + 1, d);
                    lemma_compose(ts, p, q + 1, r, d);
                }
            }
        }
    }
}

proof fn lemma_neutral_ends_without_semicolon(ts: Seq<Token>, p: int, q: int)
    requires
        0 <= p < q <= ts.len(),
        neutral(ts, p, q, 0),
    ensures
        !(ts[q - 1] is Semicolon),
{
    lemma_compose(ts, p, q - 1, q, 0);
    lemma_one(ts, q - 1, depth_after(ts, p, q - 1, 0));
}

proof fn lemma_program_count(ts: Seq<Token>, p: int)
    requires
        0 <= p <= ts.len(),
    ensures
        program_at(ts, p) is Ok ==> program_at(ts, p)->Ok_0.len() == semicolons_outside(
            ts,
            p,
            ts.len() as int,
            0,
        ) + if p < ts.len() && !(ts.last() is Semicolon) {
            1nat
        } else {
            0
        },
    decreases ts.len() - p,
{
    if p < ts.len() {
        lemma_statement_neutral(ts, p, 0);
        if let Ok((s, q)) = statement_at(ts, p) {
            if advances(ts, p, q) {
                if at(ts, q) == Some(Token::Semicolon) {
                    lemma_program_count(ts, q + 1);
                    lemma_one(ts, q, 0);
                    lemma_compose(ts, p, q, q + 1, 0);
                    lemma_compose(ts, p, q + 1, ts.len() as int, 0);
                    if q + 1 == ts.len() {
                        assert(ts.last() == ts[q]);
                    }
                } else if q == ts.len() {
                    lemma_neutral_ends_without_semicolon(ts, p, q);
                }
            }
        }
    }
}

/// When parsing succeeds, there are as many statements as semicolons
/// outside braces, plus one for a last statement that no semicolon ends.
pub proof fn lemma_statement_count(ts: Seq<Token>)
    ensures
        parse_spec(ts) is Ok ==> parse_spec(ts)->Ok_0.len() == top_level_semicolons(ts) + if ts.len()
            > 0 && !(ts.last() is Semicolon) {
            1nat
        } else {
            0
        },
{
    lemma_program_count(ts, 0);
}

pub open spec fn agrees(r: Result<(AstNode, usize), CompileError>, s: Result<(AstModel, int), CompileError>) -> bool {
    match (r, s) {
        (Ok((n, q)), Ok((m, q2))) => node_view(n) == m && q as int == q2,
        (Err(e), Err(f)) => e == f,
        _ => false,
    }
}

pub open spec fn agrees_block(
    r: Result<(Vec<AstNode>, usize), CompileError>,
    s: Result<(Seq<AstModel>, int), CompileError>,
) -> bool {
    match (r, s) {
        (Ok((v, q)), Ok((m, q2))) => nodes_view(v@) == m && q as int == q2,
        (Err(e), Err(f)) => e == f,
        _ => false,
    }
}

pub open spec fn prepend_nodes(pre: Seq<AstModel>, r: Result<(Seq<AstModel>, int), CompileError>) -> Result<
    (Seq<AstModel>, int),
    CompileError,
> {
    match r {
        Ok((b, q)) => Ok((pre + b, q)),
        Err(e) => Err(e),
    }
}

pub open spec fn prepend_program(pre: Seq<AstModel>, r: Result<Seq<AstModel>, CompileError>) -> Result<
    Seq<AstModel>,
    CompileError,
> {
    match r {
        Ok(b) => Ok(pre + b),
        Err(e) => Err(e),
    }
}

proof fn lemma_nodes_view_push(s: Seq<AstNode>, x: AstNode)
    ensures
        nodes_view(s.push(x)) == nodes_view(s).push(node_view(x)),
{
    assert(s.push(x).drop_last() =~= s);
}

fn syntax_error_at(tokens: &[Token], p: usize) -> (e: CompileError)
    ensures
        e == CompileError::SyntaxError(at(tokens@, p as int)),
{
    if p < tokens.len() {
        CompileError::SyntaxError(Some(tokens[p].duplicate()))
    } else {
        CompileError::SyntaxError(None)
    }
}

fn is_additive_token(t: &Token) -> (r: bool)
    ensures
        r == is_additive(*t),
{
    match t {
        Token::Plus | Token::Minus | Token::DoubleEquals | Token::LessThan | Token::GreaterThan
        | Token::LessThanEquals | Token::GreaterThanEquals => true,
        _ => false,
    }
}

fn is_multiplicative_token(t: &Token) -> (r: bool)
    ensures
        r == is_multiplicative(*t),
{
    match t {
        Token::Star | Token::Slash => true,
        _ => false,
    }
}

fn parse_factor(tokens: &[Token], p: usize) -> (r: Result<(AstNode, usize), CompileError>)
    requires
        p <= tokens@.len(),
    ensures
        agrees(r, factor_at(tokens@, p as int)),
        r is Ok ==> p < r->Ok_0.1 <= tokens@.len(),
    decreases tokens@.len() - p, 1nat,
{
    if p >= tokens.len() {
        return Err(CompileError::SyntaxError(None));
    }
    match &tokens[p] {
        Token::Integer(n) => Ok((AstNode::Integer(*n), p + 1)),
        Token::Identifier(name) => Ok((AstNode::Identifier(name.clone()), p + 1)),
        Token::LParen => {
            match parse_expression(tokens, p + 1) {
                Ok((e, q)) => {
                    if q < tokens.len() && matches!(tokens[q], Token::RParen) {
                        Ok((e, q + 1))
                    } else {
                        Err(syntax_error_at(tokens, q))
                    }
                },
                Err(err) => Err(err),
            }
        },
        _ => Err(syntax_error_at(tokens, p)),
    }
}

fn parse_term(tokens: &[Token], p: usize) -> (r: Result<(AstNode, usize), CompileError>)
    requires
        p <= tokens@.len(),
    ensures
        agrees(r, term_at(tokens@, p as int)),
        r is Ok ==> p < r->Ok_0.1 <= tokens@.len(),
    decreases tokens@.len() - p, 3nat,
{
    let ghost ts = tokens@;
    let (mut left, mut i) = match parse_factor(tokens, p) {
        Ok(x) => x,
        Err(e) => return Err(e),
    };
    while i < tokens.len() && is_multiplicative_token(&tokens[i])
        invariant
            ts == tokens@,
            p < i <= ts.len(),
            term_at(ts, p as int) == term_rest(ts, node_view(left), i as int),
        decreases ts.len() - i,
    {
        let op = tokens[i].duplicate();
        let (right, q) = match parse_factor(tokens, i + 1) {
            Ok(x) => x,
            Err(e) => return Err(e),
        };
        left = AstNode::BinaryOp { left: Box::new(left), op, right: Box::new(right) };
        i = q;
    }
    Ok((left, i))
}

fn parse_expression(tokens: &[Token], p: usize) -> (r: Result<(AstNode, usize), CompileError>)
    requires
        p <= tokens@.len(),
    ensures
        agrees(r, expression_at(tokens@, p as int)),
        r is Ok ==> p < r->Ok_0.1 <= tokens@.len(),
    decreases tokens@.len() - p, 5nat,
{
    let ghost ts = tokens@;
    let (mut left, mut i) = match parse_term(tokens, p) {
        Ok(x) => x,
        Err(e) => return Err(e),
    };
    while i < tokens.len() && is_additive_token(&tokens[i])
        invariant
            ts == tokens@,
            p < i <= ts.len(),
            expression_at(ts, p as int) == expression_rest(ts, node_view(left), i as int),
        decreases ts.len() - i,
    {
        let op = tokens[i].duplicate();
        let (right, q) = match parse_term(tokens, i + 1) {
            Ok(x) => x,
            Err(e) => return Err(e),
        };
        left = AstNode::BinaryOp { left: Box::new(left), op, right: Box::new(right) };
        i = q;
    }
    Ok((left, i))
}

fn parse_assignment(tokens: &[Token], p: usize) -> (r: Result<(AstNode, usize), CompileError>)
    requires
        p + 1 < tokens@.len(),
    ensures
        agrees(r, assignment_at(tokens@, p as int)),
        r is Ok ==> p < r->Ok_0.1 <= tokens@.len(),
    decreases tokens@.len() - p, 6nat,
{
    match &tokens[p] {
        Token::Identifier(name) => {
            match parse_expression(tokens, p + 2) {
                Ok((v, q)) => Ok((AstNode::Assignment { identifier: name.clone(), value: Box::new(v) }, q)),
                Err(e) => Err(e),
            }
        },
        _ => Err(syntax_error_at(tokens, p)),
    }
}

fn parse_braced(tokens: &[Token], p: usize) -> (r: Result<(Vec<AstNode>, usize), CompileError>)
    requires
        p <= tokens@.len(),
    ensures
        agrees_block(r, braced_at(tokens@, p as int)),
        r is Ok ==> p < r->Ok_0.1 <= tokens@.len(),
    decreases tokens@.len() - p, 9nat,
{
    if !(p < tokens.len() && matches!(tokens[p], Token::LBrace)) {
        return Err(syntax_error_at(tokens, p));
    }
    match parse_block(tokens, p + 1) {
        Ok((b, q)) => {
            if q < tokens.len() && matches!(tokens[q], Token::RBrace) {
                Ok((b, q + 1))
            } else {
                Err(syntax_error_at(tokens, q))
            }
        },
        Err(e) => Err(e),
    }
}

fn parse_if_else(tokens: &[Token], p: usize) -> (r: Result<(AstNode, usize), CompileError>)
    requires
        p < tokens@.len(),
    ensures
        agrees(r, if_else_at(tokens@, p as int)),
        r is Ok ==> p < r->Ok_0.1 <= tokens@.len(),
    decreases tokens@.len() - p, 7nat,
{
    let n = tokens.len();
    assert(p < n);
    match parse_expression(tokens, p + 1) {
        Ok((condition, q)) => parse_if_else_tail(tokens, condition, q),
        Err(e) => Err(e),
    }
}

fn parse_if_else_tail(tokens: &[Token], condition: AstNode, q: usize) -> (r: Result<
    (AstNode, usize),
    CompileError,
>)
    requires
        q <= tokens@.len(),
    ensures
        agrees(r, if_else_tail(tokens@, node_view(condition), q as int)),
        r is Ok ==> q < r->Ok_0.1 <= tokens@.len(),
    decreases tokens@.len() - q, 10nat,
{
    let ghost c = node_view(condition);
    let (if_branch, r) = match parse_braced(tokens, q) {
        Ok(x) => x,
        Err(e) => return Err(e),
    };
    let ghost b = nodes_view(if_branch@);
    if r < tokens.len() && matches!(tokens[r], Token::Else) {
        match parse_braced(tokens, r + 1) {
            Ok((else_nodes, s)) => {
                let node = AstNode::IfElse {
                    condition: Box::new(condition),
                    if_branch,
                    else_branch: Some(else_nodes),
                };
                assert(node_view(node) == AstModel::IfElse {
                    condition: Box::new(c),
                    if_branch: b,
                    else_branch: Some(nodes_view(else_nodes@)),
                });
                Ok((node, s))
            },
            Err(err) => Err(err),
        }
    } else {
        let node = AstNode::IfElse { condition: Box::new(condition), if_branch, else_branch: None };
        assert(node_view(node) == AstModel::IfElse {
            condition: Box::new(c),
            if_branch: b,
            else_branch: None,
        });
        Ok((node, r))
    }
}

fn parse_statement(tokens: &[Token], p: usize) -> (r: Result<(AstNode, usize), CompileError>)
    requires
        p < tokens@.len(),
    ensures
        agrees(r, statement_at(tokens@, p as int)),
        r is Ok ==> p < r->Ok_0.1 <= tokens@.len(),
    decreases tokens@.len() - p, 8nat,
{
    match &tokens[p] {
        Token::If => parse_if_else(tokens, p),
        Token::Identifier(_) => {
            if p + 1 < tokens.len() && matches!(tokens[p + 1], Token::Equals) {
                parse_assignment(tokens, p)
            } else {
                parse_expression(tokens, p)
            }
        },
        _ => parse_expression(tokens, p),
    }
}

fn parse_block(tokens: &[Token], p: usize) -> (r: Result<(Vec<AstNode>, usize), CompileError>)
    requires
        p <= tokens@.len(),
    ensures
        agrees_block(r, block_at(tokens@, p as int)),
        r is Ok ==> p <= r->Ok_0.1 <= tokens@.len(),
    decreases tokens@.len() - p, 10nat,
{
    let ghost ts = tokens@;
    let mut block: Vec<AstNode> = Vec::new();
    let mut i = p;
    assert(nodes_view(block@) + Seq::<AstModel>::empty() =~= Seq::<AstModel>::empty());
    loop
        invariant
            ts == tokens@,
            p <= i <= ts.len(),
            block_at(ts, p as int) == prepend_nodes(nodes_view(block@), block_at(ts, i as int)),
        decreases ts.len() - i,
    {
        if i >= tokens.len() || matches!(tokens[i], Token::RBrace) {
            assert(nodes_view(block@) + Seq::<AstModel>::empty() =~= nodes_view(block@));
            return Ok((block, i));
        }
        let (s, q) = match parse_statement(tokens, i) {
            Ok(x) => x,
            Err(e) => return Err(e),
        };
        let ghost pre = nodes_view(block@);
        proof {
            lemma_nodes_view_push(block@, s);
        }
        block.push(s);
        if q < tokens.len() && matches!(tokens[q], Token::Semicolon) {
            proof {
                match block_at(ts, q + 1) {
                    Ok((b, _)) => {
                        assert(pre + (seq![node_view(s)] + b) =~= pre.push(node_view(s)) + b);
                    },
                    Err(_) => {},
                }
            }
            i = q + 1;
        } else if q == tokens.len() || matches!(tokens[q], Token::RBrace) {
            assert(pre + seq![node_view(s)] =~= pre.push(node_view(s)));
            return Ok((block, q));
        } else {
            return Err(syntax_error_at(tokens, q));
        }
    }
}

/// Parses a token sequence into its top-level statements by recursive
/// descent: `*` and `/` bind tighter than `+`, `-` and the comparisons, all
/// of them to the left; `;` separates statements and may follow the last.
/// Fails with `SyntaxError` at the first token (or the end) that the
/// grammar does not allow.
pub fn parse(tokens: &[Token]) -> (r: Result<Vec<AstNode>, CompileError>)
    ensures
        match (r, parse_spec(tokens@)) {
            (Ok(v), Ok(m)) => nodes_view(v@) == m,
            (Err(e), Err(f)) => e == f,
            _ => false,
        },
{
    let ghost ts = tokens@;
    let mut ast: Vec<AstNode> = Vec::new();
    let mut i: usize = 0;
    assert(nodes_view(ast@) + Seq::<AstModel>::empty() =~= Seq::<AstModel>::empty());
    assert(forall|b: Seq<AstModel>| Seq::<AstModel>::empty() + b =~= b);
    while i < tokens.len()
        invariant
            ts == tokens@,
            i <= ts.len(),
            parse_spec(ts) == prepend_program(nodes_view(ast@), program_at(ts, i as int)),
        decreases ts.len() - i,
    {
        let (s, q) = match parse_statement(tokens, i) {
            Ok(x) => x,
            Err(e) => return Err(e),
        };
        let ghost pre = nodes_view(ast@);
        proof {
            lemma_nodes_view_push(ast@, s);
        }
        ast.push(s);
        if q < tokens.len() && matches!(tokens[q], Token::Semicolon) {
            proof {
                match program_at(ts, q + 1) {
                    Ok(b) => {
                        assert(pre + (seq![node_view(s)] + b) =~= pre.push(node_view(s)) + b);
                    },
                    Err(_) => {},
                }
            }
            i = q + 1;
        } else if q == tokens.len() {
            assert(pre + seq![node_view(s)] =~= pre.push(node_view(s)));
            assert(pre.push(node_view(s)) + Seq::<AstModel>::empty() =~= pre.push(node_view(s)));
            i = q;
        } else {
            return Err(syntax_error_at(tokens, q));
        }
    }
    assert(nodes_view(ast@) + Seq::<AstModel>::empty() =~= nodes_view(ast@));
    Ok(ast)
}

} // verus!
