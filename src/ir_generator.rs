use vstd::prelude::*;
use vstd::string::*;

use crate::error::CompileError;
use crate::lexer::Token;
use crate::parser::AstNode;

verus! {

/// One instruction of the stack machine that lowering targets.
#[derive(Debug, Clone, PartialEq, Eq)]
pub enum IRInstruction {
    LoadConstant(i32),
    LoadVariable(String),
    Add,
    Subtract,
    Multiply,
    Divide,
    Store(String),
    /// One of `==`, `<`, `>`, `<=`, `>=`.
    Compare(String),
    JumpIfFalse(usize),
    Jump(usize),
}

/// An instruction as a mathematical value.
pub ghost enum IrModel {
    LoadConstant(i32),
    LoadVariable(Seq<char>),
    Add,
    Subtract,
    Multiply,
    Divide,
    Store(Seq<char>),
    Compare(Seq<char>),
    JumpIfFalse(usize),
    Jump(usize),
}

impl View for IRInstruction {
    type V = IrModel;

    open spec fn view(&self) -> IrModel {
        match self {
            IRInstruction::LoadConstant(n) => IrModel::LoadConstant(*n),
            IRInstruction::LoadVariable(s) => IrModel::LoadVariable(s@),
            IRInstruction::Add => IrModel::Add,
            IRInstruction::Subtract => IrModel::Subtract,
            IRInstruction::Multiply => IrModel::Multiply,
            IRInstruction::Divide => IrModel::Divide,
            IRInstruction::Store(s) => IrModel::Store(s@),
            IRInstruction::Compare(s) => IrModel::Compare(s@),
            IRInstruction::JumpIfFalse(l) => IrModel::JumpIfFalse(*l),
            IRInstruction::Jump(l) => IrModel::Jump(*l),
        }
    }
}

pub open spec fn ir_view(s: Seq<IRInstruction>) -> Seq<IrModel> {
    s.map_values(|i: IRInstruction| i@)
}

/// A lowered program: the instructions, and for each label the position in
/// `instructions` that it marks (`instructions.len()` marks the end).
pub struct IrProgram {
    pub instructions: Vec<IRInstruction>,
    pub labels: Vec<usize>,
}

/// Lowering state: the instructions so far and the label table so far.
pub type LowerState = (Seq<IrModel>, Seq<usize>);

/// The instruction for a binary operator token.
pub open spec fn operator_instruction(op: Token) -> Option<IrModel> {
    match op {
        Token::Plus => Some(IrModel::Add),
        Token::Minus => Some(IrModel::Subtract),
        Token::Star => Some(IrModel::Multiply),
        Token::Slash => Some(IrModel::Divide),
        Token::DoubleEquals => Some(IrModel::Compare("=="@)),
        Token::LessThan => Some(IrModel::Compare("<"@)),
        Token::GreaterThan => Some(IrModel::Compare(">"@)),
        Token::LessThanEquals => Some(IrModel::Compare("<="@)),
        Token::GreaterThanEquals => Some(IrModel::Compare(">="@)),
        _ => None,
    }
}

/// Lowers one node after the state `st`: operands before their operator,
/// the value before its `Store`, and for an `if` the condition, a
/// `JumpIfFalse` to a fresh else label, the `if` branch, then (with an
/// `else`) a `Jump` to a fresh end label and the `else` branch. The else
/// label marks the start of the `else` branch, or the end when there is
/// none; the end label marks the end.
pub open spec fn lower(n: AstNode, st: LowerState) -> Result<LowerState, CompileError>
    decreases n, 0nat,
{
    match n {
        AstNode::Integer(v) => Ok((st.0.push(IrModel::LoadConstant(v)), st.1)),
        AstNode::Identifier(name) => Ok((st.0.push(IrModel::LoadVariable(name@)), st.1)),
        AstNode::BinaryOp { left, op, right } => match lower(*left, st) {
            Ok(s1) => match lower(*right, s1) {
                Ok(s2) => match operator_instruction(op) {
                    Some(i) => Ok((s2.0.push(i), s2.1)),
                    None => Err(CompileError::OperatorError(op)),
                },
                Err(e) => Err(e),
            },
            Err(e) => Err(e),
        },
        AstNode::Assignment { identifier, value } => match lower(*value, st) {
            Ok(s1) => Ok((s1.0.push(IrModel::Store(identifier@)), s1.1)),
            Err(e) => Err(e),
        },
        AstNode::IfElse { condition, if_branch, else_branch } => match lower(*condition, st) {
            Ok(s1) => {
                let else_label = s1.1.len() as usize;
                let end_label = (s1.1.len() + 1) as usize;
                let s2 = (s1.0.push(IrModel::JumpIfFalse(else_label)), s1.1.push(0).push(0));
                match lower_all(if_branch@, s2) {
                    Ok(s3) => match else_branch {
                        Some(e) => {
                            let code = s3.0.push(IrModel::Jump(end_label));
                            let s4 = (code, s3.1.update(else_label as int, code.len() as usize));
                            match lower_all(e@, s4) {
                                Ok(s5) => Ok((s5.0, s5.1.update(end_label as int, s5.0.len() as usize))),
                                Err(err) => Err(err),
                            }
                        },
                        None => Ok((
                            s3.0,
                            s3.1.update(else_label as int, s3.0.len() as usize).update(
                                end_label as int,
                                s3.0.len() as usize,
                            ),
                        )),
                    },
                    Err(err) => Err(err),
                }
            },
            Err(e) => Err(e),
        },
    }
}

/// Lowers a sequence of statements in order.
pub open spec fn lower_all(s: Seq<AstNode>, st: LowerState) -> Result<LowerState, CompileError>
    decreases s, 1nat,
{
    if s.len() == 0 {
        Ok(st)
    } else {
        match lower_all(s.drop_last(), st) {
            Ok(s1) => lower(s.last(), s1),
            Err(e) => Err(e),
        }
    }
}

/// The program that a statement sequence lowers to, labels counted from 0.
pub open spec fn lower_program(s: Seq<AstNode>) -> Result<LowerState, CompileError> {
    lower_all(s, (Seq::empty(), Seq::empty()))
}

pub open spec fn jump_target(i: IrModel) -> Option<usize> {
    match i {
        IrModel::JumpIfFalse(l) => Some(l),
        IrModel::Jump(l) => Some(l),
        _ => None,
    }
}

/// Every jump names a label of the table, and every label marks a position
/// of the code or its end.
pub open spec fn well_formed(st: LowerState) -> bool {
    &&& forall|k: int|
        0 <= k < st.0.len() && #[trigger] jump_target(st.0[k]) is Some ==> jump_target(
            st.0[k],
        )->Some_0 < st.1.len()
    &&& forall|l: int| 0 <= l < st.1.len() ==> #[trigger] st.1[l] <= st.0.len()
}

/// `b` continues `a`: the code of `a` is a prefix of that of `b`, and the
/// labels of `a` keep their positions.
pub open spec fn extends(a: LowerState, b: LowerState) -> bool {
    &&& a.0.len() <= b.0.len()
    &&& forall|k: int| 0 <= k < a.0.len() ==> #[trigger] b.0[k] == a.0[k]
    &&& a.1.len() <= b.1.len()
    &&& forall|l: int| 0 <= l < a.1.len() ==> #[trigger] b.1[l] == a.1[l]
}

pub open spec fn fits(st: LowerState) -> bool {
    st.0.len() <= usize::MAX && st.1.len() <= usize::MAX
}

proof fn lemma_extends_trans(a: LowerState, b: LowerState, c: LowerState)
    requires
        extends(a, b),
        extends(b, c),
    ensures
        extends(a, c),
{
}

pub open spec fn grows(a: LowerState, b: LowerState) -> bool {
    a.0.len() <= b.0.len() && a.1.len() <= b.1.len()
}

proof fn lemma_lower_well_formed(n: AstNode, st: LowerState)
    ensures
        lower(n, st) is Ok ==> grows(st, lower(n, st)->Ok_0),
        lower(n, st) is Ok && fits(lower(n, st)->Ok_0) && well_formed(st) ==> extends(
            st,
            lower(n, st)->Ok_0,
        ) && well_formed(lower(n, st)->Ok_0),
    decreases n, 0nat,
{
    match n {
        AstNode::Integer(_) => {},
        AstNode::Identifier(_) => {},
        AstNode::BinaryOp { left, op, right } => {
            lemma_lower_well_formed(*left, st);
            if let Ok(s1) = lower(*left, st) {
                lemma_lower_well_formed(*right, s1);
                if let Ok(s2) = lower(*right, s1) {
                    if lower(n, st) is Ok && fits(lower(n, st)->Ok_0) && well_formed(st) {
                        lemma_extends_trans(st, s1, s2);
                    }
                }
            }
        },
        AstNode::Assignment { identifier, value } => {
            lemma_lower_well_formed(*value, st);
        },
        AstNode::IfElse { condition, if_branch, else_branch } => {
            lemma_lower_well_formed(*condition, st);
            if let Ok(s1) = lower(*condition, st) {
                let else_label = s1.1.len() as usize;
                let end_label = (s1.1.len() + 1) as usize;
                let s2 = (s1.0.push(IrModel::JumpIfFalse(else_label)), s1.1.push(0).push(0));
                lemma_lower_all_well_formed(if_branch@, s2);
                if let Ok(s3) = lower_all(if_branch@, s2) {
                    match else_branch {
                        Some(e) => {
                            let code = s3.0.push(IrModel::Jump(end_label));
                            let s4 = (code, s3.1.update(else_label as int, code.len() as usize));
                            lemma_lower_all_well_formed(e@, s4);
                            if let Ok(s5) = lower_all(e@, s4) {
                                let s6 = (s5.0, s5.1.update(end_label as int, s5.0.len() as usize));
                                assert(s6 == lower(n, st)->Ok_0);
                                if fits(s6) && well_formed(st) {
                                    assert(extends(s1, s2));
                                    assert(well_formed(s2)) by {
                                        assert forall|k: int|
                                            0 <= k < s2.0.len() && #[trigger] jump_target(s2.0[k]) is Some implies jump_target(
                                                s2.0[k],
                                            )->Some_0 < s2.1.len() by {
                                            if k < s1.0.len() {
                                                assert(s2.0[k] == s1.0[k]);
                                            }
                                        }
                                    }
                                    lemma_extends_trans(st, s1, s2);
                                    lemma_extends_trans(st, s2, s3);
                                    assert(extends(st, s4));
                                    assert(well_formed(s4)) by {
                                        assert forall|k: int|
                                            0 <= k < s4.0.len() && #[trigger] jump_target(s4.0[k]) is Some implies jump_target(
                                                s4.0[k],
                                            )->Some_0 < s4.1.len() by {
                                            if k < s3.0.len() {
                                                assert(s4.0[k] == s3.0[k]);
                                            }
                                        }
                                    }
                                    lemma_extends_trans(st, s4, s5);
                                    assert(extends(st, s6));
                                }
                            }
                        },
                        None => {
                            let s6 = (
                                s3.0,
                                s3.1.update(else_label as int, s3.0.len() as usize).update(
                                    end_label as int,
                                    s3.0.len() as usize,
                                ),
                            );
                            assert(s6 == lower(n, st)->Ok_0);
                            if fits(s6) && well_formed(st) {
                                assert(extends(s1, s2));
                                assert(well_formed(s2)) by {
                                    assert forall|k: int|
                                        0 <= k < s2.0.len() && #[trigger] jump_target(s2.0[k]) is Some implies jump_target(
                                            s2.0[k],
                                        )->Some_0 < s2.1.len() by {
                                        if k < s1.0.len() {
                                            assert(s2.0[k] == s1.0[k]);
                                        }
                                    }
                                }
                                lemma_extends_trans(st, s1, s2);
                                lemma_extends_trans(st, s2, s3);
                                assert(extends(st, s6));
                            }
                        },
                    }
                }
            }
        },
    }
}

proof fn lemma_lower_all_well_formed(s: Seq<AstNode>, st: LowerState)
    ensures
        lower_all(s, st) is Ok ==> grows(st, lower_all(s, st)->Ok_0),
        lower_all(s, st) is Ok && fits(lower_all(s, st)->Ok_0) && well_formed(st) ==> extends(
            st,
            lower_all(s, st)->Ok_0,
        ) && well_formed(lower_all(s, st)->Ok_0),
    decreases s, 1nat,
{
    if s.len() > 0 {
        lemma_lower_all_well_formed(s.drop_last(), st);
        if let Ok(s1) = lower_all(s.drop_last(), st) {
            lemma_lower_well_formed(s.last(), s1);
            if lower_all(s, st) is Ok && fits(lower_all(s, st)->Ok_0) && well_formed(st) {
                let s2 = lower_all(s, st)->Ok_0;
                assert(fits(s1));
                lemma_extends_trans(st, s1, s2);
            }
        }
    }
}

proof fn lemma_lower_all_prefix_err(s: Seq<AstNode>, st: LowerState, i: int)
    requires
        0 <= i <= s.len(),
        lower_all(s.subrange(0, i), st) is Err,
    ensures
        lower_all(s, st) == lower_all(s.subrange(0, i), st),
    decreases s.len() - i,
{
    if i < s.len() {
        assert(s.subrange(0, i + 1).drop_last() =~= s.subrange(0, i));
        lemma_lower_all_prefix_err(s, st, i + 1);
    } else {
        assert(s.subrange(0, i) =~= s);
    }
}

proof fn lemma_lower_all_step(s: Seq<AstNode>, st: LowerState, i: int)
    requires
        0 <= i < s.len(),
    ensures
        lower_all(s.subrange(0, i + 1), st) == match lower_all(s.subrange(0, i), st) {
            Ok(s1) => lower(s[i], s1),
            Err(e) => Err(e),
        },
{
    assert(s.subrange(0, i + 1).drop_last() =~= s.subrange(0, i));
}

/// The assignment nodes of a tree.
pub open spec fn assignments_in(n: AstNode) -> nat
    decreases n, 0nat,
{
    match n {
        AstNode::Integer(_) => 0,
        AstNode::Identifier(_) => 0,
        AstNode::BinaryOp { left, op, right } => assignments_in(*left) + assignments_in(*right),
        AstNode::Assignment { identifier, value } => 1 + assignments_in(*value),
        AstNode::IfElse { condition, if_branch, else_branch } => assignments_in(*condition)
            + assignments_in_all(if_branch@) + match else_branch {
            Some(e) => assignments_in_all(e@),
            None => 0,
        },
    }
}

pub open spec fn assignments_in_all(s: Seq<AstNode>) -> nat
    decreases s, 1nat,
{
    if s.len() == 0 {
        0
    } else {
        assignments_in_all(s.drop_last()) + assignments_in(s.last())
    }
}

/// The binary operator nodes of a tree.
pub open spec fn operators_in(n: AstNode) -> nat
    decreases n, 0nat,
{
    match n {
        AstNode::Integer(_) => 0,
        AstNode::Identifier(_) => 0,
        AstNode::BinaryOp { left, op, right } => 1 + operators_in(*left) + operators_in(*right),
        AstNode::Assignment { identifier, value } => operators_in(*value),
        AstNode::IfElse { condition, if_branch, else_branch } => operators_in(*condition)
            + operators_in_all(if_branch@) + match else_branch {
            Some(e) => operators_in_all(e@),
            None => 0,
        },
    }
}

pub open spec fn operators_in_all(s: Seq<AstNode>) -> nat
    decreases s, 1nat,
{
    if s.len() == 0 {
        0
    } else {
        operators_in_all(s.drop_last()) + operators_in(s.last())
    }
}

/// A tree of literals, variables and binary operators only.
pub open spec fn is_arithmetic(n: AstNode) -> bool
    decreases n,
{
    match n {
        AstNode::Integer(_) => true,
        AstNode::Identifier(_) => true,
        AstNode::BinaryOp { left, op, right } => is_arithmetic(*left) && is_arithmetic(*right),
        _ => false,
    }
}

pub open spec fn is_store(i: IrModel) -> bool {
    i is Store
}

pub open spec fn is_operator(i: IrModel) -> bool {
    i is Add || i is Subtract || i is Multiply || i is Divide || i is Compare
}

pub open spec fn is_load(i: IrModel) -> bool {
    i is LoadConstant || i is LoadVariable
}

/// How many instructions of `code` satisfy `f`.
pub open spec fn count(code: Seq<IrModel>, f: spec_fn(IrModel) -> bool) -> nat
    decreases code.len(),
{
    if code.len() == 0 {
        0
    } else {
        count(code.drop_last(), f) + if f(code.last()) {
            1nat
        } else {
            0
        }
    }
}

proof fn lemma_count_push(code: Seq<IrModel>, x: IrModel, f: spec_fn(IrModel) -> bool)
    ensures
        count(code.push(x), f) == count(code, f) + if f(x) {
            1nat
        } else {
            0
        },
{
    assert(code.push(x).drop_last() =~= code);
}

proof fn lemma_lower_counts(n: AstNode, st: LowerState)
    ensures
        lower(n, st) is Ok ==> {
            let c = lower(n, st)->Ok_0.0;
            &&& count(c, |i: IrModel| is_store(i)) == count(st.0, |i: IrModel| is_store(i))
                + assignments_in(n)
            &&& count(c, |i: IrModel| is_operator(i)) == count(st.0, |i: IrModel| is_operator(i))
                + operators_in(n)
        },
        lower(n, st) is Ok && is_arithmetic(n) ==> {
            let c = lower(n, st)->Ok_0.0;
            &&& c.len() == st.0.len() + 2 * operators_in(n) + 1
            &&& count(c, |i: IrModel| is_load(i)) == count(st.0, |i: IrModel| is_load(i))
                + operators_in(n) + 1
        },
    decreases n, 0nat,
{
    let fs = |i: IrModel| is_store(i);
    let fo = |i: IrModel| is_operator(i);
    let fl = |i: IrModel| is_load(i);
    match n {
        AstNode::Integer(v) => {
            lemma_count_push(st.0, IrModel::LoadConstant(v), fs);
            lemma_count_push(st.0, IrModel::LoadConstant(v), fo);
            lemma_count_push(st.0, IrModel::LoadConstant(v), fl);
        },
        AstNode::Identifier(name) => {
            lemma_count_push(st.0, IrModel::LoadVariable(name@), fs);
            lemma_count_push(st.0, IrModel::LoadVariable(name@), fo);
            lemma_count_push(st.0, IrModel::LoadVariable(name@), fl);
        },
        AstNode::BinaryOp { left, op, right } => {
            lemma_lower_counts(*left, st);
            if let Ok(s1) = lower(*left, st) {
                lemma_lower_counts(*right, s1);
                if let Ok(s2) = lower(*right, s1) {
                    if let Some(i) = operator_instruction(op) {
                        lemma_count_push(s2.0, i, fs);
                        lemma_count_push(s2.0, i, fo);
                        lemma_count_push(s2.0, i, fl);
                    }
                }
            }
        },
        AstNode::Assignment { identifier, value } => {
            lemma_lower_counts(*value, st);
            if let Ok(s1) = lower(*value, st) {
                lemma_count_push(s1.0, IrModel::Store(identifier@), fs);
                lemma_count_push(s1.0, IrModel::Store(identifier@), fo);
            }
        },
        AstNode::IfElse { condition, if_branch, else_branch } => {
            lemma_lower_counts(*condition, st);
            if let Ok(s1) = lower(*condition, st) {
                let else_label = s1.1.len() as usize;
                let end_label = (s1.1.len() + 1) as usize;
                let s2 = (s1.0.push(IrModel::JumpIfFalse(else_label)), s1.1.push(0).push(0));
                lemma_count_push(s1.0, IrModel::JumpIfFalse(else_label), fs);
                lemma_count_push(s1.0, IrModel::JumpIfFalse(else_label), fo);
                lemma_lower_all_counts(if_branch@, s2);
                if let Ok(s3) = lower_all(if_branch@, s2) {
                    match else_branch {
                        Some(e) => {
                            let code = s3.0.push(IrModel::Jump(end_label));
                            lemma_count_push(s3.0, IrModel::Jump(end_label), fs);
                            lemma_count_push(s3.0, IrModel::Jump(end_label), fo);
                            let s4 = (code, s3.1.update(else_label as int, code.len() as usize));
                            lemma_lower_all_counts(e@, s4);
                        },
                        None => {},
                    }
                }
            }
        },
    }
}

proof fn lemma_lower_all_counts(s: Seq<AstNode>, st: LowerState)
    ensures
        lower_all(s, st) is Ok ==> {
            let c = lower_all(s, st)->Ok_0.0;
            &&& count(c, |i: IrModel| is_store(i)) == count(st.0, |i: IrModel| is_store(i))
                + assignments_in_all(s)
            &&& count(c, |i: IrModel| is_operator(i)) == count(st.0, |i: IrModel| is_operator(i))
                + operators_in_all(s)
        },
    decreases s, 1nat,
{
    if s.len() > 0 {
        lemma_lower_all_counts(s.drop_last(), st);
        if let Ok(s1) = lower_all(s.drop_last(), st) {
            lemma_lower_counts(s.last(), s1);
        }
    }
}

/// Lowering emits one `Store` for each assignment node and one operator
/// instruction for each binary operator node.
pub proof fn lemma_lowering_counts(ast: Seq<AstNode>)
    ensures
        lower_program(ast) is Ok ==> {
            let c = lower_program(ast)->Ok_0.0;
            &&& count(c, |i: IrModel| is_store(i)) == assignments_in_all(ast)
            &&& count(c, |i: IrModel| is_operator(i)) == operators_in_all(ast)
        },
{
    lemma_lower_all_counts(ast, (Seq::empty(), Seq::empty()));
}

/// An arithmetic tree with `k` binary operators lowers to `k + 1` loads and
/// `k` operator instructions: `2k + 1` instructions in all.
pub proof fn lemma_arithmetic_size(n: AstNode)
    requires
        is_arithmetic(n),
    ensures
        lower(n, (Seq::empty(), Seq::empty())) is Ok ==> {
            let c = lower(n, (Seq::empty(), Seq::empty()))->Ok_0.0;
            &&& c.len() == 2 * operators_in(n) + 1
            &&& count(c, |i: IrModel| is_load(i)) == operators_in(n) + 1
            &&& count(c, |i: IrModel| is_operator(i)) == operators_in(n)
        },
{
    lemma_lower_counts(n, (Seq::empty(), Seq::empty()));
}

/// The instructions and labels left behind agree with `expected`, or the
/// failure is the expected one.
pub open spec fn lowered_as(
    r: Result<(), CompileError>,
    code: Seq<IRInstruction>,
    labels: Seq<usize>,
    expected: Result<LowerState, CompileError>,
) -> bool {
    match expected {
        Ok(st) => r is Ok && ir_view(code) == st.0 && labels == st.1,
        Err(e) => r == Err::<(), CompileError>(e),
    }
}

fn push_instruction(code: &mut Vec<IRInstruction>, i: IRInstruction)
    ensures
        ir_view(final(code)@) == ir_view(old(code)@).push(i@),
{
    code.push(i);
    assert(ir_view(code@) =~= ir_view(old(code)@).push(i@));
}

fn operator_to_instruction(op: &Token) -> (r: Option<IRInstruction>)
    ensures
        match operator_instruction(*op) {
            Some(i) => r is Some && r->Some_0@ == i,
            None => r is None,
        },
{
    match op {
        Token::Plus => Some(IRInstruction::Add),
        Token::Minus => Some(IRInstruction::Subtract),
        Token::Star => Some(IRInstruction::Multiply),
        Token::Slash => Some(IRInstruction::Divide),
        Token::DoubleEquals => Some(IRInstruction::Compare(String::from_str("=="))),
        Token::LessThan => Some(IRInstruction::Compare(String::from_str("<"))),
        Token::GreaterThan => Some(IRInstruction::Compare(String::from_str(">"))),
        Token::LessThanEquals => Some(IRInstruction::Compare(String::from_str("<="))),
        Token::GreaterThanEquals => Some(IRInstruction::Compare(String::from_str(">="))),
        _ => None,
    }
}

fn generate_ir_block(nodes: &Vec<AstNode>, code: &mut Vec<IRInstruction>, labels: &mut Vec<usize>) -> (r:
    Result<(), CompileError>)
    requires
        well_formed((ir_view(old(code)@), old(labels)@)),
    ensures
        lowered_as(r, final(code)@, final(labels)@, lower_all(nodes@, (ir_view(old(code)@), old(labels)@))),
        r is Ok ==> well_formed((ir_view(final(code)@), final(labels)@)) && extends(
            (ir_view(old(code)@), old(labels)@),
            (ir_view(final(code)@), final(labels)@),
        ),
    decreases nodes, 0nat,
{
    let ghost st0 = (ir_view(code@), labels@);
    let mut i: usize = 0;
    while i < nodes.len()
        invariant
            i <= nodes@.len(),
            st0 == (ir_view(old(code)@), old(labels)@),
            lower_all(nodes@.subrange(0, i as int), st0) == Ok::<LowerState, CompileError>(
                (ir_view(code@), labels@),
            ),
            well_formed((ir_view(code@), labels@)),
            extends(st0, (ir_view(code@), labels@)),
        decreases nodes.len() - i,
    {
        proof {
            lemma_lower_all_step(nodes@, st0, i as int);
        }
        let ghost before = (ir_view(code@), labels@);
        match generate_ir_node(&nodes[i], code, labels) {
            Ok(()) => {
                proof {
                    lemma_extends_trans(st0, before, (ir_view(code@), labels@));
                }
            },
            Err(e) => {
                proof {
                    lemma_lower_all_prefix_err(nodes@, st0, i + 1);
                }
                return Err(e);
            },
        }
        i = i + 1;
    }
    assert(nodes@.subrange(0, i as int) =~= nodes@);
    Ok(())
}

fn generate_ir_node(node: &AstNode, code: &mut Vec<IRInstruction>, labels: &mut Vec<usize>) -> (r:
    Result<(), CompileError>)
    requires
        well_formed((ir_view(old(code)@), old(labels)@)),
    ensures
        lowered_as(r, final(code)@, final(labels)@, lower(*node, (ir_view(old(code)@), old(labels)@))),
        r is Ok ==> well_formed((ir_view(final(code)@), final(labels)@)) && extends(
            (ir_view(old(code)@), old(labels)@),
            (ir_view(final(code)@), final(labels)@),
        ),
    decreases node, 1nat,
{
    match node {
        AstNode::Integer(n) => {
            push_instruction(code, IRInstruction::LoadConstant(*n));
            Ok(())
        },
        AstNode::Identifier(name) => {
            push_instruction(code, IRInstruction::LoadVariable(name.clone()));
            Ok(())
        },
        AstNode::BinaryOp { left, op, right } => {
            match generate_ir_node(left, code, labels) {
                Ok(()) => {},
                Err(e) => return Err(e),
            }
            match generate_ir_node(right, code, labels) {
                Ok(()) => {},
                Err(e) => return Err(e),
            }
            match operator_to_instruction(op) {
                Some(i) => {
                    push_instruction(code, i);
                    Ok(())
                },
                None => Err(CompileError::OperatorError(op.duplicate())),
            }
        },
        AstNode::Assignment { identifier, value } => {
            match generate_ir_node(value, code, labels) {
                Ok(()) => {},
                Err(e) => return Err(e),
            }
            push_instruction(code, IRInstruction::Store(identifier.clone()));
            Ok(())
        },
        AstNode::IfElse { condition, if_branch, else_branch } => {
            match generate_ir_node(condition, code, labels) {
                Ok(()) => {},
                Err(e) => return Err(e),
            }
            labels.push(0);
            let else_label = labels.len() - 1;
            labels.push(0);
            let end_label = labels.len() - 1;
            push_instruction(code, IRInstruction::JumpIfFalse(else_label));
            match generate_ir_block(if_branch, code, labels) {
                Ok(()) => {},
                Err(e) => return Err(e),
            }
            match else_branch {
                Some(else_nodes) => {
                    push_instruction(code, IRInstruction::Jump(end_label));
                    labels[else_label] = code.len();
                    match generate_ir_block(else_nodes, code, labels) {
                        Ok(()) => {},
                        Err(e) => return Err(e),
                    }
                    labels[end_label] = code.len();
                },
                None => {
                    labels[else_label] = code.len();
                    labels[end_label] = code.len();
                },
            }
            Ok(())
        },
    }
}

/// Lowers the statements in order to one instruction sequence, with two
/// fresh labels for each `if`, numbered from 0 in the order the `if`s are
/// met. Fails with `OperatorError` on a binary operator node whose token is
/// no binary operator.
pub fn generate_ir(ast: &[AstNode]) -> (r: Result<IrProgram, CompileError>)
    ensures
        match lower_program(ast@) {
            Ok(st) => r is Ok && ir_view(r->Ok_0.instructions@) == st.0 && r->Ok_0.labels@ == st.1,
            Err(e) => r is Err && r->Err_0 == e,
        },
        r is Ok ==> well_formed((ir_view(r->Ok_0.instructions@), r->Ok_0.labels@)),
{
    let mut code: Vec<IRInstruction> = Vec::new();
    let mut labels: Vec<usize> = Vec::new();
    let ghost st0: LowerState = (Seq::empty(), Seq::empty());
    assert(ir_view(code@) =~= Seq::<IrModel>::empty());
    let mut i: usize = 0;
    while i < ast.len()
        invariant
            i <= ast@.len(),
            st0 == (Seq::<IrModel>::empty(), Seq::<usize>::empty()),
            lower_all(ast@.subrange(0, i as int), st0) == Ok::<LowerState, CompileError>(
                (ir_view(code@), labels@),
            ),
            well_formed((ir_view(code@), labels@)),
        decreases ast.len() - i,
    {
        proof {
            lemma_lower_all_step(ast@, st0, i as int);
        }
        match generate_ir_node(&ast[i], &mut code, &mut labels) {
            Ok(()) => {},
            Err(e) => {
                proof {
                    lemma_lower_all_prefix_err(ast@, st0, i + 1);
                }
                return Err(e);
            },
        }
        i = i + 1;
    }
    assert(ast@.subrange(0, i as int) =~= ast@);
    Ok(IrProgram { instructions: code, labels })
}

} // verus!
