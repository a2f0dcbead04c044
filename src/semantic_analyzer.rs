use vstd::prelude::*;

use crate::error::CompileError;
use crate::lexer::Token;
use crate::parser::{is_binary_operator, AstNode};

verus! {

/// The names that a declaration table holds.
pub open spec fn declared(table: Seq<String>) -> Set<Seq<char>> {
    Set::new(|x: Seq<char>| exists|i: int| 0 <= i < table.len() && #[trigger] table[i]@ == x)
}

/// Checks one node against the names declared so far, depth first and left
/// to right: the names declared after it, or the first error.
pub open spec fn check_spec(n: AstNode, d: Set<Seq<char>>) -> Result<Set<Seq<char>>, CompileError>
    decreases n, 0nat,
{
    match n {
        AstNode::Integer(_) => Ok(d),
        AstNode::Identifier(name) => if d.contains(name@) {
            Ok(d)
        } else {
            Err(CompileError::NameError(name))
        },
        AstNode::BinaryOp { left, op, right } => match check_spec(*left, d) {
            Ok(d1) => match check_spec(*right, d1) {
                Ok(d2) => if is_binary_operator(op) {
                    Ok(d2)
                } else {
                    Err(CompileError::OperatorError(op))
                },
                Err(e) => Err(e),
            },
            Err(e) => Err(e),
        },
        AstNode::Assignment { identifier, value } => match check_spec(*value, d) {
            Ok(d1) => Ok(d1.insert(identifier@)),
            Err(e) => Err(e),
        },
        AstNode::IfElse { condition, if_branch, else_branch } => match check_spec(*condition, d) {
            Ok(d1) => match check_all_spec(if_branch@, d1) {
                Ok(d2) => match else_branch {
                    Some(e) => check_all_spec(e@, d2),
                    None => Ok(d2),
                },
                Err(e) => Err(e),
            },
            Err(e) => Err(e),
        },
    }
}

/// Checks a sequence of statements in order, threading the declarations.
pub open spec fn check_all_spec(s: Seq<AstNode>, d: Set<Seq<char>>) -> Result<Set<Seq<char>>, CompileError>
    decreases s, 1nat,
{
    if s.len() == 0 {
        Ok(d)
    } else {
        match check_all_spec(s.drop_last(), d) {
            Ok(d1) => check_spec(s.last(), d1),
            Err(e) => Err(e),
        }
    }
}

proof fn lemma_check_all_prefix_err(s: Seq<AstNode>, d: Set<Seq<char>>, i: int)
    requires
        0 <= i <= s.len(),
        check_all_spec(s.subrange(0, i), d) is Err,
    ensures
        check_all_spec(s, d) == check_all_spec(s.subrange(0, i), d),
    decreases s.len() - i,
{
    if i < s.len() {
        let t = s.subrange(0, i + 1);
        assert(t.drop_last() =~= s.subrange(0, i));
        lemma_check_all_prefix_err(s, d, i + 1);
    } else {
        assert(s.subrange(0, i) =~= s);
    }
}

proof fn lemma_check_all_step(s: Seq<AstNode>, d: Set<Seq<char>>, i: int)
    requires
        0 <= i < s.len(),
    ensures
        check_all_spec(s.subrange(0, i + 1), d) == match check_all_spec(s.subrange(0, i), d) {
            Ok(d1) => check_spec(s[i], d1),
            Err(e) => Err(e),
        },
{
    assert(s.subrange(0, i + 1).drop_last() =~= s.subrange(0, i));
}

/// The reads (`false`) and assignments (`true`) of a tree, in the order in
/// which the analysis meets them: an assignment after its value.
pub open spec fn trace(n: AstNode) -> Seq<(bool, Seq<char>)>
    decreases n, 0nat,
{
    match n {
        AstNode::Integer(_) => Seq::empty(),
        AstNode::Identifier(name) => seq![(false, name@)],
        AstNode::BinaryOp { left, op, right } => trace(*left) + trace(*right),
        AstNode::Assignment { identifier, value } => trace(*value) + seq![(true, identifier@)],
        AstNode::IfElse { condition, if_branch, else_branch } => trace(*condition) + trace_all(
            if_branch@,
        ) + match else_branch {
            Some(e) => trace_all(e@),
            None => Seq::empty(),
        },
    }
}

pub open spec fn trace_all(s: Seq<AstNode>) -> Seq<(bool, Seq<char>)>
    decreases s, 1nat,
{
    if s.len() == 0 {
        Seq::empty()
    } else {
        trace_all(s.drop_last()) + trace(s.last())
    }
}

/// The names that a trace assigns.
pub open spec fn assigned(tr: Seq<(bool, Seq<char>)>) -> Set<Seq<char>> {
    Set::new(|v: Seq<char>| exists|j: int| 0 <= j < tr.len() && #[trigger] tr[j] == (true, v))
}

/// Every read of the trace names a variable of `d` or one assigned earlier
/// in the trace.
pub open spec fn covered(tr: Seq<(bool, Seq<char>)>, d: Set<Seq<char>>) -> bool {
    forall|k: int|
        0 <= k < tr.len() && !(#[trigger] tr[k]).0 ==> d.contains(tr[k].1) || exists|j: int|
            0 <= j < k && tr[j] == (true, tr[k].1)
}

proof fn lemma_covered_concat(t1: Seq<(bool, Seq<char>)>, t2: Seq<(bool, Seq<char>)>, d: Set<Seq<char>>)
    requires
        covered(t1, d),
        covered(t2, d.union(assigned(t1))),
    ensures
        covered(t1 + t2, d),
        assigned(t1 + t2) == assigned(t1).union(assigned(t2)),
{
    let t = t1 + t2;
    assert forall|k: int| 0 <= k < t.len() && !(#[trigger] t[k]).0 implies d.contains(t[k].1)
        || exists|j: int| 0 <= j < k && t[j] == (true, t[k].1) by {
        if k < t1.len() {
            assert(t[k] == t1[k]);
            if !d.contains(t[k].1) {
                let j = choose|j: int| 0 <= j < k && t1[j] == (true, t1[k].1);
                assert(t[j] == t1[j]);
            }
        } else {
            let k2 = k - t1.len();
            assert(t[k] == t2[k2]);
            assert(!t2[k2].0);
            if !d.contains(t[k].1) {
                if assigned(t1).contains(t2[k2].1) {
                    let j = choose|j: int| 0 <= j < t1.len() && #[trigger] t1[j] == (true, t2[k2].1);
                    assert(t[j] == t1[j]);
                } else {
                    let j = choose|j: int| 0 <= j < k2 && t2[j] == (true, t2[k2].1);
                    assert(t[j + t1.len()] == t2[j]);
                }
            }
        }
    }
    assert forall|v: Seq<char>| assigned(t).contains(v) implies assigned(t1).union(
        assigned(t2),
    ).contains(v) by {
        let j = choose|j: int| 0 <= j < t.len() && #[trigger] t[j] == (true, v);
        if j < t1.len() {
            assert(t1[j] == t[j]);
        } else {
            assert(t2[j - t1.len()] == t[j]);
        }
    }
    assert forall|v: Seq<char>| assigned(t1).union(assigned(t2)).contains(v) implies assigned(
        t,
    ).contains(v) by {
        if assigned(t1).contains(v) {
            let j = choose|j: int| 0 <= j < t1.len() && #[trigger] t1[j] == (true, v);
            assert(t[j] == t1[j]);
        } else {
            let j = choose|j: int| 0 <= j < t2.len() && #[trigger] t2[j] == (true, v);
            assert(t[j + t1.len()] == t2[j]);
        }
    }
    assert(assigned(t) =~= assigned(t1).union(assigned(t2)));
}

proof fn lemma_empty_trace(d: Set<Seq<char>>)
    ensures
        covered(Seq::empty(), d),
        assigned(Seq::<(bool, Seq<char>)>::empty()) == Set::<Seq<char>>::empty(),
{
    assert(assigned(Seq::<(bool, Seq<char>)>::empty()) =~= Set::<Seq<char>>::empty());
}

proof fn lemma_check_covers(n: AstNode, d: Set<Seq<char>>)
    ensures
        check_spec(n, d) is Ok ==> covered(trace(n), d) && check_spec(n, d)->Ok_0 == d.union(
            assigned(trace(n)),
        ),
    decreases n, 0nat,
{
    match n {
        AstNode::Integer(_) => {
            lemma_empty_trace(d);
            assert(d.union(Set::<Seq<char>>::empty()) =~= d);
        },
        AstNode::Identifier(name) => {
            let tr = seq![(false, name@)];
            assert(assigned(tr) =~= Set::<Seq<char>>::empty());
            assert(d.union(Set::<Seq<char>>::empty()) =~= d);
        },
        AstNode::BinaryOp { left, op, right } => {
            lemma_check_covers(*left, d);
            if let Ok(d1) = check_spec(*left, d) {
                lemma_check_covers(*right, d1);
                if let Ok(d2) = check_spec(*right, d1) {
                    lemma_covered_concat(trace(*left), trace(*right), d);
                    assert(d2 =~= d.union(assigned(trace(*left) + trace(*right))));
                }
            }
        },
        AstNode::Assignment { identifier, value } => {
            lemma_check_covers(*value, d);
            if let Ok(d1) = check_spec(*value, d) {
                let t2 = seq![(true, identifier@)];
                assert(covered(t2, d1));
                assert(assigned(t2) =~= set![identifier@]) by {
                    assert(t2[0] == (true, identifier@));
                }
                lemma_covered_concat(trace(*value), t2, d);
                assert(d1.insert(identifier@) =~= d.union(assigned(trace(*value) + t2)));
            }
        },
        AstNode::IfElse { condition, if_branch, else_branch } => {
            lemma_check_covers(*condition, d);
            if let Ok(d1) = check_spec(*condition, d) {
                lemma_check_all_covers(if_branch@, d1);
                if let Ok(d2) = check_all_spec(if_branch@, d1) {
                    let tc = trace(*condition);
                    let tb = trace_all(if_branch@);
                    lemma_covered_concat(tc, tb, d);
                    assert(d2 =~= d.union(assigned(tc + tb)));
                    match else_branch {
                        Some(e) => {
                            lemma_check_all_covers(e@, d2);
                            if let Ok(d3) = check_all_spec(e@, d2) {
                                lemma_covered_concat(tc + tb, trace_all(e@), d);
                                assert(d3 =~= d.union(assigned(tc + tb + trace_all(e@))));
                            }
                        },
                        None => {
                            lemma_empty_trace(d2);
                            lemma_covered_concat(tc + tb, Seq::empty(), d);
                            assert(tc + tb + Seq::<(bool, Seq<char>)>::empty() =~= tc + tb);
                        },
                    }
                }
            }
        },
    }
}

proof fn lemma_check_all_covers(s: Seq<AstNode>, d: Set<Seq<char>>)
    ensures
        check_all_spec(s, d) is Ok ==> covered(trace_all(s), d) && check_all_spec(s, d)->Ok_0
            == d.union(assigned(trace_all(s))),
    decreases s, 1nat,
{
    if s.len() == 0 {
        lemma_empty_trace(d);
        assert(d.union(Set::<Seq<char>>::empty()) =~= d);
    } else {
        lemma_check_all_covers(s.drop_last(), d);
        if let Ok(d1) = check_all_spec(s.drop_last(), d) {
            lemma_check_covers(s.last(), d1);
            if let Ok(d2) = check_spec(s.last(), d1) {
                lemma_covered_concat(trace_all(s.drop_last()), trace(s.last()), d);
                assert(d2 =~= d.union(assigned(trace_all(s))));
            }
        }
    }
}

/// Every binary operator node of the tree holds a binary operator token.
pub open spec fn operators_valid(n: AstNode) -> bool
    decreases n, 0nat,
{
    match n {
        AstNode::BinaryOp { left, op, right } => is_binary_operator(op) && operators_valid(*left)
            && operators_valid(*right),
        AstNode::Assignment { identifier, value } => operators_valid(*value),
        AstNode::IfElse { condition, if_branch, else_branch } => operators_valid(*condition)
            && operators_valid_all(if_branch@) && match else_branch {
            Some(e) => operators_valid_all(e@),
            None => true,
        },
        _ => true,
    }
}

pub open spec fn operators_valid_all(s: Seq<AstNode>) -> bool
    decreases s, 1nat,
{
    if s.len() == 0 {
        true
    } else {
        operators_valid_all(s.drop_last()) && operators_valid(s.last())
    }
}

proof fn lemma_check_error_kind(n: AstNode, d: Set<Seq<char>>)
    ensures
        check_spec(n, d) is Err ==> (check_spec(n, d)->Err_0 is NameError || check_spec(n, d)->Err_0 is OperatorError),
        check_spec(n, d) is Err && operators_valid(n) ==> check_spec(n, d)->Err_0 is NameError,
    decreases n, 0nat,
{
    match n {
        AstNode::BinaryOp { left, op, right } => {
            lemma_check_error_kind(*left, d);
            if let Ok(d1) = check_spec(*left, d) {
                lemma_check_error_kind(*right, d1);
            }
        },
        AstNode::Assignment { identifier, value } => {
            lemma_check_error_kind(*value, d);
        },
        AstNode::IfElse { condition, if_branch, else_branch } => {
            lemma_check_error_kind(*condition, d);
            if let Ok(d1) = check_spec(*condition, d) {
                lemma_check_all_error_kind(if_branch@, d1);
                if let Ok(d2) = check_all_spec(if_branch@, d1) {
                    if let Some(e) = else_branch {
                        lemma_check_all_error_kind(e@, d2);
                    }
                }
            }
        },
        _ => {},
    }
}

proof fn lemma_check_all_error_kind(s: Seq<AstNode>, d: Set<Seq<char>>)
    ensures
        check_all_spec(s, d) is Err ==> (check_all_spec(s, d)->Err_0 is NameError || check_all_spec(s, d)->Err_0 is OperatorError),
        check_all_spec(s, d) is Err && operators_valid_all(s) ==> check_all_spec(s, d)->Err_0 is NameError,
    decreases s, 1nat,
{
    if s.len() > 0 {
        lemma_check_all_error_kind(s.drop_last(), d);
        if let Ok(d1) = check_all_spec(s.drop_last(), d) {
            lemma_check_error_kind(s.last(), d1);
        }
    }
}

/// A program that reads a variable before any assignment to it, in the
/// order in which statements and operands are met, fails the analysis: with
/// `NameError` when every operator node is well formed, else possibly with
/// `OperatorError` at a malformed operator met first.
pub proof fn lemma_read_before_assignment_fails(ast: Seq<AstNode>, k: int, v: Seq<char>)
    requires
        0 <= k < trace_all(ast).len(),
        trace_all(ast)[k] == (false, v),
        forall|j: int| 0 <= j < k ==> trace_all(ast)[j] != (true, v),
    ensures
        check_all_spec(ast, Set::empty()) is Err,
        check_all_spec(ast, Set::empty())->Err_0 is NameError || check_all_spec(
            ast,
            Set::empty(),
        )->Err_0 is OperatorError,
        operators_valid_all(ast) ==> check_all_spec(ast, Set::empty())->Err_0 is NameError,
{
    lemma_check_all_error_kind(ast, Set::empty());
    lemma_check_all_covers(ast, Set::empty());
    if check_all_spec(ast, Set::empty()) is Ok {
        assert(!(trace_all(ast)[k]).0);
    }
}

fn is_declared(table: &Vec<String>, name: &String) -> (r: bool)
    ensures
        r == declared(table@).contains(name@),
{
    let mut i: usize = 0;
    while i < table.len()
        invariant
            i <= table@.len(),
            forall|j: int| 0 <= j < i ==> table@[j]@ != name@,
        decreases table.len() - i,
    {
        if table[i] == *name {
            assert(declared(table@).contains(name@)) by {
                assert(table@[i as int]@ == name@);
            }
            return true;
        }
        i = i + 1;
    }
    false
}

fn declare(table: &mut Vec<String>, name: &String)
    ensures
        declared(final(table)@) == declared(old(table)@).insert(name@),
{
    let ghost t0 = table@;
    table.push(name.clone());
    let ghost t1 = table@;
    assert forall|x: Seq<char>| declared(t1).contains(x) implies declared(t0).insert(name@).contains(
        x,
    ) by {
        let i = choose|i: int| 0 <= i < t1.len() && #[trigger] t1[i]@ == x;
        if i < t0.len() {
            assert(t0[i]@ == x);
        }
    }
    assert forall|x: Seq<char>| declared(t0).insert(name@).contains(x) implies declared(t1).contains(
        x,
    ) by {
        if x == name@ {
            assert(t1[t0.len() as int]@ == x);
        } else {
            let i = choose|i: int| 0 <= i < t0.len() && #[trigger] t0[i]@ == x;
            assert(t1[i]@ == x);
        }
    }
    assert(declared(t1) =~= declared(t0).insert(name@));
}

fn check_block(nodes: &Vec<AstNode>, table: &mut Vec<String>) -> (r: Result<(), CompileError>)
    ensures
        match check_all_spec(nodes@, declared(old(table)@)) {
            Ok(d) => r is Ok && declared(final(table)@) == d,
            Err(e) => r == Err::<(), CompileError>(e),
        },
    decreases nodes, 0nat,
{
    let ghost d0 = declared(table@);
    let mut i: usize = 0;
    while i < nodes.len()
        invariant
            i <= nodes@.len(),
            d0 == declared(old(table)@),
            check_all_spec(nodes@.subrange(0, i as int), d0) == Ok::<Set<Seq<char>>, CompileError>(
                declared(table@),
            ),
        decreases nodes.len() - i,
    {
        proof {
            lemma_check_all_step(nodes@, d0, i as int);
        }
        match check_node(&nodes[i], table) {
            Ok(()) => {},
            Err(e) => {
                proof {
                    lemma_check_all_prefix_err(nodes@, d0, i + 1);
                }
                return Err(e);
            },
        }
        i = i + 1;
    }
    assert(nodes@.subrange(0, i as int) =~= nodes@);
    Ok(())
}

fn check_node(node: &AstNode, table: &mut Vec<String>) -> (r: Result<(), CompileError>)
    ensures
        match check_spec(*node, declared(old(table)@)) {
            Ok(d) => r is Ok && declared(final(table)@) == d,
            Err(e) => r == Err::<(), CompileError>(e),
        },
    decreases node, 1nat,
{
    match node {
        AstNode::Integer(_) => Ok(()),
        AstNode::Identifier(name) => {
            if is_declared(table, name) {
                Ok(())
            } else {
                Err(CompileError::NameError(name.clone()))
            }
        },
        AstNode::BinaryOp { left, op, right } => {
            match check_node(left, table) {
                Ok(()) => {},
                Err(e) => return Err(e),
            }
            match check_node(right, table) {
                Ok(()) => {},
                Err(e) => return Err(e),
            }
            match op {
                Token::Plus | Token::Minus | Token::Star | Token::Slash | Token::DoubleEquals
                | Token::LessThan | Token::GreaterThan | Token::LessThanEquals
                | Token::GreaterThanEquals => Ok(()),
                _ => Err(CompileError::OperatorError(op.duplicate())),
            }
        },
        AstNode::Assignment { identifier, value } => {
            match check_node(value, table) {
                Ok(()) => {},
                Err(e) => return Err(e),
            }
            declare(table, identifier);
            Ok(())
        },
        AstNode::IfElse { condition, if_branch, else_branch } => {
            match check_node(condition, table) {
                Ok(()) => {},
                Err(e) => return Err(e),
            }
            match check_block(if_branch, table) {
                Ok(()) => {},
                Err(e) => return Err(e),
            }
            match else_branch {
                Some(else_nodes) => check_block(else_nodes, table),
                None => Ok(()),
            }
        },
    }
}

/// Checks that every variable is assigned before it is read, in one flat
/// scope: walking the statements in order, an assignment declares its name
/// (also inside either branch of an `if`, for all that follows), and reading
/// an undeclared name fails with `NameError`. A binary operator node whose
/// token is no binary operator fails with `OperatorError`. Stops at the first
/// failure.
pub fn semantic_analysis(ast: &[AstNode]) -> (r: Result<(), CompileError>)
    ensures
        match check_all_spec(ast@, Set::empty()) {
            Ok(_) => r is Ok,
            Err(e) => r == Err::<(), CompileError>(e),
        },
{
    let mut table: Vec<String> = Vec::new();
    assert(declared(table@) =~= Set::<Seq<char>>::empty());
    let ghost d0 = declared(table@);
    let mut i: usize = 0;
    while i < ast.len()
        invariant
            i <= ast@.len(),
            d0 == Set::<Seq<char>>::empty(),
            check_all_spec(ast@.subrange(0, i as int), d0) == Ok::<Set<Seq<char>>, CompileError>(
                declared(table@),
            ),
        decreases ast.len() - i,
    {
        proof {
            lemma_check_all_step(ast@, d0, i as int);
        }
        match check_node(&ast[i], &mut table) {
            Ok(()) => {},
            Err(e) => {
                proof {
                    lemma_check_all_prefix_err(ast@, d0, i + 1);
                }
                return Err(e);
            },
        }
        i = i + 1;
    }
    assert(ast@.subrange(0, i as int) =~= ast@);
    Ok(())
}

} // verus!
