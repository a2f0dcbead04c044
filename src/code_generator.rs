use vstd::prelude::*;
use vstd::string::*;

use crate::error::{CodegenFault, CompileError};
use crate::ir_generator::{IRInstruction, IrProgram};
use crate::lexer::spells;

verus! {

/// The assembly conventions that code generation can target.
#[derive(Debug, Clone, Copy)]
pub enum Dialect {
    /// 64-bit, AT&T syntax (GNU as), frame pointer `%rbp`, 8-byte slots.
    X86_64,
    /// 32-bit, Intel syntax (NASM), frame pointer `ebp`, 4-byte slots.
    X86,
}

/// Bytes of the local frame.
pub const FRAME_BYTES: u64 = 256;

pub open spec fn word_bytes(d: Dialect) -> nat {
    match d {
        Dialect::X86_64 => 8,
        Dialect::X86 => 4,
    }
}

/// How many variables the frame has room for.
pub open spec fn max_variables(d: Dialect) -> nat {
    FRAME_BYTES as nat / word_bytes(d)
}

pub open spec fn digit_text(n: nat) -> Seq<char> {
    if n == 0 {
        "0"@
    } else if n == 1 {
        "1"@
    } else if n == 2 {
        "2"@
    } else if n == 3 {
        "3"@
    } else if n == 4 {
        "4"@
    } else if n == 5 {
        "5"@
    } else if n == 6 {
        "6"@
    } else if n == 7 {
        "7"@
    } else if n == 8 {
        "8"@
    } else {
        "9"@
    }
}

/// The decimal digits of `n`.
pub open spec fn decimal(n: nat) -> Seq<char>
    decreases n,
{
    if n < 10 {
        digit_text(n)
    } else {
        decimal(n / 10) + digit_text(n % 10)
    }
}

/// `n` in decimal, with a leading `-` when negative.
pub open spec fn signed_decimal(n: int) -> Seq<char> {
    if n < 0 {
        "-"@ + decimal((-n) as nat)
    } else {
        decimal(n as nat)
    }
}

/// The variable that an instruction reads or writes.
pub open spec fn variable_of(i: IRInstruction) -> Option<Seq<char>> {
    match i {
        IRInstruction::LoadVariable(v) => Some(v@),
        IRInstruction::Store(v) => Some(v@),
        _ => None,
    }
}

/// The distinct variables of `code`, in the order in which each is first met.
pub open spec fn variable_order(code: Seq<IRInstruction>) -> Seq<Seq<char>>
    decreases code.len(),
{
    if code.len() == 0 {
        Seq::empty()
    } else {
        let prev = variable_order(code.drop_last());
        match variable_of(code.last()) {
            Some(v) => if prev.contains(v) {
                prev
            } else {
                prev.push(v)
            },
            None => prev,
        }
    }
}

/// The first index of `v` in `names` from `i` on, or `names.len()`.
pub open spec fn first_index(names: Seq<Seq<char>>, v: Seq<char>, i: int) -> int
    decreases names.len() - i,
{
    if i < 0 || i >= names.len() {
        names.len() as int
    } else if names[i] == v {
        i
    } else {
        first_index(names, v, i + 1)
    }
}

/// The slot of variable `v`: its place in the order of first use.
pub open spec fn slot_of(names: Seq<Seq<char>>, v: Seq<char>) -> int {
    first_index(names, v, 0)
}

/// The frame offset, in bytes below the frame pointer, of slot `k`.
pub open spec fn slot_offset(k: int, d: Dialect) -> int {
    (k + 1) * word_bytes(d)
}

pub open spec fn prologue(d: Dialect) -> Seq<char> {
    match d {
        Dialect::X86_64 => "    .data\n"@ + "    .bss\n"@ + "    .lcomm stack_pointer, 8\n\n"@
            + "    .text\n"@ + "    .globl main\n\n"@ + "main:\n"@ + "    pushq %rbp\n"@
            + "    movq %rsp, %rbp\n"@ + "    subq $256, %rsp\n\n"@,
        Dialect::X86 => "section .bss\n"@ + "    scratch resd 1\n\n"@ + "section .text\n"@
            + "global main\n\n"@ + "main:\n"@ + "    push ebp\n"@ + "    mov ebp, esp\n"@
            + "    sub esp, 256\n\n"@,
    }
}

pub open spec fn epilogue(d: Dialect) -> Seq<char> {
    match d {
        Dialect::X86_64 => "\n    movq $0, %rax\n"@ + "    leave\n"@ + "    ret\n"@,
        Dialect::X86 => "\n    mov eax, 0\n"@ + "    leave\n"@ + "    ret\n"@,
    }
}

/// The assembly name of label `l`.
pub open spec fn label_name(l: nat, d: Dialect) -> Seq<char> {
    match d {
        Dialect::X86_64 => ".L"@ + decimal(l),
        Dialect::X86 => "L"@ + decimal(l),
    }
}

/// The markers of the labels among the first `m` of the table that mark
/// position `pos`, in label order.
pub open spec fn markers(labels: Seq<usize>, pos: int, d: Dialect, m: int) -> Seq<char>
    decreases m,
{
    if m <= 0 {
        Seq::empty()
    } else {
        markers(labels, pos, d, m - 1) + if labels[m - 1] == pos {
            label_name((m - 1) as nat, d) + ":\n"@
        } else {
            Seq::empty()
        }
    }
}

pub open spec fn markers_at(labels: Seq<usize>, pos: int, d: Dialect) -> Seq<char> {
    markers(labels, pos, d, labels.len() as int)
}

/// Pops two operands, applies `op_line`, pushes the result.
pub open spec fn binary_text(op_line: Seq<char>, d: Dialect) -> Seq<char> {
    match d {
        Dialect::X86_64 => "    popq %rbx\n"@ + "    popq %rax\n"@ + op_line + "    pushq %rax\n"@,
        Dialect::X86 => "    pop ebx\n"@ + "    pop eax\n"@ + op_line + "    push eax\n"@,
    }
}

/// The set-flag line for a comparison operator.
pub open spec fn compare_line(op: Seq<char>, d: Dialect) -> Option<Seq<char>> {
    match d {
        Dialect::X86_64 => if op == "=="@ {
            Some("    sete %al\n"@)
        } else if op == "<"@ {
            Some("    setl %al\n"@)
        } else if op == ">"@ {
            Some("    setg %al\n"@)
        } else if op == "<="@ {
            Some("    setle %al\n"@)
        } else if op == ">="@ {
            Some("    setge %al\n"@)
        } else {
            None
        },
        Dialect::X86 => if op == "=="@ {
            Some("    sete al\n"@)
        } else if op == "<"@ {
            Some("    setl al\n"@)
        } else if op == ">"@ {
            Some("    setg al\n"@)
        } else if op == "<="@ {
            Some("    setle al\n"@)
        } else if op == ">="@ {
            Some("    setge al\n"@)
        } else {
            None
        },
    }
}

/// The frame slot operand of variable `v`.
pub open spec fn slot_operand(names: Seq<Seq<char>>, v: Seq<char>, d: Dialect) -> Seq<char> {
    let off = decimal(slot_offset(slot_of(names, v), d) as nat);
    match d {
        Dialect::X86_64 => "-"@ + off + "(%rbp)"@,
        Dialect::X86 => "[ebp-"@ + off + "]"@,
    }
}

/// The text of one instruction, or why it cannot be emitted.
pub open spec fn instruction_text(i: IRInstruction, names: Seq<Seq<char>>, n_labels: nat, d: Dialect) -> Result<
    Seq<char>,
    CompileError,
> {
    let x64 = d is X86_64;
    match i {
        IRInstruction::LoadConstant(n) => Ok(
            if x64 {
                "    movq $"@ + signed_decimal(n as int) + ", %rax\n"@ + "    pushq %rax\n"@
            } else {
                "    mov eax, "@ + signed_decimal(n as int) + "\n"@ + "    push eax\n"@
            },
        ),
        IRInstruction::LoadVariable(v) => Ok(
            if x64 {
                "    movq "@ + slot_operand(names, v@, d) + ", %rax\n"@ + "    pushq %rax\n"@
            } else {
                "    mov eax, "@ + slot_operand(names, v@, d) + "\n"@ + "    push eax\n"@
            },
        ),
        IRInstruction::Add => Ok(
            binary_text(if x64 { "    addq %rbx, %rax\n"@ } else { "    add eax, ebx\n"@ }, d),
        ),
        IRInstruction::Subtract => Ok(
            binary_text(if x64 { "    subq %rbx, %rax\n"@ } else { "    sub eax, ebx\n"@ }, d),
        ),
        IRInstruction::Multiply => Ok(
            binary_text(if x64 { "    imulq %rbx, %rax\n"@ } else { "    imul eax, ebx\n"@ }, d),
        ),
        IRInstruction::Divide => Ok(
            binary_text(
                if x64 {
                    "    cqo\n"@ + "    idivq %rbx\n"@
                } else {
                    "    cdq\n"@ + "    idiv ebx\n"@
                },
                d,
            ),
        ),
        IRInstruction::Store(v) => Ok(
            if x64 {
                "    popq %rax\n"@ + "    movq %rax, "@ + slot_operand(names, v@, d) + "\n"@
            } else {
                "    pop eax\n"@ + "    mov "@ + slot_operand(names, v@, d) + ", eax\n"@
            },
        ),
        IRInstruction::Compare(op) => match compare_line(op@, d) {
            Some(line) => Ok(
                binary_text(
                    if x64 {
                        "    cmpq %rbx, %rax\n"@ + line + "    movzbq %al, %rax\n"@
                    } else {
                        "    cmp eax, ebx\n"@ + line + "    movzx eax, al\n"@
                    },
                    d,
                ),
            ),
            None => Err(CompileError::CodegenError(CodegenFault::UnknownComparison(op))),
        },
        IRInstruction::JumpIfFalse(l) => if l >= n_labels {
            Err(CompileError::CodegenError(CodegenFault::UndefinedLabel(l)))
        } else {
            Ok(
                if x64 {
                    "    popq %rax\n"@ + "    testq %rax, %rax\n"@ + "    je "@ + label_name(
                        l as nat,
                        d,
                    ) + "\n"@
                } else {
                    "    pop eax\n"@ + "    test eax, eax\n"@ + "    je "@ + label_name(l as nat, d)
                        + "\n"@
                },
            )
        },
        IRInstruction::Jump(l) => if l >= n_labels {
            Err(CompileError::CodegenError(CodegenFault::UndefinedLabel(l)))
        } else {
            Ok("    jmp "@ + label_name(l as nat, d) + "\n"@)
        },
    }
}

/// The body for the first `k` instructions: before each, the markers of the
/// labels that mark its position, then its text; or the first failure.
pub open spec fn body(code: Seq<IRInstruction>, labels: Seq<usize>, names: Seq<Seq<char>>, d: Dialect, k: int) -> Result<
    Seq<char>,
    CompileError,
>
    decreases k,
{
    if k <= 0 {
        Ok(Seq::empty())
    } else {
        match body(code, labels, names, d, k - 1) {
            Ok(b) => match instruction_text(code[k - 1], names, labels.len(), d) {
                Ok(t) => Ok(b + markers_at(labels, k - 1, d) + t),
                Err(e) => Err(e),
            },
            Err(e) => Err(e),
        }
    }
}

/// The first label from `l` on whose position lies past `len`.
pub open spec fn misplaced_label(labels: Seq<usize>, len: int, l: int) -> Option<usize>
    decreases labels.len() - l,
{
    if l < 0 || l >= labels.len() {
        None
    } else if labels[l] > len {
        Some(l as usize)
    } else {
        misplaced_label(labels, len, l + 1)
    }
}

/// The assembly text of a program, or the first failure: too many variables
/// for the frame; else the first label placed past the end; else the first
/// instruction that cannot be emitted.
pub open spec fn codegen_spec(code: Seq<IRInstruction>, labels: Seq<usize>, d: Dialect) -> Result<
    Seq<char>,
    CompileError,
> {
    let names = variable_order(code);
    if names.len() > max_variables(d) {
        Err(CompileError::CodegenError(CodegenFault::TooManyVariables))
    } else {
        match misplaced_label(labels, code.len() as int, 0) {
            Some(l) => Err(CompileError::CodegenError(CodegenFault::UndefinedLabel(l))),
            None => match body(code, labels, names, d, code.len() as int) {
                Ok(b) => Ok(prologue(d) + b + markers_at(labels, code.len() as int, d) + epilogue(d)),
                Err(e) => Err(e),
            },
        }
    }
}

pub open spec fn names_view(ns: Seq<String>) -> Seq<Seq<char>> {
    ns.map_values(|s: String| s@)
}

proof fn lemma_first_index_found(names: Seq<Seq<char>>, v: Seq<char>, i: int)
    requires
        0 <= i,
        exists|j: int| i <= j < names.len() && names[j] == v,
    ensures
        i <= first_index(names, v, i) < names.len(),
        names[first_index(names, v, i)] == v,
    decreases names.len() - i,
{
    if names[i] != v {
        lemma_first_index_found(names, v, i + 1);
    }
}

proof fn lemma_first_index_missing(names: Seq<Seq<char>>, v: Seq<char>, i: int)
    requires
        0 <= i,
        !names.contains(v),
    ensures
        first_index(names, v, i) == names.len(),
    decreases names.len() - i,
{
    if i < names.len() {
        assert(names[i] != v);
        lemma_first_index_missing(names, v, i + 1);
    }
}

/// Every variable of the code has its place in the order of first use.
proof fn lemma_variables_ordered(code: Seq<IRInstruction>, k: int)
    requires
        0 <= k < code.len(),
        variable_of(code[k]) is Some,
    ensures
        variable_order(code).contains(variable_of(code[k])->Some_0),
    decreases code.len(),
{
    let prev = variable_order(code.drop_last());
    if k < code.len() - 1 {
        assert(code.drop_last()[k] == code[k]);
        lemma_variables_ordered(code.drop_last(), k);
        let v = variable_of(code[k])->Some_0;
        let j = choose|j: int| 0 <= j < prev.len() && prev[j] == v;
        match variable_of(code.last()) {
            Some(w) => if !prev.contains(w) {
                assert(prev.push(w)[j] == v);
            },
            None => {},
        }
    } else {
        let v = variable_of(code[k])->Some_0;
        if !prev.contains(v) {
            assert(prev.push(v)[prev.len() as int] == v);
        }
    }
}

proof fn lemma_variable_order_distinct(code: Seq<IRInstruction>)
    ensures
        forall|a: int, b: int|
            0 <= a < b < variable_order(code).len() ==> variable_order(code)[a]
                != variable_order(code)[b],
    decreases code.len(),
{
    if code.len() > 0 {
        let prev = variable_order(code.drop_last());
        lemma_variable_order_distinct(code.drop_last());
        match variable_of(code.last()) {
            Some(w) => if !prev.contains(w) {
                let s = prev.push(w);
                assert forall|a: int, b: int| 0 <= a < b < s.len() implies s[a] != s[b] by {
                    if b == prev.len() {
                        assert(s[a] == prev[a]);
                    } else {
                        assert(s[a] == prev[a] && s[b] == prev[b]);
                    }
                }
            },
            None => {},
        }
    }
}

/// Two different variables of one program never share a frame slot.
pub proof fn lemma_slots_distinct(code: Seq<IRInstruction>, v: Seq<char>, w: Seq<char>)
    requires
        variable_order(code).contains(v),
        variable_order(code).contains(w),
        v != w,
    ensures
        slot_of(variable_order(code), v) != slot_of(variable_order(code), w),
        0 <= slot_of(variable_order(code), v) < variable_order(code).len(),
        0 <= slot_of(variable_order(code), w) < variable_order(code).len(),
{
    let names = variable_order(code);
    lemma_first_index_found(names, v, 0);
    lemma_first_index_found(names, w, 0);
}

proof fn lemma_body_err(code: Seq<IRInstruction>, labels: Seq<usize>, names: Seq<Seq<char>>, d: Dialect, k: int, m: int)
    requires
        0 <= k <= m,
        body(code, labels, names, d, k) is Err,
    ensures
        body(code, labels, names, d, m) == body(code, labels, names, d, k),
    decreases m - k,
{
    if k < m {
        lemma_body_err(code, labels, names, d, k, m - 1);
    }
}

fn append_digit(out: &mut String, n: u64)
    requires
        n < 10,
    ensures
        final(out)@ == old(out)@ + digit_text(n as nat),
{
    if n == 0 {
        out.append("0");
    } else if n == 1 {
        out.append("1");
    } else if n == 2 {
        out.append("2");
    } else if n == 3 {
        out.append("3");
    } else if n == 4 {
        out.append("4");
    } else if n == 5 {
        out.append("5");
    } else if n == 6 {
        out.append("6");
    } else if n == 7 {
        out.append("7");
    } else if n == 8 {
        out.append("8");
    } else {
        out.append("9");
    }
}

fn append_decimal(out: &mut String, n: u64)
    ensures
        final(out)@ == old(out)@ + decimal(n as nat),
    decreases n,
{
    let ghost start = out@;
    if n >= 10 {
        append_decimal(out, n / 10);
    }
    append_digit(out, n % 10);
    proof {
        if n >= 10 {
            assert(out@ =~= start + (decimal((n / 10) as nat) + digit_text((n % 10) as nat)));
        } else {
            assert(out@ =~= start + decimal(n as nat));
        }
    }
}

fn append_signed(out: &mut String, n: i32)
    ensures
        final(out)@ == old(out)@ + signed_decimal(n as int),
{
    let ghost start = out@;
    if n < 0 {
        out.append("-");
        let m: i64 = -(n as i64);
        append_decimal(out, m as u64);
        assert(out@ =~= start + ("-"@ + decimal((-n) as nat)));
    } else {
        append_decimal(out, n as u64);
    }
}

/// The first index of `v` in `names`, or `names.len()`.
fn position(names: &Vec<String>, v: &String) -> (r: usize)
    ensures
        r == first_index(names_view(names@), v@, 0),
{
    let ghost ns = names_view(names@);
    let mut j: usize = 0;
    while j < names.len()
        invariant
            ns == names_view(names@),
            j <= names@.len(),
            first_index(ns, v@, 0) == first_index(ns, v@, j as int),
        decreases names.len() - j,
    {
        if names[j] == *v {
            return j;
        }
        j = j + 1;
    }
    j
}

/// The variables of the code in the order of first use.
fn collect_variables(code: &Vec<IRInstruction>) -> (names: Vec<String>)
    ensures
        names_view(names@) == variable_order(code@),
{
    let mut names: Vec<String> = Vec::new();
    let mut k: usize = 0;
    assert(names_view(names@) =~= variable_order(code@.subrange(0, 0)));
    while k < code.len()
        invariant
            k <= code@.len(),
            names_view(names@) == variable_order(code@.subrange(0, k as int)),
        decreases code.len() - k,
    {
        let ghost prev = names_view(names@);
        assert(code@.subrange(0, k + 1).drop_last() =~= code@.subrange(0, k as int));
        let v = match &code[k] {
            IRInstruction::LoadVariable(v) => Some(v),
            IRInstruction::Store(v) => Some(v),
            _ => None,
        };
        match v {
            Some(v) => {
                let j = position(&names, v);
                if j == names.len() {
                    proof {
                        if prev.contains(v@) {
                            let i = choose|i: int| 0 <= i < prev.len() && prev[i] == v@;
                            lemma_first_index_found(prev, v@, 0);
                        }
                    }
                    names.push(v.clone());
                    assert(names_view(names@) =~= prev.push(v@));
                } else {
                    proof {
                        if !prev.contains(v@) {
                            lemma_first_index_missing(prev, v@, 0);
                        }
                    }
                }
            },
            None => {},
        }
        k = k + 1;
    }
    assert(code@.subrange(0, k as int) =~= code@);
    names
}

fn emit_markers(out: &mut String, labels: &Vec<usize>, pos: usize, d: Dialect)
    ensures
        final(out)@ == old(out)@ + markers_at(labels@, pos as int, d),
{
    let ghost start = out@;
    let mut l: usize = 0;
    while l < labels.len()
        invariant
            l <= labels@.len(),
            out@ == start + markers(labels@, pos as int, d, l as int),
        decreases labels.len() - l,
    {
        let ghost before = out@;
        if labels[l] == pos {
            match d {
                Dialect::X86_64 => out.append(".L"),
                Dialect::X86 => out.append("L"),
            }
            append_decimal(out, l as u64);
            out.append(":\n");
            assert(out@ =~= start + (markers(labels@, pos as int, d, l as int) + (label_name(
                l as nat,
                d,
            ) + ":\n"@)));
        } else {
            assert(out@ =~= start + (markers(labels@, pos as int, d, l as int)
                + Seq::<char>::empty()));
        }
        l = l + 1;
    }
}

fn emit_binary(out: &mut String, op_line: &str, d: Dialect)
    ensures
        final(out)@ == old(out)@ + binary_text(op_line@, d),
{
    let ghost start = out@;
    match d {
        Dialect::X86_64 => {
            out.append("    popq %rbx\n");
            out.append("    popq %rax\n");
            out.append(op_line);
            out.append("    pushq %rax\n");
        },
        Dialect::X86 => {
            out.append("    pop ebx\n");
            out.append("    pop eax\n");
            out.append(op_line);
            out.append("    push eax\n");
        },
    }
    assert(out@ =~= start + binary_text(op_line@, d));
}

fn emit_slot(out: &mut String, names: &Vec<String>, v: &String, d: Dialect)
    requires
        names_view(names@).contains(v@),
        names@.len() <= max_variables(d),
    ensures
        final(out)@ == old(out)@ + slot_operand(names_view(names@), v@, d),
{
    let ghost start = out@;
    proof {
        let ns = names_view(names@);
        let j = choose|j: int| 0 <= j < ns.len() && ns[j] == v@;
        lemma_first_index_found(ns, v@, 0);
    }
    let k = position(names, v) as u64;
    let word: u64 = match d {
        Dialect::X86_64 => 8,
        Dialect::X86 => 4,
    };
    let off = (k + 1) * word;
    match d {
        Dialect::X86_64 => {
            out.append("-");
            append_decimal(out, off);
            out.append("(%rbp)");
        },
        Dialect::X86 => {
            out.append("[ebp-");
            append_decimal(out, off);
            out.append("]");
        },
    }
    assert(out@ =~= start + slot_operand(names_view(names@), v@, d));
}

fn emit_label(out: &mut String, l: usize, d: Dialect)
    ensures
        final(out)@ == old(out)@ + label_name(l as nat, d),
{
    let ghost start = out@;
    match d {
        Dialect::X86_64 => out.append(".L"),
        Dialect::X86 => out.append("L"),
    }
    append_decimal(out, l as u64);
    assert(out@ =~= start + label_name(l as nat, d));
}

fn compare_line_exec(op: &String, d: Dialect) -> (r: Option<&'static str>)
    ensures
        match compare_line(op@, d) {
            Some(line) => r is Some && r->Some_0@ == line,
            None => r is None,
        },
{
    let s = op.as_str();
    let x64 = match d {
        Dialect::X86_64 => true,
        Dialect::X86 => false,
    };
    if spells(s, "==") {
        Some(if x64 { "    sete %al\n" } else { "    sete al\n" })
    } else if spells(s, "<") {
        Some(if x64 { "    setl %al\n" } else { "    setl al\n" })
    } else if spells(s, ">") {
        Some(if x64 { "    setg %al\n" } else { "    setg al\n" })
    } else if spells(s, "<=") {
        Some(if x64 { "    setle %al\n" } else { "    setle al\n" })
    } else if spells(s, ">=") {
        Some(if x64 { "    setge %al\n" } else { "    setge al\n" })
    } else {
        None
    }
}

fn emit_instruction(
    out: &mut String,
    ins: &IRInstruction,
    names: &Vec<String>,
    n_labels: usize,
    d: Dialect,
) -> (r: Result<(), CompileError>)
    requires
        variable_of(*ins) is Some ==> names_view(names@).contains(variable_of(*ins)->Some_0),
        names@.len() <= max_variables(d),
    ensures
        match instruction_text(*ins, names_view(names@), n_labels as nat, d) {
            Ok(t) => r is Ok && final(out)@ == old(out)@ + t,
            Err(e) => r == Err::<(), CompileError>(e),
        },
{
    let ghost start = out@;
    let ghost ns = names_view(names@);
    match d {
        Dialect::X86_64 => {
            match ins {
                IRInstruction::LoadConstant(n) => {
                    out.append("    movq $");
                    append_signed(out, *n);
                    out.append(", %rax\n");
                    out.append("    pushq %rax\n");
                },
                IRInstruction::LoadVariable(v) => {
                    out.append("    movq ");
                    emit_slot(out, names, v, d);
                    out.append(", %rax\n");
                    out.append("    pushq %rax\n");
                },
                IRInstruction::Add => emit_binary(out, "    addq %rbx, %rax\n", d),
                IRInstruction::Subtract => emit_binary(out, "    subq %rbx, %rax\n", d),
                IRInstruction::Multiply => emit_binary(out, "    imulq %rbx, %rax\n", d),
                IRInstruction::Divide => {
                    let ghost s0 = out@;
                    out.append("    popq %rbx\n");
                    out.append("    popq %rax\n");
                    out.append("    cqo\n");
                    out.append("    idivq %rbx\n");
                    out.append("    pushq %rax\n");
                    assert(out@ =~= s0 + binary_text("    cqo\n"@ + "    idivq %rbx\n"@, d));
                },
                IRInstruction::Store(v) => {
                    out.append("    popq %rax\n");
                    out.append("    movq %rax, ");
                    emit_slot(out, names, v, d);
                    out.append("\n");
                },
                IRInstruction::Compare(op) => {
                    match compare_line_exec(op, d) {
                        Some(line) => {
                            let ghost s0 = out@;
                            out.append("    popq %rbx\n");
                            out.append("    popq %rax\n");
                            out.append("    cmpq %rbx, %rax\n");
                            out.append(line);
                            out.append("    movzbq %al, %rax\n");
                            out.append("    pushq %rax\n");
                            assert(out@ =~= s0 + binary_text(
                                "    cmpq %rbx, %rax\n"@ + line@ + "    movzbq %al, %rax\n"@,
                                d,
                            ));
                        },
                        None => {
                            return Err(
                                CompileError::CodegenError(
                                    CodegenFault::UnknownComparison(op.clone()),
                                ),
                            );
                        },
                    }
                },
                IRInstruction::JumpIfFalse(l) => {
                    if *l >= n_labels {
                        return Err(CompileError::CodegenError(CodegenFault::UndefinedLabel(*l)));
                    }
                    out.append("    popq %rax\n");
                    out.append("    testq %rax, %rax\n");
                    out.append("    je ");
                    emit_label(out, *l, d);
                    out.append("\n");
                },
                IRInstruction::Jump(l) => {
                    if *l >= n_labels {
                        return Err(CompileError::CodegenError(CodegenFault::UndefinedLabel(*l)));
                    }
                    out.append("    jmp ");
                    emit_label(out, *l, d);
                    out.append("\n");
                },
            }
        },
        Dialect::X86 => {
            match ins {
                IRInstruction::LoadConstant(n) => {
                    out.append("    mov eax, ");
                    append_signed(out, *n);
                    out.append("\n");
                    out.append("    push eax\n");
                },
                IRInstruction::LoadVariable(v) => {
                    out.append("    mov eax, ");
                    emit_slot(out, names, v, d);
                    out.append("\n");
                    out.append("    push eax\n");
                },
                IRInstruction::Add => emit_binary(out, "    add eax, ebx\n", d),
                IRInstruction::Subtract => emit_binary(out, "    sub eax, ebx\n", d),
                IRInstruction::Multiply => emit_binary(out, "    imul eax, ebx\n", d),
                IRInstruction::Divide => {
                    let ghost s0 = out@;
                    out.append("    pop ebx\n");
                    out.append("    pop eax\n");
                    out.append("    cdq\n");
                    out.append("    idiv ebx\n");
                    out.append("    push eax\n");
                    assert(out@ =~= s0 + binary_text("    cdq\n"@ + "    idiv ebx\n"@, d));
                },
                IRInstruction::Store(v) => {
                    out.append("    pop eax\n");
                    out.append("    mov ");
                    emit_slot(out, names, v, d);
                    out.append(", eax\n");
                },
                IRInstruction::Compare(op) => {
                    match compare_line_exec(op, d) {
                        Some(line) => {
                            let ghost s0 = out@;
                            out.append("    pop ebx\n");
                            out.append("    pop eax\n");
                            out.append("    cmp eax, ebx\n");
                            out.append(line);
                            out.append("    movzx eax, al\n");
                            out.append("    push eax\n");
                            assert(out@ =~= s0 + binary_text(
                                "    cmp eax, ebx\n"@ + line@ + "    movzx eax, al\n"@,
                                d,
                            ));
                        },
                        None => {
                            return Err(
                                CompileError::CodegenError(
                                    CodegenFault::UnknownComparison(op.clone()),
                                ),
                            );
                        },
                    }
                },
                IRInstruction::JumpIfFalse(l) => {
                    if *l >= n_labels {
                        return Err(CompileError::CodegenError(CodegenFault::UndefinedLabel(*l)));
                    }
                    out.append("    pop eax\n");
                    out.append("    test eax, eax\n");
                    out.append("    je ");
                    emit_label(out, *l, d);
                    out.append("\n");
                },
                IRInstruction::Jump(l) => {
                    if *l >= n_labels {
                        return Err(CompileError::CodegenError(CodegenFault::UndefinedLabel(*l)));
                    }
                    out.append("    jmp ");
                    emit_label(out, *l, d);
                    out.append("\n");
                },
            }
        },
    }
    assert(instruction_text(*ins, ns, n_labels as nat, d) is Ok);
    assert(out@ =~= start + instruction_text(*ins, ns, n_labels as nat, d)->Ok_0);
    Ok(())
}

fn emit_prologue(out: &mut String, d: Dialect)
    ensures
        final(out)@ == old(out)@ + prologue(d),
{
    let ghost start = out@;
    match d {
        Dialect::X86_64 => {
            out.append("    .data\n");
            out.append("    .bss\n");
            out.append("    .lcomm stack_pointer, 8\n\n");
            out.append("    .text\n");
            out.append("    .globl main\n\n");
            out.append("main:\n");
            out.append("    pushq %rbp\n");
            out.append("    movq %rsp, %rbp\n");
            out.append("    subq $256, %rsp\n\n");
        },
        Dialect::X86 => {
            out.append("section .bss\n");
            out.append("    scratch resd 1\n\n");
            out.append("section .text\n");
            out.append("global main\n\n");
            out.append("main:\n");
            out.append("    push ebp\n");
            out.append("    mov ebp, esp\n");
            out.append("    sub esp, 256\n\n");
        },
    }
    assert(out@ =~= start + prologue(d));
}

fn emit_epilogue(out: &mut String, d: Dialect)
    ensures
        final(out)@ == old(out)@ + epilogue(d),
{
    let ghost start = out@;
    match d {
        Dialect::X86_64 => {
            out.append("\n    movq $0, %rax\n");
            out.append("    leave\n");
            out.append("    ret\n");
        },
        Dialect::X86 => {
            out.append("\n    mov eax, 0\n");
            out.append("    leave\n");
            out.append("    ret\n");
        },
    }
    assert(out@ =~= start + epilogue(d));
}

/// Turns a lowered program into assembly text for dialect `d`: a data
/// section with one word-sized scratch cell, an entry procedure `main` with
/// a 256-byte frame, each instruction on a stack of two registers, each
/// label's marker at the position the label table gives it (exactly once),
/// and an epilogue that returns 0. Each variable gets its own frame slot,
/// numbered in the order of first use. Fails with `CodegenError` when there
/// are more variables than slots, when a label lies past the end, when a
/// jump names a label outside the table, or on a comparison operator
/// outside `== < > <= >=`.
pub fn generate_output_code(program: &IrProgram, d: Dialect) -> (r: Result<String, CompileError>)
    ensures
        match codegen_spec(program.instructions@, program.labels@, d) {
            Ok(text) => r is Ok && r->Ok_0@ == text,
            Err(e) => r is Err && r->Err_0 == e,
        },
{
    let code = &program.instructions;
    let labels = &program.labels;
    assert(code@ == program.instructions@ && labels@ == program.labels@);
    let names = collect_variables(code);
    let ghost ns = names_view(names@);
    let word: u64 = match d {
        Dialect::X86_64 => 8,
        Dialect::X86 => 4,
    };
    if names.len() as u64 > FRAME_BYTES / word {
        return Err(CompileError::CodegenError(CodegenFault::TooManyVariables));
    }
    assert(names@.len() <= max_variables(d));
    assert(ns.len() == names@.len());
    let mut l: usize = 0;
    while l < labels.len()
        invariant
            l <= labels@.len(),
            code@ == program.instructions@,
            labels@ == program.labels@,
            ns == variable_order(code@),
            ns.len() <= max_variables(d),
            misplaced_label(labels@, code@.len() as int, 0) == misplaced_label(
                labels@,
                code@.len() as int,
                l as int,
            ),
        decreases labels.len() - l,
    {
        if labels[l] > code.len() {
            assert(misplaced_label(labels@, code@.len() as int, l as int) == Some(l));
            assert(codegen_spec(code@, labels@, d) == Err::<Seq<char>, CompileError>(
                CompileError::CodegenError(CodegenFault::UndefinedLabel(l)),
            ));
            return Err(CompileError::CodegenError(CodegenFault::UndefinedLabel(l)));
        }
        l = l + 1;
    }
    let mut out = String::new();
    emit_prologue(&mut out, d);
    let ghost head = out@;
    let mut k: usize = 0;
    assert(head =~= prologue(d) + Seq::<char>::empty());
    while k < code.len()
        invariant
            k <= code@.len(),
            code@ == program.instructions@,
            labels@ == program.labels@,
            ns == variable_order(code@),
            ns == names_view(names@),
            names@.len() <= max_variables(d),
            head == prologue(d),
            misplaced_label(labels@, code@.len() as int, 0) is None,
            body(code@, labels@, ns, d, k as int) is Ok,
            out@ == head + body(code@, labels@, ns, d, k as int)->Ok_0,
        decreases code.len() - k,
    {
        let ghost before = out@;
        emit_markers(&mut out, labels, k, d);
        proof {
            if variable_of(code@[k as int]) is Some {
                lemma_variables_ordered(code@, k as int);
            }
        }
        match emit_instruction(&mut out, &code[k], &names, labels.len(), d) {
            Ok(()) => {},
            Err(e) => {
                proof {
                    lemma_body_err(code@, labels@, ns, d, k + 1, code@.len() as int);
                }
                return Err(e);
            },
        }
        assert(out@ =~= head + body(code@, labels@, ns, d, k + 1)->Ok_0);
        k = k + 1;
    }
    emit_markers(&mut out, labels, code.len(), d);
    emit_epilogue(&mut out, d);
    assert(out@ =~= prologue(d) + body(code@, labels@, ns, d, code@.len() as int)->Ok_0
        + markers_at(labels@, code@.len() as int, d) + epilogue(d));
    Ok(out)
}

} // verus!
