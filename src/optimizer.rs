use vstd::prelude::*;

use crate::ir_generator::{ir_view, IRInstruction, IrModel, IrProgram};

verus! {

/// Some label marks position `pos`.
pub open spec fn marks(labels: Seq<usize>, pos: int) -> bool {
    exists|l: int| 0 <= l < labels.len() && labels[l] == pos
}

/// `LoadConstant(a), LoadConstant(b), Add` stands at `i`, `a + b` fits in an
/// `i32`, and no label marks a position inside the triple after its first.
pub open spec fn foldable(code: Seq<IrModel>, labels: Seq<usize>, i: int) -> bool {
    &&& 0 <= i
    &&& i + 2 < code.len()
    &&& code[i] is LoadConstant
    &&& code[i + 1] is LoadConstant
    &&& code[i + 2] is Add
    &&& i32::MIN <= code[i]->LoadConstant_0 + code[i + 1]->LoadConstant_0 <= i32::MAX
    &&& !marks(labels, i + 1)
    &&& !marks(labels, i + 2)
}

/// Label positions after the two instructions at `i + 1` and `i + 2` are gone.
pub open spec fn shift_label(p: usize, i: int) -> usize {
    if p > i + 2 {
        (p - 2) as usize
    } else {
        p
    }
}

/// The triple at `i` collapsed to one `LoadConstant` of the sum.
pub open spec fn fold_at(code: Seq<IrModel>, labels: Seq<usize>, i: int) -> (Seq<IrModel>, Seq<usize>) {
    (
        code.subrange(0, i).push(
            IrModel::LoadConstant(
                (code[i]->LoadConstant_0 + code[i + 1]->LoadConstant_0) as i32,
            ),
        ) + code.subrange(i + 3, code.len() as int),
        labels.map_values(|p: usize| shift_label(p, i)),
    )
}

/// One linear pass from the cursor `i`: fold at the cursor and look there
/// again, or move on; stop when fewer than three instructions are left ahead.
pub open spec fn optimize_from(code: Seq<IrModel>, labels: Seq<usize>, i: int) -> (
    Seq<IrModel>,
    Seq<usize>,
)
    decreases code.len() - i,
{
    if i < 0 || i + 2 >= code.len() {
        (code, labels)
    } else if foldable(code, labels, i) {
        let (c, l) = fold_at(code, labels, i);
        optimize_from(c, l, i)
    } else {
        optimize_from(code, labels, i + 1)
    }
}

/// What the optimizer makes of a program.
pub open spec fn optimize_spec(code: Seq<IrModel>, labels: Seq<usize>) -> (Seq<IrModel>, Seq<usize>) {
    optimize_from(code, labels, 0)
}

proof fn lemma_settled(code: Seq<IrModel>, labels: Seq<usize>, i: int)
    requires
        0 <= i,
        forall|j: int| i <= j ==> !#[trigger] foldable(code, labels, j),
    ensures
        optimize_from(code, labels, i) == (code, labels),
    decreases code.len() - i,
{
    if i + 2 < code.len() {
        assert(!foldable(code, labels, i));
        lemma_settled(code, labels, i + 1);
    }
}

proof fn lemma_never_longer(code: Seq<IrModel>, labels: Seq<usize>, i: int)
    ensures
        optimize_from(code, labels, i).0.len() <= code.len(),
    decreases code.len() - i,
{
    if 0 <= i && i + 2 < code.len() {
        if foldable(code, labels, i) {
            let (c, l) = fold_at(code, labels, i);
            lemma_never_longer(c, l, i);
        } else {
            lemma_never_longer(code, labels, i + 1);
        }
    }
}

proof fn lemma_fold_ahead_shortens(code: Seq<IrModel>, labels: Seq<usize>, i: int, j: int)
    requires
        0 <= i <= j,
        foldable(code, labels, j),
    ensures
        optimize_from(code, labels, i).0.len() < code.len(),
    decreases code.len() - i,
{
    if foldable(code, labels, i) {
        let (c, l) = fold_at(code, labels, i);
        lemma_never_longer(c, l, i);
    } else {
        lemma_fold_ahead_shortens(code, labels, i + 1, j);
    }
}

/// A second pass of the optimizer changes nothing exactly when the first
/// one left no foldable triple behind. (One pass can leave one: in
/// `LoadConstant(1), LoadConstant(2), LoadConstant(3), Add, Add` the scan
/// folds `2 + 3` where the cursor already stands past the `1`.)
pub proof fn lemma_optimize_twice(code: Seq<IrModel>, labels: Seq<usize>)
    ensures
        ({
            let once = optimize_spec(code, labels);
            optimize_spec(once.0, once.1) == once <==> forall|j: int|
                !#[trigger] foldable(once.0, once.1, j)
        }),
{
    let once = optimize_spec(code, labels);
    if forall|j: int| !#[trigger] foldable(once.0, once.1, j) {
        lemma_settled(once.0, once.1, 0);
    } else {
        let j = choose|j: int| #[trigger] foldable(once.0, once.1, j);
        lemma_fold_ahead_shortens(once.0, once.1, 0, j);
    }
}

fn marked(labels: &Vec<usize>, pos: usize) -> (r: bool)
    ensures
        r == marks(labels@, pos as int),
{
    let mut l: usize = 0;
    while l < labels.len()
        invariant
            l <= labels@.len(),
            forall|k: int| 0 <= k < l ==> labels@[k] != pos,
        decreases labels.len() - l,
    {
        if labels[l] == pos {
            return true;
        }
        l = l + 1;
    }
    false
}

fn shift_labels(labels: &mut Vec<usize>, i: usize)
    ensures
        final(labels)@ == old(labels)@.map_values(|p: usize| shift_label(p, i as int)),
{
    let ghost l0 = labels@;
    let mut l: usize = 0;
    while l < labels.len()
        invariant
            labels@.len() == l0.len(),
            l <= l0.len(),
            forall|k: int| 0 <= k < l ==> labels@[k] == shift_label(l0[k], i as int),
            forall|k: int| l <= k < l0.len() ==> labels@[k] == l0[k],
        decreases labels.len() - l,
    {
        if labels[l] > i && labels[l] - i > 2 {
            labels[l] = labels[l] - 2;
        }
        l = l + 1;
    }
    assert(labels@ =~= l0.map_values(|p: usize| shift_label(p, i as int)));
}

/// The sum when `LoadConstant(a), LoadConstant(b), Add` stands at `i` and
/// `a + b` fits in an `i32`.
fn constant_sum(code: &Vec<IRInstruction>, i: usize) -> (r: Option<i32>)
    requires
        i + 2 < code@.len(),
    ensures
        ({
            let v = ir_view(code@);
            let ok = v[i as int] is LoadConstant && v[i + 1] is LoadConstant && v[i + 2] is Add
                && i32::MIN <= v[i as int]->LoadConstant_0 + v[i + 1]->LoadConstant_0 <= i32::MAX;
            &&& ok == r is Some
            &&& ok ==> r->Some_0 == v[i as int]->LoadConstant_0 + v[i + 1]->LoadConstant_0
        }),
{
    let n = code.len();
    assert(i + 2 < n);
    match (&code[i], &code[i + 1], &code[i + 2]) {
        (IRInstruction::LoadConstant(a), IRInstruction::LoadConstant(b), IRInstruction::Add) => {
            a.checked_add(*b)
        },
        _ => None,
    }
}

/// Folds constants in one linear pass: each adjacent
/// `LoadConstant(a), LoadConstant(b), Add` becomes `LoadConstant(a + b)`,
/// and the scan looks again at the same place, so chains fold. A triple is
/// left alone when a label marks its second or third instruction (a jump
/// lands inside it) or when `a + b` does not fit in an `i32`. Labels after a
/// fold move back by two.
pub fn optimize_ir(program: &mut IrProgram)
    ensures
        (ir_view(final(program).instructions@), final(program).labels@) == optimize_spec(
            ir_view(old(program).instructions@),
            old(program).labels@,
        ),
{
    let ghost goal = optimize_spec(ir_view(program.instructions@), program.labels@);
    let mut i: usize = 0;
    while i < program.instructions.len() && program.instructions.len() - i > 2
        invariant
            goal == optimize_from(ir_view(program.instructions@), program.labels@, i as int),
        decreases program.instructions@.len() - i,
    {
        let ghost v = ir_view(program.instructions@);
        let ghost ls = program.labels@;
        let sum = constant_sum(&program.instructions, i);
        let fold = match sum {
            Some(_) => !marked(&program.labels, i + 1) && !marked(&program.labels, i + 2),
            None => false,
        };
        assert(fold == foldable(v, ls, i as int));
        if fold {
            let s = match sum {
                Some(s) => s,
                None => 0,
            };
            program.instructions.set(i, IRInstruction::LoadConstant(s));
            program.instructions.remove(i + 1);
            program.instructions.remove(i + 1);
            shift_labels(&mut program.labels, i);
            assert(ir_view(program.instructions@) =~= fold_at(v, ls, i as int).0);
        } else {
            i = i + 1;
        }
    }
}

} // verus!
