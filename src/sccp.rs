//! Constant folding: every `Bin` of two constants whose operator is arithmetic is
//! evaluated, its definition removed and its uses replaced by the constant, until
//! no such `Bin` is left.
use vstd::prelude::*;

use crate::func::{Func, FuncView, lemma_same_labels, same_labels};
use crate::inst::{Block, Inst, InstView, OpBin, Operand, Var};

verus! {

/// What folding a binary instruction yields.
#[derive(Debug, Clone, Copy, PartialEq, Eq, Structural)]
pub enum Fold {
    Value(i64),
    /// Not folded: an operand is not a constant, or the operator is a comparison.
    Opaque,
    /// A constant division or remainder by zero.
    DivByZero,
}

/// The diagnostic of a failed fold: a constant division or remainder by zero,
/// defining `dist`.
#[derive(Debug, Clone, Copy, PartialEq, Eq, Structural)]
pub enum SccpError {
    DivByZero { dist: Var },
}

/// `x` reduced to a 64-bit two's-complement value.
pub open spec fn wrap64(x: int) -> int {
    let m = x % 0x1_0000_0000_0000_0000;
    if m > i64::MAX {
        m - 0x1_0000_0000_0000_0000
    } else {
        m
    }
}

pub open spec fn abs(a: int) -> int {
    if a < 0 {
        -a
    } else {
        a
    }
}

/// Division rounding toward zero.
pub open spec fn div_trunc(a: int, b: int) -> int {
    let q = abs(a) / abs(b);
    if (a < 0) != (b < 0) {
        -q
    } else {
        q
    }
}

/// The remainder of [`div_trunc`]: it takes the sign of the dividend.
pub open spec fn rem_trunc(a: int, b: int) -> int {
    if a < 0 {
        -(abs(a) % abs(b))
    } else {
        a % abs(b)
    }
}

/// Folding `op1 op op2` in 64-bit two's-complement arithmetic; comparisons stay
/// opaque; a division or remainder by the constant zero is an error whatever the
/// dividend.
pub open spec fn fold_spec(op: OpBin, op1: Operand, op2: Operand) -> Fold {
    if (op == OpBin::Div || op == OpBin::Mod) && op2 == Operand::Const(0) {
        Fold::DivByZero
    } else {
        fold_consts(op, op1, op2)
    }
}

/// Folding `op1 op op2` when both are constants and no division by zero is involved.
pub open spec fn fold_consts(op: OpBin, op1: Operand, op2: Operand) -> Fold {
    match (op1, op2) {
        (Operand::Const(a), Operand::Const(b)) => match op {
            OpBin::Add => Fold::Value(wrap64(a + b) as i64),
            OpBin::Sub => Fold::Value(wrap64(a - b) as i64),
            OpBin::Mul => Fold::Value(wrap64(a * b) as i64),
            OpBin::Div => if b == 0 {
                Fold::DivByZero
            } else {
                Fold::Value(wrap64(div_trunc(a as int, b as int)) as i64)
            },
            OpBin::Mod => if b == 0 {
                Fold::DivByZero
            } else {
                Fold::Value(wrap64(rem_trunc(a as int, b as int)) as i64)
            },
            _ => Fold::Opaque,
        },
        _ => Fold::Opaque,
    }
}

/// What folding the instruction `i` yields; only a `Bin` can fold.
pub open spec fn inst_fold(i: InstView) -> Fold {
    match i {
        InstView::Bin { op, op1, op2, .. } => fold_spec(op, op1, op2),
        _ => Fold::Opaque,
    }
}

/// The `(value, constant)` pairs that the instructions of `s` fold to, in order.
pub open spec fn block_pairs(s: Seq<InstView>) -> Seq<(Var, i64)>
    decreases s.len(),
{
    if s.len() == 0 {
        Seq::empty()
    } else {
        let r = block_pairs(s.drop_last());
        match (s.last(), inst_fold(s.last())) {
            (InstView::Bin { dist, .. }, Fold::Value(c)) => r.push((dist, c)),
            _ => r,
        }
    }
}

pub open spec fn pairs_upto(f: FuncView, n: int) -> Seq<(Var, i64)>
    decreases n,
{
    if n <= 0 {
        Seq::empty()
    } else {
        pairs_upto(f, n - 1) + block_pairs(f[n - 1].1)
    }
}

/// The folds of one scan over `f`, in block order, then instruction order.
pub open spec fn fold_pairs(f: FuncView) -> Seq<(Var, i64)> {
    pairs_upto(f, f.len() as int)
}

/// The constant recorded for `v`; a later pair overrides an earlier one.
pub open spec fn lookup(pairs: Seq<(Var, i64)>, v: Var) -> Option<i64>
    decreases pairs.len(),
{
    if pairs.len() == 0 {
        None
    } else if pairs.last().0 == v {
        Some(pairs.last().1)
    } else {
        lookup(pairs.drop_last(), v)
    }
}

/// Whether some instruction of `f` divides a constant by the constant zero.
pub open spec fn has_div_zero(f: FuncView) -> bool {
    exists|i: int, j: int|
        0 <= i < f.len() && 0 <= j < f[i].1.len() && (#[trigger] inst_fold(f[i].1[j])) is DivByZero
}

pub open spec fn subst_op(op: Operand, pairs: Seq<(Var, i64)>) -> Operand {
    match op {
        Operand::Var(d) => match lookup(pairs, d) {
            Some(c) => Operand::Const(c),
            None => op,
        },
        Operand::Const(_) => op,
    }
}

/// `i` with every operand that names a folded value replaced by its constant.
pub open spec fn subst_inst(i: InstView, pairs: Seq<(Var, i64)>) -> InstView {
    match i {
        InstView::Store { op1, op2 } => InstView::Store {
            op1: subst_op(op1, pairs),
            op2: subst_op(op2, pairs),
        },
        InstView::Load { dist, op1 } => InstView::Load { dist, op1: subst_op(op1, pairs) },
        InstView::Bin { op, dist, op1, op2 } => InstView::Bin {
            op,
            dist,
            op1: subst_op(op1, pairs),
            op2: subst_op(op2, pairs),
        },
        InstView::Un { op, dist, op1 } => InstView::Un { op, dist, op1: subst_op(op1, pairs) },
        InstView::Phi { dist, incomes } => InstView::Phi {
            dist,
            incomes: incomes.map_values(|p: (Block, Operand)| (p.0, subst_op(p.1, pairs))),
        },
        InstView::Cond { op1, then_, else_ } => InstView::Cond {
            op1: subst_op(op1, pairs),
            then_,
            else_,
        },
        InstView::Ret { op1 } => InstView::Ret { op1: subst_op(op1, pairs) },
        _ => i,
    }
}

/// Whether `i` defines a folded value.
pub open spec fn folds_away(i: InstView, pairs: Seq<(Var, i64)>) -> bool {
    match i.dist() {
        Some(d) => lookup(pairs, d) is Some,
        None => false,
    }
}

/// `s` without the definitions of folded values, the others substituted.
pub open spec fn fold_insts(s: Seq<InstView>, pairs: Seq<(Var, i64)>) -> Seq<InstView>
    decreases s.len(),
{
    if s.len() == 0 {
        Seq::empty()
    } else {
        let r = fold_insts(s.drop_last(), pairs);
        if folds_away(s.last(), pairs) {
            r
        } else {
            r.push(subst_inst(s.last(), pairs))
        }
    }
}

pub open spec fn apply_folds(f: FuncView, pairs: Seq<(Var, i64)>) -> FuncView {
    f.map_values(|p: (Block, Seq<InstView>)| (p.0, fold_insts(p.1, pairs)))
}

/// One scan and rewrite.
pub open spec fn fold_round(f: FuncView) -> FuncView {
    apply_folds(f, fold_pairs(f))
}

/// The number of instructions in the first `n` blocks of `f`.
pub open spec fn insts_upto(f: FuncView, n: int) -> nat
    decreases n,
{
    if n <= 0 {
        0
    } else {
        insts_upto(f, n - 1) + f[n - 1].1.len()
    }
}

pub open spec fn total_insts(f: FuncView) -> nat {
    insts_upto(f, f.len() as int)
}

/// The outcome of folding `f` to the end: the function reached, and `false` when a
/// constant division by zero stopped the folding there.
pub open spec fn sccp_result(f: FuncView) -> (FuncView, bool)
    decreases total_insts(f),
    via sccp_result_decreases
{
    if has_div_zero(f) {
        (f, false)
    } else if fold_pairs(f).len() == 0 {
        (f, true)
    } else {
        sccp_result(fold_round(f))
    }
}

#[via_fn]
proof fn sccp_result_decreases(f: FuncView) {
    if !has_div_zero(f) && fold_pairs(f).len() != 0 {
        lemma_round_shrinks(f);
    }
}

proof fn lemma_fold_insts_len(s: Seq<InstView>, pairs: Seq<(Var, i64)>)
    ensures
        fold_insts(s, pairs).len() <= s.len(),
        (exists|k: int| 0 <= k < s.len() && #[trigger] folds_away(s[k], pairs)) ==> fold_insts(
            s,
            pairs,
        ).len() < s.len(),
    decreases s.len(),
{
    if s.len() > 0 {
        lemma_fold_insts_len(s.drop_last(), pairs);
        if exists|k: int| 0 <= k < s.len() && #[trigger] folds_away(s[k], pairs) {
            let k = choose|k: int| 0 <= k < s.len() && #[trigger] folds_away(s[k], pairs);
            if k < s.len() - 1 {
                assert(folds_away(s.drop_last()[k], pairs));
            }
        }
    }
}

proof fn lemma_lookup_some(pairs: Seq<(Var, i64)>, k: int)
    requires
        0 <= k < pairs.len(),
    ensures
        lookup(pairs, pairs[k].0) is Some,
    decreases pairs.len(),
{
    if pairs.last().0 != pairs[k].0 {
        lemma_lookup_some(pairs.drop_last(), k);
    }
}

/// A nonempty fold list of a block comes from a folding `Bin` of the block.
proof fn lemma_block_pairs_source(s: Seq<InstView>, k: int)
    requires
        0 <= k < block_pairs(s).len(),
    ensures
        exists|j: int|
            0 <= j < s.len() && (#[trigger] s[j]).dist() == Some(block_pairs(s)[k].0),
    decreases s.len(),
{
    let r = block_pairs(s.drop_last());
    if k < r.len() {
        lemma_block_pairs_source(s.drop_last(), k);
        let j = choose|j: int|
            0 <= j < s.drop_last().len() && (#[trigger] s.drop_last()[j]).dist() == Some(r[k].0);
        assert(s[j] == s.drop_last()[j]);
    } else {
        assert(s[s.len() - 1] == s.last());
    }
}

proof fn lemma_pairs_upto_source(f: FuncView, n: int, k: int)
    requires
        0 <= n <= f.len(),
        0 <= k < pairs_upto(f, n).len(),
    ensures
        exists|i: int, j: int|
            0 <= i < n && 0 <= j < f[i].1.len() && (#[trigger] f[i].1[j]).dist() == Some(
                pairs_upto(f, n)[k].0,
            ),
    decreases n,
{
    let prev = pairs_upto(f, n - 1);
    if k < prev.len() {
        lemma_pairs_upto_source(f, n - 1, k);
    } else {
        lemma_block_pairs_source(f[n - 1].1, k - prev.len());
    }
}

proof fn lemma_insts_upto_shrinks(f: FuncView, g: FuncView, n: int, strict: int)
    requires
        0 <= n <= f.len(),
        g.len() == f.len(),
        forall|i: int| 0 <= i < f.len() ==> (#[trigger] g[i]).1.len() <= f[i].1.len(),
        0 <= strict < n,
        g[strict].1.len() < f[strict].1.len(),
    ensures
        insts_upto(g, n) < insts_upto(f, n),
    decreases n,
{
    if strict < n - 1 {
        lemma_insts_upto_shrinks(f, g, n - 1, strict);
    } else {
        lemma_insts_upto_le(f, g, n - 1);
    }
}

proof fn lemma_insts_upto_le(f: FuncView, g: FuncView, n: int)
    requires
        0 <= n <= f.len(),
        g.len() == f.len(),
        forall|i: int| 0 <= i < f.len() ==> (#[trigger] g[i]).1.len() <= f[i].1.len(),
    ensures
        insts_upto(g, n) <= insts_upto(f, n),
    decreases n,
{
    if n > 0 {
        lemma_insts_upto_le(f, g, n - 1);
    }
}

/// A round that folds something removes at least one instruction.
proof fn lemma_round_shrinks(f: FuncView)
    requires
        fold_pairs(f).len() != 0,
    ensures
        total_insts(fold_round(f)) < total_insts(f),
{
    let pairs = fold_pairs(f);
    let g = fold_round(f);
    lemma_pairs_upto_source(f, f.len() as int, 0);
    let (i, j) = choose|i: int, j: int|
        0 <= i < f.len() && 0 <= j < f[i].1.len() && (#[trigger] f[i].1[j]).dist() == Some(
            pairs[0].0,
        );
    lemma_lookup_some(pairs, 0);
    assert(folds_away(f[i].1[j], pairs));
    assert forall|a: int| 0 <= a < f.len() implies (#[trigger] g[a]).1.len() <= f[a].1.len() by {
        lemma_fold_insts_len(f[a].1, pairs);
    }
    lemma_fold_insts_len(f[i].1, pairs);
    lemma_insts_upto_shrinks(f, g, f.len() as int, i);
}

/// Folding is idempotent: folding the outcome of a successful folding changes nothing.
pub proof fn lemma_sccp_idempotent(f: FuncView)
    requires
        sccp_result(f).1,
    ensures
        sccp_result(sccp_result(f).0) == sccp_result(f),
    decreases total_insts(f),
{
    if !has_div_zero(f) && fold_pairs(f).len() != 0 {
        lemma_round_shrinks(f);
        lemma_sccp_idempotent(fold_round(f));
    }
}

/// The outcome of a successful folding has no `Bin` of two constants with an
/// arithmetic operator left.
pub proof fn lemma_sccp_complete(f: FuncView)
    requires
        sccp_result(f).1,
    ensures
        forall|i: int, j: int|
            0 <= i < sccp_result(f).0.len() && 0 <= j < sccp_result(f).0[i].1.len() ==> (
            #[trigger] inst_fold(sccp_result(f).0[i].1[j])) is Opaque,
    decreases total_insts(f),
{
    if !has_div_zero(f) && fold_pairs(f).len() != 0 {
        lemma_round_shrinks(f);
        lemma_sccp_complete(fold_round(f));
    } else {
        assert forall|i: int, j: int|
            0 <= i < f.len() && 0 <= j < f[i].1.len() implies (#[trigger] inst_fold(
            f[i].1[j],
        )) is Opaque by {
            if inst_fold(f[i].1[j]) is Value {
                lemma_value_in_pairs(f, i, j);
            }
        }
    }
}

proof fn lemma_block_value_in_pairs(s: Seq<InstView>, j: int)
    requires
        0 <= j < s.len(),
        inst_fold(s[j]) is Value,
    ensures
        block_pairs(s).len() > 0,
    decreases s.len(),
{
    if j < s.len() - 1 {
        lemma_block_value_in_pairs(s.drop_last(), j);
    }
}

proof fn lemma_value_in_pairs(f: FuncView, i: int, j: int)
    requires
        0 <= i < f.len(),
        0 <= j < f[i].1.len(),
        inst_fold(f[i].1[j]) is Value,
    ensures
        fold_pairs(f).len() > 0,
{
    lemma_block_value_in_pairs(f[i].1, j);
    lemma_pairs_upto_grows(f, i + 1, f.len() as int);
}

proof fn lemma_pairs_upto_grows(f: FuncView, a: int, b: int)
    requires
        0 <= a <= b <= f.len(),
    ensures
        pairs_upto(f, a).len() <= pairs_upto(f, b).len(),
    decreases b - a,
{
    if a < b {
        lemma_pairs_upto_grows(f, a, b - 1);
    }
}

/// `a / b` rounded toward zero, in 64-bit two's complement.
fn div_wrapping(a: i64, b: i64) -> (r: i64)
    requires
        b != 0,
    ensures
        r == wrap64(div_trunc(a as int, b as int)) as i64,
{
    match a.checked_div(b) {
        Some(q) => {
            assert(q == div_trunc(a as int, b as int));
            q
        },
        None => {
            assert(div_trunc(a as int, b as int) == 0x8000_0000_0000_0000);
            assert(wrap64(0x8000_0000_0000_0000) == i64::MIN);
            i64::MIN
        },
    }
}

/// The remainder of [`div_wrapping`], in 64-bit two's complement.
fn rem_wrapping(a: i64, b: i64) -> (r: i64)
    requires
        b != 0,
    ensures
        r == wrap64(rem_trunc(a as int, b as int)) as i64,
{
    match a.checked_rem(b) {
        Some(m) => {
            assert(m == rem_trunc(a as int, b as int));
            m
        },
        None => {
            assert(rem_trunc(a as int, b as int) == 0);
            0
        },
    }
}

/// Evaluates `op1 op op2` as [`fold_spec`] states.
pub fn eval_bin(op: OpBin, op1: Operand, op2: Operand) -> (r: Fold)
    ensures
        r == fold_spec(op, op1, op2),
{
    if (op == OpBin::Div || op == OpBin::Mod) && op2 == Operand::Const(0) {
        return Fold::DivByZero;
    }
    let (a, b) = match (op1, op2) {
        (Operand::Const(a), Operand::Const(b)) => (a, b),
        _ => {
            return Fold::Opaque;
        },
    };
    match op {
        OpBin::Add => {
            let r = a.wrapping_add(b);
            assert(r == wrap64(a + b));
            Fold::Value(r)
        },
        OpBin::Sub => {
            let r = a.wrapping_sub(b);
            assert(r == wrap64(a - b));
            Fold::Value(r)
        },
        OpBin::Mul => Fold::Value(a.wrapping_mul(b)),
        OpBin::Div => if b == 0 {
            Fold::DivByZero
        } else {
            Fold::Value(div_wrapping(a, b))
        },
        OpBin::Mod => if b == 0 {
            Fold::DivByZero
        } else {
            Fold::Value(rem_wrapping(a, b))
        },
        _ => Fold::Opaque,
    }
}

/// The constant recorded for `v` in `pairs` (see [`lookup`]).
fn lookup_exec(pairs: &Vec<(Var, i64)>, v: Var) -> (r: Option<i64>)
    ensures
        r == lookup(pairs@, v),
{
    let mut k: usize = pairs.len();
    assert(pairs@.take(k as int) == pairs@);
    while k > 0
        invariant
            k <= pairs.len(),
            lookup(pairs@, v) == lookup(pairs@.take(k as int), v),
        decreases k,
    {
        proof {
            assert(pairs@.take(k as int).drop_last() == pairs@.take(k - 1));
        }
        if pairs[k - 1].0 == v {
            return Some(pairs[k - 1].1);
        }
        k -= 1;
    }
    None
}

fn subst_operand(op: Operand, pairs: &Vec<(Var, i64)>) -> (r: Operand)
    ensures
        r == subst_op(op, pairs@),
{
    match op {
        Operand::Var(d) => match lookup_exec(pairs, d) {
            Some(c) => Operand::Const(c),
            None => op,
        },
        Operand::Const(_) => op,
    }
}

fn subst(i: &Inst, pairs: &Vec<(Var, i64)>) -> (r: Inst)
    ensures
        r@ == subst_inst(i@, pairs@),
{
    match i {
        Inst::Store { op1, op2 } => Inst::Store {
            op1: subst_operand(*op1, pairs),
            op2: subst_operand(*op2, pairs),
        },
        Inst::Load { dist, op1 } => Inst::Load { dist: *dist, op1: subst_operand(*op1, pairs) },
        Inst::Bin { op, dist, op1, op2 } => Inst::Bin {
            op: *op,
            dist: *dist,
            op1: subst_operand(*op1, pairs),
            op2: subst_operand(*op2, pairs),
        },
        Inst::Un { op, dist, op1 } => Inst::Un {
            op: *op,
            dist: *dist,
            op1: subst_operand(*op1, pairs),
        },
        Inst::Phi { dist, incomes } => {
            let mut r: Vec<(Block, Operand)> = Vec::new();
            let mut k: usize = 0;
            while k < incomes.len()
                invariant
                    k <= incomes.len(),
                    r@ == incomes@.take(k as int).map_values(
                        |p: (Block, Operand)| (p.0, subst_op(p.1, pairs@)),
                    ),
                decreases incomes.len() - k,
            {
                let (b, op) = incomes[k];
                r.push((b, subst_operand(op, pairs)));
                k += 1;
                proof {
                    assert(incomes@.take(k as int) == incomes@.take(k - 1).push(incomes@[k - 1]));
                }
            }
            proof {
                assert(incomes@.take(incomes.len() as int) == incomes@);
            }
            Inst::Phi { dist: *dist, incomes: r }
        },
        Inst::Cond { op1, then_, else_ } => Inst::Cond {
            op1: subst_operand(*op1, pairs),
            then_: *then_,
            else_: *else_,
        },
        Inst::Ret { op1 } => Inst::Ret { op1: subst_operand(*op1, pairs) },
        _ => i.duplicate(),
    }
}

/// Appends the folds of `insts` to `pairs`; `false` at a constant division by zero.
fn scan_block(insts: &Vec<Inst>, pairs: &mut Vec<(Var, i64)>) -> (r: Result<(), SccpError>)
    ensures
        r is Ok <==> forall|j: int|
            0 <= j < insts@.len() ==> !(#[trigger] inst_fold(insts@[j]@) is DivByZero),
        r is Ok ==> final(pairs)@ == old(pairs)@ + block_pairs(
            insts@.map_values(|i: Inst| i@),
        ),
{
    let ghost s = insts@.map_values(|i: Inst| i@);
    let mut j: usize = 0;
    while j < insts.len()
        invariant
            s == insts@.map_values(|i: Inst| i@),
            j <= insts.len(),
            forall|k: int| 0 <= k < j ==> !(#[trigger] inst_fold(insts@[k]@) is DivByZero),
            pairs@ == old(pairs)@ + block_pairs(s.take(j as int)),
        decreases insts.len() - j,
    {
        proof {
            assert(s.take(j + 1).drop_last() == s.take(j as int));
            assert(s.take(j + 1).last() == insts@[j as int]@);
        }
        if let Inst::Bin { op, dist, op1, op2 } = &insts[j] {
            match eval_bin(*op, *op1, *op2) {
                Fold::Value(c) => {
                    pairs.push((*dist, c));
                },
                Fold::DivByZero => {
                    return Err(SccpError::DivByZero { dist: *dist });
                },
                Fold::Opaque => {},
            }
        }
        j += 1;
    }
    proof {
        assert(s.take(insts.len() as int) == s);
    }
    Ok(())
}

/// The folds of one scan over `func`, or the first constant division by zero.
fn scan(func: &Func) -> (r: Result<Vec<(Var, i64)>, SccpError>)
    ensures
        r is Err <==> has_div_zero(func@),
        r matches Ok(p) ==> p@ == fold_pairs(func@),
{
    let mut pairs: Vec<(Var, i64)> = Vec::new();
    let mut i: usize = 0;
    while i < func.blocks.len()
        invariant
            i <= func.blocks.len(),
            pairs@ == pairs_upto(func@, i as int),
            forall|a: int, j: int|
                0 <= a < i && 0 <= j < func@[a].1.len() ==> !(#[trigger] inst_fold(
                    func@[a].1[j],
                ) is DivByZero),
        decreases func.blocks.len() - i,
    {
        let ghost before = pairs@;
        match scan_block(&func.blocks[i].1.insts, &mut pairs) {
            Ok(()) => {},
            Err(e) => {
                proof {
                    let j = choose|j: int|
                        0 <= j < func.blocks@[i as int].1.insts@.len() && (#[trigger] inst_fold(
                            func.blocks@[i as int].1.insts@[j]@,
                        ) is DivByZero);
                    assert(inst_fold(func@[i as int].1[j]) is DivByZero);
                }
                return Err(e);
            },
        }
        proof {
            assert forall|a: int, j: int|
                0 <= a < i + 1 && 0 <= j < func@[a].1.len() implies !(#[trigger] inst_fold(
                func@[a].1[j],
            ) is DivByZero) by {
                if a == i {
                    assert(func@[a].1[j] == func.blocks@[i as int].1.insts@[j]@);
                }
            }
        }
        i += 1;
    }
    Ok(pairs)
}

/// `insts` folded with `pairs` (see [`fold_insts`]).
fn fold_block(insts: &Vec<Inst>, pairs: &Vec<(Var, i64)>) -> (r: Vec<Inst>)
    ensures
        r@.map_values(|i: Inst| i@) == fold_insts(insts@.map_values(|i: Inst| i@), pairs@),
{
    let ghost s = insts@.map_values(|i: Inst| i@);
    let mut r: Vec<Inst> = Vec::new();
    let mut j: usize = 0;
    while j < insts.len()
        invariant
            s == insts@.map_values(|i: Inst| i@),
            j <= insts.len(),
            r@.map_values(|i: Inst| i@) == fold_insts(s.take(j as int), pairs@),
        decreases insts.len() - j,
    {
        proof {
            assert(s.take(j + 1).drop_last() == s.take(j as int));
            assert(s.take(j + 1).last() == insts@[j as int]@);
        }
        let keep = match insts[j].dist() {
            Some(d) => lookup_exec(pairs, d).is_none(),
            None => true,
        };
        if keep {
            let ghost before = r@;
            r.push(subst(&insts[j], pairs));
            proof {
                assert(r@.map_values(|i: Inst| i@) == before.map_values(|i: Inst| i@).push(
                    r@.last()@,
                ));
            }
        }
        j += 1;
    }
    proof {
        assert(s.take(insts.len() as int) == s);
    }
    r
}

/// Runs constant folding until no `Bin` of two constants with an arithmetic
/// operator is left, or a division or remainder by the constant zero stops it.
pub fn sccp(func: &mut Func) -> (r: Result<(), SccpError>)
    ensures
        final(func)@ == sccp_result(old(func)@).0,
        r is Ok <==> sccp_result(old(func)@).1,
        same_labels(old(func)@, final(func)@),
        old(func).wf() ==> final(func).wf(),
{
    proof {
        lemma_same_labels(old(func)@, old(func)@);
    }
    loop
        invariant
            sccp_result(func@) == sccp_result(old(func)@),
            same_labels(old(func)@, func@),
            old(func).wf() ==> func.wf(),
        decreases total_insts(func@),
    {
        let pairs = match scan(func) {
            Ok(p) => p,
            Err(e) => {
                return Err(e);
            },
        };
        if pairs.len() == 0 {
            return Ok(());
        }
        let ghost before = func@;
        let ghost bb = func.blocks@;
        let mut i: usize = 0;
        while i < func.blocks.len()
            invariant
                pairs@ == fold_pairs(before),
                before == bb.map_values(|p: (Block, crate::func::BlockData)| (p.0, p.1@)),
                func.blocks.len() == before.len(),
                i <= func.blocks.len(),
                forall|k: int|
                    0 <= k < i ==> (#[trigger] func.blocks@[k]).0 == before[k].0
                        && func.blocks@[k].1@ == fold_insts(before[k].1, pairs@),
                forall|k: int| i <= k < func.blocks.len() ==> #[trigger] func.blocks@[k] == bb[k],
            decreases func.blocks.len() - i,
        {
            let insts = fold_block(&func.blocks[i].1.insts, &pairs);
            func.blocks[i].1.insts = insts;
            i += 1;
        }
        proof {
            assert(func@ == fold_round(before));
            lemma_round_shrinks(before);
            lemma_same_labels(old(func)@, func@);
        }
    }
}

/// The `Bin` of `f` a fold comes from: `dist` defined by `op1 op op2` of two
/// constants, `c` its 64-bit two's-complement value.
pub open spec fn folds_to(f: FuncView, dist: Var, c: i64) -> bool {
    exists|i: int, j: int, op: OpBin, a: i64, b: i64|
        #![trigger f[i].1[j], fold_spec(op, Operand::Const(a), Operand::Const(b))]
        0 <= i < f.len() && 0 <= j < f[i].1.len() && f[i].1[j] == (InstView::Bin {
            op,
            dist,
            op1: Operand::Const(a),
            op2: Operand::Const(b),
        }) && fold_spec(op, Operand::Const(a), Operand::Const(b)) == Fold::Value(c)
}

proof fn lemma_block_pairs_sound(f: FuncView, y: int, m: int, k: int)
    requires
        0 <= y < f.len(),
        0 <= m <= f[y].1.len(),
        0 <= k < block_pairs(f[y].1.take(m)).len(),
    ensures
        folds_to(f, block_pairs(f[y].1.take(m))[k].0, block_pairs(f[y].1.take(m))[k].1),
    decreases m,
{
    let s = f[y].1.take(m);
    assert(s.drop_last() == f[y].1.take(m - 1));
    let r = block_pairs(s.drop_last());
    if k < r.len() {
        lemma_block_pairs_sound(f, y, m - 1, k);
    } else {
        assert(s.last() == f[y].1[m - 1]);
        match f[y].1[m - 1] {
            InstView::Bin { op, dist, op1, op2 } => {
                let (a, b) = (op1->Const_0, op2->Const_0);
                assert(f[y].1[m - 1] == InstView::Bin { op, dist, op1: Operand::Const(a), op2: Operand::Const(b) });
            },
            _ => {},
        }
    }
}

/// Folding soundness: every constant that a fold round substitutes for a value is
/// the 64-bit two's-complement result of the `Bin` of two constants defining it
/// (see [`fold_spec`]).
pub proof fn lemma_fold_sound(f: FuncView, k: int)
    requires
        0 <= k < fold_pairs(f).len(),
    ensures
        folds_to(f, fold_pairs(f)[k].0, fold_pairs(f)[k].1),
{
    lemma_pairs_upto_sound(f, f.len() as int, k);
}

proof fn lemma_pairs_upto_sound(f: FuncView, n: int, k: int)
    requires
        0 <= n <= f.len(),
        0 <= k < pairs_upto(f, n).len(),
    ensures
        folds_to(f, pairs_upto(f, n)[k].0, pairs_upto(f, n)[k].1),
    decreases n,
{
    let prev = pairs_upto(f, n - 1);
    if k < prev.len() {
        lemma_pairs_upto_sound(f, n - 1, k);
    } else {
        assert(f[n - 1].1.take(f[n - 1].1.len() as int) == f[n - 1].1);
        lemma_block_pairs_sound(f, n - 1, f[n - 1].1.len() as int, k - prev.len());
    }
}

} // verus!
