//! Promotion keeps the control-flow graph: every block keeps its out-edges, so the
//! promoted function is well formed again and has the same predecessors.
use vstd::prelude::*;

use crate::dom::{label_pos, lemma_label_pos};
use crate::elim::slot_position;
use crate::func::{
    FuncView, block_succ, first_terminator, func_wf, has_label, has_terminator, labels_increasing,
    lemma_first_terminator, lemma_first_terminator_exists,
};
use crate::idem::{
    frontend_form, has_load, is_slot_list, lemma_promoted_inv, lemma_slot_list_exists, rename_seq,
};
use crate::phi::{keys, keys_increasing, preds_set};
use crate::func::rename_func;
use crate::inst::{Block, InstView, Operand, Var};
use crate::mem2reg::{
    ctx_of, has_alloca, mem2reg_spec, promote, promote_single, promote_upto, slots_of, stores_of,
    succ_table,
};
use crate::phi::{all_reachable, ctx_wf};
use crate::pred::{preds_of, preds_upto};
use crate::ssa::{block_ordered, lemma_multi_ordered, lemma_single_ordered, ordered_block, ordered_from};

verus! {

proof fn lemma_rename_seq_succ(i: InstView, rs: Seq<(Var, Operand)>)
    ensures
        rename_seq(i, rs).is_terminator() == i.is_terminator(),
        rename_seq(i, rs).succ() == i.succ(),
    decreases rs.len(),
{
    if rs.len() > 0 {
        lemma_rename_seq_succ(i, rs.drop_last());
    }
}

/// Renamed copies of all instructions of `s` outside the slot positions of `a`,
/// in order and after some `Phi`s, end their first terminator where `s` does.
proof fn lemma_seq_succ(
    s: Seq<InstView>,
    t: Seq<InstView>,
    p: int,
    idx: Seq<int>,
    rss: Seq<Seq<(Var, Operand)>>,
    k0: int,
)
    requires
        0 <= p,
        p + idx.len() == t.len(),
        rss.len() == idx.len(),
        forall|j: int| 0 <= j < p ==> (#[trigger] t[j]) is Phi,
        forall|k: int| 0 <= k < idx.len() ==> #[trigger] t[p + k] == rename_seq(s[idx[k]], rss[k]),
        has_terminator(s),
        0 <= k0 < idx.len(),
        idx[k0] == first_terminator(s),
        forall|k: int| 0 <= k < k0 ==> 0 <= #[trigger] idx[k] < idx[k0],
    ensures
        has_terminator(t),
        block_succ(t) == block_succ(s),
{
    let q0 = first_terminator(s);
    lemma_first_terminator_exists(s, 0);
    let j0 = p + k0;
    lemma_rename_seq_succ(s[q0], rss[k0]);
    assert(t[p + k0] == rename_seq(s[idx[k0]], rss[k0]));
    assert forall|j: int| 0 <= j < j0 implies !(#[trigger] t[j].is_terminator()) by {
        if j >= p {
            let k = j - p;
            assert(0 <= idx[k] < q0);
            assert(!s[idx[k]].is_terminator());
            assert(t[p + k] == rename_seq(s[idx[k]], rss[k]));
            lemma_rename_seq_succ(s[idx[k]], rss[k]);
        } else {
            assert(t[j] is Phi);
        }
    }
    lemma_first_terminator(t, j0);
}

/// A block ordered from a terminated block is terminated, with the same out-edges.
proof fn lemma_ordered_succ(f: FuncView, a: Var, g: FuncView, y: int)
    requires
        ordered_from(f, a, g),
        0 <= y < f.len(),
        has_terminator(f[y].1),
    ensures
        has_terminator(g[y].1),
        block_succ(g[y].1) == block_succ(f[y].1),
{
    assert(block_ordered(f, a, g, y));
    let (p, idx, rss) = choose|p: int, idx: Seq<int>, rss: Seq<Seq<(Var, Operand)>>|
        #[trigger] ordered_block(f, a, g, y, p, idx, rss);
    let t = g[y].1;
    assert forall|j: int| 0 <= j < p implies (#[trigger] t[j]) is Phi by {}
    assert forall|k: int| 0 <= k < idx.len() implies #[trigger] t[p + k] == rename_seq(f[y].1[idx[k]], rss[k]) by {
        assert(crate::idem::slot_renames(f, a, rss[k]));
    }
    let sf = f[y].1;
    let q0 = first_terminator(sf);
    lemma_first_terminator_exists(sf, 0);
    assert(!slot_position(sf[q0], a));
    assert(idx.contains(q0));
    let k0 = choose|k: int| 0 <= k < idx.len() && idx[k] == q0;
    assert forall|k: int| 0 <= k < k0 implies 0 <= #[trigger] idx[k] < idx[k0] by {}
    lemma_seq_succ(sf, t, p, idx, rss, k0);
}

/// The blocks of `g` have the labels and out-edges of the blocks of `f`.
pub open spec fn same_cfg(f: FuncView, g: FuncView) -> bool {
    &&& g.len() == f.len()
    &&& forall|y: int| 0 <= y < f.len() ==> (#[trigger] g[y]).0 == f[y].0
    &&& forall|y: int| 0 <= y < f.len() ==> has_terminator(#[trigger] g[y].1)
    &&& forall|y: int| 0 <= y < f.len() ==> #[trigger] block_succ(g[y].1) == block_succ(f[y].1)
}

proof fn lemma_cfg_inv(f0: FuncView, df: Seq<(Block, Vec<Block>)>, slots: Seq<Var>, k: int)
    requires
        func_wf(f0),
        frontend_form(f0),
        has_label(f0, Block(0)),
        all_reachable(succ_table(f0), f0.len() as int, label_pos(f0, Block(0))),
        is_slot_list(f0, slots),
        0 <= k <= slots.len(),
    ensures
        same_cfg(f0, promote_upto(f0, succ_table(f0), df, slots, k)),
    decreases k,
{
    let succ0 = succ_table(f0);
    if k > 0 {
        lemma_cfg_inv(f0, df, slots, k - 1);
        lemma_promoted_inv(f0, df, slots, k - 1);
        let fk = promote_upto(f0, succ0, df, slots, k - 1);
        let a = slots[k - 1];
        let g = promote(fk, succ0, df, a);
        assert(g == promote_upto(f0, succ0, df, slots, k));
        assert(slots.contains(a));
        assert(has_alloca(f0, a));
        if stores_of(fk, a).len() > 0 {
            if stores_of(fk, a).len() == 1 {
                lemma_single_ordered(fk, a);
            } else {
                assert forall|d: Var| #[trigger] crate::elim::loaded_from(fk, a, d) implies d != a by {
                    let (y, q) = choose|y: int, q: int| 0 <= y < fk.len() && 0 <= q < fk[y].1.len() && #[trigger] fk[y].1[q] == (InstView::Load { dist: d, op1: Operand::Var(a) });
                    assert(has_load(fk, d, Operand::Var(a)));
                    assert(has_load(f0, d, Operand::Var(a)));
                }
                let c = ctx_of(fk, succ0, df, a);
                let ew = choose|p: int| 0 <= p < f0.len() && (#[trigger] f0[p]).0 == Block(0);
                lemma_label_pos(f0, ew);
                assert(fk[ew].0 == Block(0));
                assert(labels_increasing(fk)) by {
                    assert forall|i: int, j: int| 0 <= i < j < fk.len() implies (#[trigger] fk[i]).0.0 < (#[trigger] fk[j]).0.0 by {
                        assert(f0[i].0.0 < f0[j].0.0);
                    }
                }
                lemma_label_pos(fk, ew);
                assert(ctx_wf(c)) by {
                    assert forall|x: int, q: int| 0 <= x < c.f.len() && 0 <= q < c.succ[x].len() implies 0 <= #[trigger] c.succ[x][q] < c.f.len() by {
                        let b = block_succ(f0[x].1)[q];
                        assert(has_label(f0, b));
                        let p = choose|p: int| 0 <= p < f0.len() && (#[trigger] f0[p]).0 == b;
                        lemma_label_pos(f0, p);
                    }
                }
                assert(has_label(fk, Block(0)));
                lemma_multi_ordered(c);
            }
            assert forall|y: int| 0 <= y < f0.len() implies has_terminator(#[trigger] g[y].1)
                && block_succ(g[y].1) == block_succ(f0[y].1) by {
                assert(has_terminator(fk[y].1));
                lemma_ordered_succ(fk, a, g, y);
            }
            assert forall|y: int| 0 <= y < f0.len() implies #[trigger] block_succ(g[y].1) == block_succ(f0[y].1) by {
                assert(has_terminator(g[y].1));
            }
        }
    }
}

proof fn lemma_same_cfg_preds(f: FuncView, g: FuncView, b: Block, n: int)
    requires
        same_cfg(f, g),
        0 <= n <= f.len(),
    ensures
        preds_upto(g, b, n) == preds_upto(f, b, n),
    decreases n,
{
    if n > 0 {
        lemma_same_cfg_preds(f, g, b, n - 1);
        assert(block_succ(g[n - 1].1) == block_succ(f[n - 1].1));
    }
}

/// Promoting a function in the front end's form keeps its control-flow graph: the
/// result is well formed, every block keeps its label and out-edges, and every
/// block has the predecessors it had. So promotion can run again on its result.
pub proof fn lemma_mem2reg_keeps_cfg(f: FuncView, df: Seq<(Block, Vec<Block>)>)
    requires
        func_wf(f),
        frontend_form(f),
        has_label(f, Block(0)),
        all_reachable(succ_table(f), f.len() as int, label_pos(f, Block(0))),
    ensures
        same_cfg(f, mem2reg_spec(f, df)),
        func_wf(mem2reg_spec(f, df)),
        forall|b: Block| #[trigger] preds_of(mem2reg_spec(f, df), b) == preds_of(f, b),
{
    lemma_slot_list_exists(f);
    let s0 = slots_of(f);
    lemma_cfg_inv(f, df, s0, s0.len() as int);
    let g = mem2reg_spec(f, df);
    assert(labels_increasing(g)) by {
        assert forall|i: int, j: int| 0 <= i < j < g.len() implies (#[trigger] g[i]).0.0 < (#[trigger] g[j]).0.0 by {
            assert(f[i].0.0 < f[j].0.0);
        }
    }
    assert forall|i: int, k: int|
        0 <= i < g.len() && 0 <= k < block_succ(g[i].1).len() implies has_label(g, #[trigger] block_succ(g[i].1)[k]) by {
        assert(block_succ(g[i].1) == block_succ(f[i].1));
        let b = block_succ(f[i].1)[k];
        assert(has_label(f, b));
        let p = choose|p: int| 0 <= p < f.len() && (#[trigger] f[p]).0 == b;
        assert(g[p].0 == b);
    }
    assert forall|b: Block| #[trigger] preds_of(g, b) == preds_of(f, b) by {
        lemma_same_cfg_preds(f, g, b, f.len() as int);
    }
}

/// Running `mem2reg` a second time, with the same frontiers, on the result of a
/// first run is allowed (the result is well formed) and changes nothing.
pub proof fn lemma_mem2reg_again(f: FuncView, df: Seq<(Block, Vec<Block>)>)
    requires
        func_wf(f),
        frontend_form(f),
        has_label(f, Block(0)),
        all_reachable(succ_table(f), f.len() as int, label_pos(f, Block(0))),
    ensures
        func_wf(mem2reg_spec(f, df)),
        mem2reg_spec(f, df).len() == f.len(),
        mem2reg_spec(mem2reg_spec(f, df), df) == mem2reg_spec(f, df),
{
    lemma_mem2reg_keeps_cfg(f, df);
    crate::idem::lemma_mem2reg_idempotent(f, df);
}

proof fn lemma_rename_seq_keys(i: InstView, rs: Seq<(Var, Operand)>)
    requires
        i is Phi,
    ensures
        rename_seq(i, rs) is Phi,
        keys(rename_seq(i, rs)->incomes) == keys(i->incomes),
    decreases rs.len(),
{
    if rs.len() > 0 {
        lemma_rename_seq_keys(i, rs.drop_last());
        let j = rename_seq(i, rs.drop_last());
        assert(keys(j.rename(rs.last().0, rs.last().1)->incomes) =~= keys(j->incomes));
    }
}

/// The labels of the predecessors of the block at position `y` of `f`.
pub open spec fn pred_labels(f: FuncView, y: int) -> Set<Block> {
    Set::new(
        |l: Block|
            exists|x: int| 0 <= x < f.len() && f[x].0 == l && #[trigger] block_succ(f[x].1).contains(f[y].0),
    )
}

/// Every `Phi` of `g`, in the block at position `y`, has one income per label of
/// `pred_labels(f0, y)`, in label order.
pub open spec fn phis_ok(f0: FuncView, g: FuncView) -> bool {
    forall|y: int, j: int|
        0 <= y < g.len() && 0 <= j < g[y].1.len() && (#[trigger] g[y].1[j]) is Phi ==> keys_increasing(
            g[y].1[j]->incomes,
        ) && keys(g[y].1[j]->incomes).to_set() == pred_labels(f0, y)
}

proof fn lemma_single_exact(f: FuncView, a: Var, y: int, j: int)
    requires
        stores_of(f, a).len() == 1,
        0 <= y < f.len(),
        0 <= j < promote_single(f, a)[y].1.len(),
    ensures
        exists|q: int, rs: Seq<(Var, Operand)>|
            0 <= q < f[y].1.len() && #[trigger] promote_single(f, a)[y].1[j] == rename_seq(f[y].1[q], rs),
{
    let v = stores_of(f, a)[0];
    let stripped = f.map_values(|p: (Block, Seq<InstView>)| (p.0, crate::mem2reg::strip_slot(p.1, a, true)));
    let r1 = rename_func(stripped, a, v);
    let ds = crate::mem2reg::loads_of(f, a);
    crate::idem::lemma_rename_each_len(r1, ds, v, y);
    crate::idem::lemma_rename_each_elem(r1, ds, v, y, j);
    crate::idem::lemma_strip_elem(f[y].1, a, true, j);
    let q = choose|q: int| 0 <= q < f[y].1.len() && (true ==> !slot_position(f[y].1[q], a))
        && !crate::mem2reg::is_alloca_of(f[y].1[q], a) && !crate::mem2reg::is_store_to(f[y].1[q], a)
        && #[trigger] crate::mem2reg::strip_slot(f[y].1, a, true)[j] == f[y].1[q];
    let tail = ds.map_values(|d: Var| (d, v));
    crate::idem::lemma_rename_seq_prepend(f[y].1[q], (a, v), tail);
    assert(r1[y].1[j] == f[y].1[q].rename(a, v));
}

proof fn lemma_pred_labels(f0: FuncView, fk: FuncView, succ0: Seq<Seq<int>>, df: Seq<(Block, Vec<Block>)>, a: Var, y: int)
    requires
        func_wf(f0),
        succ0 == succ_table(f0),
        fk.len() == f0.len(),
        forall|i: int| 0 <= i < f0.len() ==> (#[trigger] fk[i]).0 == f0[i].0,
        0 <= y < f0.len(),
    ensures
        preds_set(ctx_of(fk, succ0, df, a), y) == pred_labels(f0, y),
{
    let c = ctx_of(fk, succ0, df, a);
    assert forall|l: Block| preds_set(c, y).contains(l) <==> pred_labels(f0, y).contains(l) by {
        if preds_set(c, y).contains(l) {
            let x = choose|x: int| 0 <= x < c.f.len() && c.succ[x].contains(y) && c.f[x].0 == l;
            let t = choose|t: int| 0 <= t < c.succ[x].len() && c.succ[x][t] == y;
            let b = block_succ(f0[x].1)[t];
            assert(has_label(f0, b));
            let p = choose|p: int| 0 <= p < f0.len() && (#[trigger] f0[p]).0 == b;
            lemma_label_pos(f0, p);
            assert(f0[y].0 == b);
            assert(block_succ(f0[x].1).contains(f0[y].0));
        }
        if pred_labels(f0, y).contains(l) {
            let x = choose|x: int| 0 <= x < f0.len() && f0[x].0 == l && #[trigger] block_succ(f0[x].1).contains(f0[y].0);
            let t = choose|t: int| 0 <= t < block_succ(f0[x].1).len() && block_succ(f0[x].1)[t] == f0[y].0;
            lemma_label_pos(f0, y);
            assert(c.succ[x][t] == y);
            assert(c.succ[x].contains(y));
        }
    }
    assert(preds_set(c, y) =~= pred_labels(f0, y));
}

proof fn lemma_keys_transfer(r: Seq<(Block, Operand)>, w: Seq<(Block, Operand)>)
    requires
        keys(r) == keys(w),
        keys_increasing(w),
    ensures
        keys_increasing(r),
        keys(r).to_set() == keys(w).to_set(),
{
    assert(r.len() == keys(r).len() && w.len() == keys(w).len());
    assert forall|i1: int, i2: int| 0 <= i1 < i2 < r.len() implies (#[trigger] r[i1]).0.0 < (#[trigger] r[i2]).0.0 by {
        assert(keys(r)[i1] == r[i1].0 && keys(r)[i2] == r[i2].0);
        assert(keys(w)[i1] == w[i1].0 && keys(w)[i2] == w[i2].0);
    }
}

proof fn lemma_phis_single_step(f0: FuncView, fk: FuncView, a: Var)
    requires
        phis_ok(f0, fk),
        stores_of(fk, a).len() == 1,
    ensures
        phis_ok(f0, promote_single(fk, a)),
{
    let g = promote_single(fk, a);
    crate::idem::lemma_rename_each_len(
        rename_func(fk.map_values(|p: (Block, Seq<InstView>)| (p.0, crate::mem2reg::strip_slot(p.1, a, true))), a, stores_of(fk, a)[0]),
        crate::mem2reg::loads_of(fk, a), stores_of(fk, a)[0], 0);
    assert forall|y: int, j: int|
        0 <= y < g.len() && 0 <= j < g[y].1.len() && (#[trigger] g[y].1[j]) is Phi implies keys_increasing(
        g[y].1[j]->incomes) && keys(g[y].1[j]->incomes).to_set() == pred_labels(f0, y) by {
        lemma_single_exact(fk, a, y, j);
        let (q, rs) = choose|q: int, rs: Seq<(Var, Operand)>|
            0 <= q < fk[y].1.len() && #[trigger] promote_single(fk, a)[y].1[j] == rename_seq(fk[y].1[q], rs);
        crate::idem::lemma_rename_seq_variant(fk[y].1[q], rs);
        assert(fk[y].1[q] is Phi);
        lemma_rename_seq_keys(fk[y].1[q], rs);
        lemma_keys_transfer(g[y].1[j]->incomes, fk[y].1[q]->incomes);
    }
}

#[verifier::rlimit(60)]
proof fn lemma_phis_multi_step(f0: FuncView, fk: FuncView, df: Seq<(Block, Vec<Block>)>, a: Var)
    requires
        func_wf(f0),
        phis_ok(f0, fk),
        fk.len() == f0.len(),
        forall|i: int| 0 <= i < f0.len() ==> (#[trigger] fk[i]).0 == f0[i].0,
        ctx_wf(ctx_of(fk, succ_table(f0), df, a)),
        has_label(fk, Block(0)),
        all_reachable(succ_table(f0), fk.len() as int, label_pos(fk, Block(0))),
    ensures
        phis_ok(f0, crate::mem2reg::promote_multi(ctx_of(fk, succ_table(f0), df, a))),
{
    let succ0 = succ_table(f0);
    let c = ctx_of(fk, succ0, df, a);
    let g = crate::mem2reg::promote_multi(c);
    crate::phi::lemma_walk_visits_all(c);
    let st = crate::mem2reg::walk(c);
    let st0 = crate::mem2reg::walk_start(fk.len() as int);
    assert(crate::elim::walk_shaped(c, st0));
    crate::elim::lemma_visit_shaped(c, fk.len(), label_pos(fk, Block(0)), Operand::Var(a), st0);
    let joined = crate::mem2reg::assemble(fk, c.sched, a, st);
    crate::idem::lemma_rename_loads_len(joined, st.loads, 0);
    assert forall|y: int, j: int|
        0 <= y < g.len() && 0 <= j < g[y].1.len() && (#[trigger] g[y].1[j]) is Phi implies keys_increasing(
        g[y].1[j]->incomes) && keys(g[y].1[j]->incomes).to_set() == pred_labels(f0, y) by {
        crate::idem::lemma_rename_loads_len(joined, st.loads, y);
        crate::idem::lemma_rename_loads_elem(joined, st.loads, y, j);
        let phis: Seq<InstView> = if c.sched[y] {
            seq![InstView::Phi { dist: a, incomes: st.incomes[y] }]
        } else {
            Seq::empty()
        };
        assert(st.visited[y]);
        let cu = choose|cu: Operand| st.bodies[y] == crate::mem2reg::rename_block(fk[y].1, a, cu).0;
        assert(joined[y].1 == phis + st.bodies[y]);
        let r = g[y].1[j]->incomes;
        if j < phis.len() {
            crate::phi::lemma_phi_incomes_are_preds(c, y);
            lemma_pred_labels(f0, fk, succ0, df, a, y);
            lemma_rename_seq_keys(joined[y].1[j], st.loads);
            lemma_keys_transfer(r, st.incomes[y]);
        } else {
            let (idx, cs) = crate::ssa::lemma_rename_block_index(fk[y].1, a, cu);
            let kk = j - phis.len();
            assert(joined[y].1[j] == st.bodies[y][kk]);
            let base = fk[y].1[idx[kk]];
            assert(st.bodies[y][kk] == base.rename(a, cs[kk]));
            crate::idem::lemma_rename_seq_prepend(base, (a, cs[kk]), st.loads);
            let rs = seq![(a, cs[kk])] + st.loads;
            crate::idem::lemma_rename_seq_variant(base, rs);
            assert(base is Phi);
            lemma_rename_seq_keys(base, rs);
            lemma_keys_transfer(r, base->incomes);
        }
    }
}

proof fn lemma_phis_inv(f0: FuncView, df: Seq<(Block, Vec<Block>)>, slots: Seq<Var>, k: int)
    requires
        func_wf(f0),
        frontend_form(f0),
        has_label(f0, Block(0)),
        all_reachable(succ_table(f0), f0.len() as int, label_pos(f0, Block(0))),
        is_slot_list(f0, slots),
        phis_ok(f0, f0),
        0 <= k <= slots.len(),
    ensures
        phis_ok(f0, promote_upto(f0, succ_table(f0), df, slots, k)),
    decreases k,
{
    let succ0 = succ_table(f0);
    if k > 0 {
        lemma_phis_inv(f0, df, slots, k - 1);
        lemma_promoted_inv(f0, df, slots, k - 1);
        let fk = promote_upto(f0, succ0, df, slots, k - 1);
        let a = slots[k - 1];
        let g = promote(fk, succ0, df, a);
        assert(g == promote_upto(f0, succ0, df, slots, k));
        let n = stores_of(fk, a).len();
        if n == 1 {
            lemma_phis_single_step(f0, fk, a);
        } else if n > 1 {
            let c = ctx_of(fk, succ0, df, a);
            let ew = choose|p: int| 0 <= p < f0.len() && (#[trigger] f0[p]).0 == Block(0);
            lemma_label_pos(f0, ew);
            assert(fk[ew].0 == Block(0));
            assert(labels_increasing(fk)) by {
                assert forall|i: int, j: int| 0 <= i < j < fk.len() implies (#[trigger] fk[i]).0.0 < (#[trigger] fk[j]).0.0 by {
                    assert(f0[i].0.0 < f0[j].0.0);
                }
            }
            lemma_label_pos(fk, ew);
            assert(ctx_wf(c)) by {
                assert forall|x: int, q: int| 0 <= x < c.f.len() && 0 <= q < c.succ[x].len() implies 0 <= #[trigger] c.succ[x][q] < c.f.len() by {
                    let b = block_succ(f0[x].1)[q];
                    assert(has_label(f0, b));
                    let p = choose|p: int| 0 <= p < f0.len() && (#[trigger] f0[p]).0 == b;
                    lemma_label_pos(f0, p);
                }
            }
            assert(has_label(fk, Block(0)));
            lemma_phis_multi_step(f0, fk, df, a);
        }
    }
}

/// No instruction of `f` is a `Phi`.
pub open spec fn no_phis(f: FuncView) -> bool {
    forall|y: int, j: int| 0 <= y < f.len() && 0 <= j < f[y].1.len() ==> !((#[trigger] f[y].1[j]) is Phi)
}

proof fn lemma_preds_upto_contains(f: FuncView, b: Block, n: int, l: Block)
    requires
        0 <= n <= f.len(),
    ensures
        preds_upto(f, b, n).contains(l) <==> exists|x: int|
            0 <= x < n && f[x].0 == l && #[trigger] block_succ(f[x].1).contains(b),
    decreases n,
{
    if n > 0 {
        lemma_preds_upto_contains(f, b, n - 1, l);
        let r = preds_upto(f, b, n - 1);
        if block_succ(f[n - 1].1).contains(b) {
            let e = r.push(f[n - 1].0);
            if e.contains(l) && !r.contains(l) {
                assert(e[e.len() - 1] == l);
            }
            if r.contains(l) {
                let i = choose|i: int| 0 <= i < r.len() && r[i] == l;
                assert(e[i] == l);
            }
            if f[n - 1].0 == l {
                assert(e[e.len() - 1] == l);
            }
        }
    }
}

/// Every `Phi` of the promotion of a function in the front end's form, which has
/// no `Phi` yet, has one income per predecessor of its block in the promoted
/// function, in label order.
pub proof fn lemma_mem2reg_phi_preds(f: FuncView, df: Seq<(Block, Vec<Block>)>)
    requires
        func_wf(f),
        frontend_form(f),
        no_phis(f),
        has_label(f, Block(0)),
        all_reachable(succ_table(f), f.len() as int, label_pos(f, Block(0))),
    ensures
        forall|y: int, j: int|
            0 <= y < mem2reg_spec(f, df).len() && 0 <= j < mem2reg_spec(f, df)[y].1.len()
                && (#[trigger] mem2reg_spec(f, df)[y].1[j]) is Phi ==> keys_increasing(
                mem2reg_spec(f, df)[y].1[j]->incomes,
            ) && keys(mem2reg_spec(f, df)[y].1[j]->incomes).to_set() == preds_of(
                mem2reg_spec(f, df),
                mem2reg_spec(f, df)[y].0,
            ).to_set(),
{
    lemma_slot_list_exists(f);
    let s0 = slots_of(f);
    assert(phis_ok(f, f));
    lemma_phis_inv(f, df, s0, s0.len() as int);
    lemma_mem2reg_keeps_cfg(f, df);
    let g = mem2reg_spec(f, df);
    assert forall|y: int, j: int|
        0 <= y < g.len() && 0 <= j < g[y].1.len() && (#[trigger] g[y].1[j]) is Phi implies keys_increasing(
        g[y].1[j]->incomes) && keys(g[y].1[j]->incomes).to_set() == preds_of(g, g[y].0).to_set() by {
        assert(preds_of(g, g[y].0) == preds_of(f, f[y].0));
        assert forall|l: Block| preds_of(f, f[y].0).to_set().contains(l) <==> pred_labels(f, y).contains(l) by {
            lemma_preds_upto_contains(f, f[y].0, f.len() as int, l);
        }
        assert(preds_of(f, f[y].0).to_set() =~= pred_labels(f, y));
    }
}

} // verus!
