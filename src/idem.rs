//! Promotion run twice is promotion run once, on functions as the front end emits
//! them: every promoted slot loses its stores, and nothing else gains one.
use vstd::prelude::*;

use crate::elim::{
    lemma_rename_block_shape, lemma_visit_shaped, loaded_from, loads_are_values, slot_gone,
    slot_position, walk_shaped,
};
use crate::func::{FuncView, func_wf, has_label, labels_increasing, labels_sorted, rename_func};
use crate::inst::{Block, InstView, Operand, Var};
use crate::mem2reg::{
    RenameCtx, assemble, ctx_of, is_alloca_of, is_load_from, is_store_to, loads_of, loads_upto,
    block_loads, block_stores, has_alloca, mem2reg_spec, promote, promote_multi, promote_single, promote_upto,
    rename_each, rename_loads, slots_of, stores_of, stores_upto, strip_slot, succ_table, walk,
    walk_start,
};
use crate::phi::{all_reachable, ctx_wf, lemma_walk_visits_all};
use crate::dom::{label_pos, lemma_label_pos};

verus! {

/// `i` renamed by each pair of `rs` in turn.
pub open spec fn rename_seq(i: InstView, rs: Seq<(Var, Operand)>) -> InstView
    decreases rs.len(),
{
    if rs.len() == 0 {
        i
    } else {
        rename_seq(i, rs.drop_last()).rename(rs.last().0, rs.last().1)
    }
}

/// Renamings whose renamed values stand in no slot position of `i` keep each kind
/// of slot position of `i`.
proof fn lemma_rename_seq_slots(i: InstView, rs: Seq<(Var, Operand)>, x: Var)
    requires
        forall|t: int| 0 <= t < rs.len() ==> !slot_position(i, (#[trigger] rs[t]).0),
    ensures
        is_alloca_of(rename_seq(i, rs), x) == is_alloca_of(i, x),
        is_store_to(rename_seq(i, rs), x) == is_store_to(i, x),
        is_load_from(rename_seq(i, rs), x) == is_load_from(i, x),
    decreases rs.len(),
{
    if rs.len() > 0 {
        let d = rs.drop_last();
        assert forall|t: int| 0 <= t < d.len() implies !slot_position(i, (#[trigger] d[t]).0) by {
            assert(d[t] == rs[t]);
        }
        lemma_rename_seq_slots(i, d, x);
        let k = rs.last().0;
        assert(rs[rs.len() - 1] == rs.last());
        lemma_rename_seq_slots(i, d, k);
    }
}

/// A load whose value and address are not renamed stays as it is.
proof fn lemma_rename_seq_load(d: Var, op: Operand, rs: Seq<(Var, Operand)>)
    requires
        forall|t: int| 0 <= t < rs.len() ==> (#[trigger] rs[t]).0 != d && op != Operand::Var(rs[t].0),
    ensures
        rename_seq(InstView::Load { dist: d, op1: op }, rs) == (InstView::Load { dist: d, op1: op }),
    decreases rs.len(),
{
    if rs.len() > 0 {
        let dl = rs.drop_last();
        assert forall|t: int| 0 <= t < dl.len() implies (#[trigger] dl[t]).0 != d && op != Operand::Var(dl[t].0) by {
            assert(dl[t] == rs[t]);
        }
        lemma_rename_seq_load(d, op, dl);
        assert(rs[rs.len() - 1] == rs.last());
    }
}

pub(crate) proof fn lemma_rename_seq_prepend(i: InstView, p: (Var, Operand), rs: Seq<(Var, Operand)>)
    ensures
        rename_seq(i.rename(p.0, p.1), rs) == rename_seq(i, seq![p] + rs),
    decreases rs.len(),
{
    let s1 = seq![p] + rs;
    if rs.len() > 0 {
        lemma_rename_seq_prepend(i, p, rs.drop_last());
        assert(s1.drop_last() =~= seq![p] + rs.drop_last());
        assert(s1.last() == rs.last());
    } else {
        assert(s1.drop_last() =~= Seq::<(Var, Operand)>::empty());
        assert(s1.last() == p);
        assert(rename_seq(i, s1.drop_last()) == i);
    }
}

pub(crate) proof fn lemma_rename_each_elem(g: FuncView, ds: Seq<Var>, v: Operand, y: int, j: int)
    requires
        0 <= y < g.len(),
        0 <= j < g[y].1.len(),
    ensures
        rename_each(g, ds, v).len() == g.len(),
        rename_each(g, ds, v)[y].0 == g[y].0,
        rename_each(g, ds, v)[y].1.len() == g[y].1.len(),
        rename_each(g, ds, v)[y].1[j] == rename_seq(g[y].1[j], ds.map_values(|d: Var| (d, v))),
    decreases ds.len(),
{
    if ds.len() > 0 {
        lemma_rename_each_elem(g, ds.drop_last(), v, y, j);
        assert(ds.map_values(|d: Var| (d, v)).drop_last() =~= ds.drop_last().map_values(|d: Var| (d, v)));
    } else {
        assert(ds.map_values(|d: Var| (d, v)) =~= Seq::<(Var, Operand)>::empty());
    }
}

pub(crate) proof fn lemma_rename_loads_elem(g: FuncView, loads: Seq<(Var, Operand)>, y: int, j: int)
    requires
        0 <= y < g.len(),
        0 <= j < g[y].1.len(),
    ensures
        rename_loads(g, loads).len() == g.len(),
        rename_loads(g, loads)[y].0 == g[y].0,
        rename_loads(g, loads)[y].1.len() == g[y].1.len(),
        rename_loads(g, loads)[y].1[j] == rename_seq(g[y].1[j], loads),
    decreases loads.len(),
{
    if loads.len() > 0 {
        lemma_rename_loads_elem(g, loads.drop_last(), y, j);
    }
}

/// The renamings promotion of `a` may apply: `a` itself, and values loaded from `a`.
pub open spec fn slot_renames(f: FuncView, a: Var, rs: Seq<(Var, Operand)>) -> bool {
    forall|t: int| 0 <= t < rs.len() ==> (#[trigger] rs[t]).0 == a || loaded_from(f, a, rs[t].0)
}

/// Each instruction of `g` is a `Phi`, or an instruction of the same block of `f`
/// outside the slot positions of `a`, renamed by renamings of promotion of `a`.
pub open spec fn from_slot_rename(f: FuncView, a: Var, g: FuncView) -> bool {
    &&& g.len() == f.len()
    &&& forall|y: int| 0 <= y < f.len() ==> (#[trigger] g[y]).0 == f[y].0
    &&& forall|y: int, j: int|
        0 <= y < f.len() && 0 <= j < g[y].1.len() ==> (#[trigger] g[y].1[j]) is Phi || exists|
            q: int,
            rs: Seq<(Var, Operand)>,
        |
            0 <= q < f[y].1.len() && !slot_position(f[y].1[q], a) && slot_renames(f, a, rs)
                && g[y].1[j] == rename_seq(f[y].1[q], rs)
}

pub(crate) proof fn lemma_loads_upto_source(f: FuncView, a: Var, n: int, k: int)
    requires
        0 <= n <= f.len(),
        0 <= k < loads_upto(f, a, n).len(),
    ensures
        loaded_from(f, a, loads_upto(f, a, n)[k]),
    decreases n,
{
    let prev = loads_upto(f, a, n - 1);
    if k < prev.len() {
        lemma_loads_upto_source(f, a, n - 1, k);
    } else {
        assert(f[n - 1].1.take(f[n - 1].1.len() as int) == f[n - 1].1);
        lemma_block_loads_source(f, a, n - 1, f[n - 1].1.len() as int, k - prev.len());
    }
}

proof fn lemma_block_loads_source(f: FuncView, a: Var, y: int, m: int, k: int)
    requires
        0 <= y < f.len(),
        0 <= m <= f[y].1.len(),
        0 <= k < block_loads(f[y].1.take(m), a).len(),
    ensures
        loaded_from(f, a, block_loads(f[y].1.take(m), a)[k]),
    decreases m,
{
    let s = f[y].1.take(m);
    assert(s.drop_last() == f[y].1.take(m - 1));
    let r = block_loads(s.drop_last(), a);
    if k < r.len() {
        lemma_block_loads_source(f, a, y, m - 1, k);
    } else {
        assert(s.last() == f[y].1[m - 1]);
        assert(f[y].1[m - 1] == (InstView::Load { dist: block_loads(s, a)[k], op1: Operand::Var(a) }));
    }
}

pub(crate) proof fn lemma_strip_elem(s: Seq<InstView>, a: Var, loads: bool, j: int)
    requires
        0 <= j < strip_slot(s, a, loads).len(),
    ensures
        exists|q: int| 0 <= q < s.len() && (loads ==> !slot_position(s[q], a)) && !is_alloca_of(s[q], a)
            && !is_store_to(s[q], a) && #[trigger] strip_slot(s, a, loads)[j] == s[q],
    decreases s.len(),
{
    let r = strip_slot(s.drop_last(), a, loads);
    if j < r.len() {
        lemma_strip_elem(s.drop_last(), a, loads, j);
        let q = choose|q: int| 0 <= q < s.drop_last().len() && (loads ==> !slot_position(s.drop_last()[q], a))
            && !is_alloca_of(s.drop_last()[q], a) && !is_store_to(s.drop_last()[q], a) && #[trigger] strip_slot(s.drop_last(), a, loads)[j] == s.drop_last()[q];
        assert(s[q] == s.drop_last()[q]);
        assert(strip_slot(s, a, loads)[j] == r[j]);
    } else {
        assert(s[s.len() - 1] == s.last());
    }
}

/// Promotion of a slot stored once has the shape of [`from_slot_rename`].
proof fn lemma_single_shape(f: FuncView, a: Var)
    requires
        stores_of(f, a).len() == 1,
    ensures
        from_slot_rename(f, a, promote_single(f, a)),
{
    let v = stores_of(f, a)[0];
    let stripped = f.map_values(|p: (Block, Seq<InstView>)| (p.0, strip_slot(p.1, a, true)));
    let r1 = rename_func(stripped, a, v);
    let ds = loads_of(f, a);
    let g = promote_single(f, a);
    assert forall|y: int| 0 <= y < f.len() implies (#[trigger] g[y]).0 == f[y].0 by {
        if r1[y].1.len() > 0 {
            lemma_rename_each_elem(r1, ds, v, y, 0);
        } else {
            lemma_rename_each_len(r1, ds, v, y);
        }
    }
    lemma_rename_each_len(r1, ds, v, 0);
    assert forall|y: int, j: int| 0 <= y < f.len() && 0 <= j < g[y].1.len() implies (#[trigger] g[y].1[j]) is Phi || exists|
        q: int,
        rs: Seq<(Var, Operand)>,
    | 0 <= q < f[y].1.len() && !slot_position(f[y].1[q], a) && slot_renames(f, a, rs) && g[y].1[j] == rename_seq(f[y].1[q], rs) by {
        lemma_rename_each_len(r1, ds, v, y);
        lemma_rename_each_elem(r1, ds, v, y, j);
        lemma_strip_elem(f[y].1, a, true, j);
        let q = choose|q: int| 0 <= q < f[y].1.len() && (true ==> !slot_position(f[y].1[q], a)) && !is_alloca_of(f[y].1[q], a)
            && !is_store_to(f[y].1[q], a) && #[trigger] strip_slot(f[y].1, a, true)[j] == f[y].1[q];
        let tail = ds.map_values(|d: Var| (d, v));
        lemma_rename_seq_prepend(f[y].1[q], (a, v), tail);
        let rs = seq![(a, v)] + tail;
        assert(slot_renames(f, a, rs)) by {
            assert forall|t: int| 0 <= t < rs.len() implies (#[trigger] rs[t]).0 == a || loaded_from(f, a, rs[t].0) by {
                if t > 0 {
                    assert(rs[t] == tail[t - 1]);
                    lemma_loads_upto_source(f, a, f.len() as int, t - 1);
                }
            }
        }
        assert(r1[y].1[j] == f[y].1[q].rename(a, v));
    }
}

pub(crate) proof fn lemma_rename_each_len(g: FuncView, ds: Seq<Var>, v: Operand, y: int)
    requires
        0 <= y < g.len(),
    ensures
        rename_each(g, ds, v).len() == g.len(),
        rename_each(g, ds, v)[y].0 == g[y].0,
        rename_each(g, ds, v)[y].1.len() == g[y].1.len(),
    decreases ds.len(),
{
    if ds.len() > 0 {
        lemma_rename_each_len(g, ds.drop_last(), v, y);
    }
}

pub(crate) proof fn lemma_rename_loads_len(g: FuncView, loads: Seq<(Var, Operand)>, y: int)
    requires
        0 <= y < g.len(),
    ensures
        rename_loads(g, loads).len() == g.len(),
        rename_loads(g, loads)[y].0 == g[y].0,
        rename_loads(g, loads)[y].1.len() == g[y].1.len(),
    decreases loads.len(),
{
    if loads.len() > 0 {
        lemma_rename_loads_len(g, loads.drop_last(), y);
    }
}

/// Promotion of a slot stored more than once, in a graph where every block is
/// reachable, has the shape of [`from_slot_rename`].
proof fn lemma_multi_shape(c: RenameCtx)
    requires
        ctx_wf(c),
        has_label(c.f, Block(0)),
        all_reachable(c.succ, c.f.len() as int, label_pos(c.f, Block(0))),
    ensures
        from_slot_rename(c.f, c.a, promote_multi(c)),
{
    let n = c.f.len();
    let a = c.a;
    let f = c.f;
    lemma_walk_visits_all(c);
    let st = walk(c);
    let st0 = walk_start(n as int);
    assert(walk_shaped(c, st0));
    lemma_visit_shaped(c, n, label_pos(c.f, Block(0)), Operand::Var(a), st0);
    let g = assemble(c.f, c.sched, a, st);
    let out = promote_multi(c);
    assert forall|y: int| 0 <= y < f.len() implies (#[trigger] out[y]).0 == f[y].0 by {
        lemma_rename_loads_len(g, st.loads, y);
    }
    lemma_rename_loads_len(g, st.loads, 0);
    assert forall|y: int, j: int| 0 <= y < f.len() && 0 <= j < out[y].1.len() implies (#[trigger] out[y].1[j]) is Phi || exists|
        q: int,
        rs: Seq<(Var, Operand)>,
    | 0 <= q < f[y].1.len() && !slot_position(f[y].1[q], a) && slot_renames(f, a, rs) && out[y].1[j] == rename_seq(f[y].1[q], rs) by {
        lemma_rename_loads_len(g, st.loads, y);
        lemma_rename_loads_elem(g, st.loads, y, j);
        let phis: Seq<InstView> = if c.sched[y] {
            seq![InstView::Phi { dist: a, incomes: st.incomes[y] }]
        } else {
            Seq::empty()
        };
        assert(st.visited[y]);
        let cu = choose|cu: Operand| st.bodies[y] == crate::mem2reg::rename_block(c.f[y].1, a, cu).0;
        lemma_rename_block_shape(c.f[y].1, a, cu);
        assert(g[y].1 == phis + st.bodies[y]);
        if j < phis.len() {
            assert(g[y].1[j] is Phi);
            assert(rename_seq(g[y].1[j], st.loads) is Phi) by {
                lemma_rename_seq_phi(g[y].1[j], st.loads);
            }
        } else {
            let k = j - phis.len();
            assert(g[y].1[j] == st.bodies[y][k]);
            let (q, c2) = choose|q: int, c2: Operand|
                0 <= q < c.f[y].1.len() && !slot_position(c.f[y].1[q], a) && #[trigger] crate::mem2reg::rename_block(c.f[y].1, a, cu).0[k]
                    == c.f[y].1[q].rename(a, c2);
            lemma_rename_seq_prepend(f[y].1[q], (a, c2), st.loads);
            let rs = seq![(a, c2)] + st.loads;
            assert(slot_renames(f, a, rs)) by {
                assert forall|t: int| 0 <= t < rs.len() implies (#[trigger] rs[t]).0 == a || loaded_from(f, a, rs[t].0) by {
                    if t > 0 {
                        assert(rs[t] == st.loads[t - 1]);
                    }
                }
            }
        }
    }
}

proof fn lemma_rename_seq_phi(i: InstView, rs: Seq<(Var, Operand)>)
    requires
        i is Phi,
    ensures
        rename_seq(i, rs) is Phi,
    decreases rs.len(),
{
    if rs.len() > 0 {
        lemma_rename_seq_phi(i, rs.drop_last());
    }
}

pub(crate) proof fn lemma_rename_seq_variant(i: InstView, rs: Seq<(Var, Operand)>)
    ensures
        (rename_seq(i, rs) is Load) == (i is Load),
        (rename_seq(i, rs) is Phi) == (i is Phi),
    decreases rs.len(),
{
    if rs.len() > 0 {
        lemma_rename_seq_variant(i, rs.drop_last());
    }
}

pub open spec fn has_store_to(f: FuncView, x: Var) -> bool {
    exists|i: int, j: int| 0 <= i < f.len() && 0 <= j < f[i].1.len() && #[trigger] is_store_to(f[i].1[j], x)
}

pub open spec fn has_load(f: FuncView, d: Var, op: Operand) -> bool {
    exists|i: int, j: int|
        0 <= i < f.len() && 0 <= j < f[i].1.len() && #[trigger] f[i].1[j] == (InstView::Load { dist: d, op1: op })
}

/// No load of `f` other than from `a` yields `a` or a value also loaded from `a`.
pub open spec fn loads_apart(f: FuncView, a: Var) -> bool {
    forall|d: Var, op: Operand|
        #[trigger] has_load(f, d, op) && op != Operand::Var(a) ==> d != a && !loaded_from(f, a, d)
}

/// What promotion of `a` keeps: no slot position of `a`, and no `Alloca`, store
/// or load that `f` lacks.
proof fn lemma_step(f: FuncView, a: Var, g: FuncView)
    requires
        from_slot_rename(f, a, g),
        loads_are_values(f, a),
        loads_apart(f, a),
    ensures
        slot_gone(g, a),
        forall|x: Var| #[trigger] has_alloca(g, x) ==> has_alloca(f, x),
        forall|x: Var| #[trigger] has_store_to(g, x) ==> has_store_to(f, x),
        forall|d: Var, op: Operand| #[trigger] has_load(g, d, op) ==> has_load(f, d, op),
{
    assert forall|y: int, j: int| 0 <= y < g.len() && 0 <= j < g[y].1.len() implies
        !slot_position(#[trigger] g[y].1[j], a) && (forall|x: Var| is_alloca_of(g[y].1[j], x) ==> has_alloca(f, x))
        && (forall|x: Var| is_store_to(g[y].1[j], x) ==> has_store_to(f, x))
        && (forall|d: Var, op: Operand| g[y].1[j] == (InstView::Load { dist: d, op1: op }) ==> has_load(f, d, op)) by {
        if !(g[y].1[j] is Phi) {
            let (q, rs) = choose|q: int, rs: Seq<(Var, Operand)>|
                0 <= q < f[y].1.len() && !slot_position(f[y].1[q], a) && slot_renames(f, a, rs)
                    && g[y].1[j] == rename_seq(f[y].1[q], rs);
            let i = f[y].1[q];
            assert forall|t: int| 0 <= t < rs.len() implies !slot_position(i, (#[trigger] rs[t]).0) by {
                if rs[t].0 != a {
                    assert(loaded_from(f, a, rs[t].0));
                }
            }
            lemma_rename_seq_slots(i, rs, a);
            assert forall|x: Var| is_alloca_of(g[y].1[j], x) implies has_alloca(f, x) by {
                lemma_rename_seq_slots(i, rs, x);
            }
            assert forall|x: Var| is_store_to(g[y].1[j], x) implies has_store_to(f, x) by {
                lemma_rename_seq_slots(i, rs, x);
            }
            assert forall|d: Var, op: Operand| g[y].1[j] == (InstView::Load { dist: d, op1: op }) implies has_load(f, d, op) by {
                lemma_rename_seq_variant(i, rs);
                let (d2, op2) = match i {
                    InstView::Load { dist, op1 } => (dist, op1),
                    _ => (d, op),
                };
                assert(i == (InstView::Load { dist: d2, op1: op2 }));
                assert(has_load(f, d2, op2));
                assert(op2 != Operand::Var(a));
                assert forall|t: int| 0 <= t < rs.len() implies (#[trigger] rs[t]).0 != d2 && op2 != Operand::Var(rs[t].0) by {
                    if op2 == Operand::Var(rs[t].0) {
                        assert(is_load_from(i, rs[t].0));
                    }
                }
                lemma_rename_seq_load(d2, op2, rs);
            }
        } else {
            assert forall|d: Var, op: Operand| g[y].1[j] == (InstView::Load { dist: d, op1: op }) implies has_load(f, d, op) by {}
        }
    }
    assert forall|x: Var| #[trigger] has_alloca(g, x) implies has_alloca(f, x) by {
        let (y, j) = choose|y: int, j: int| 0 <= y < g.len() && 0 <= j < g[y].1.len() && #[trigger] is_alloca_of(g[y].1[j], x);
    }
    assert forall|x: Var| #[trigger] has_store_to(g, x) implies has_store_to(f, x) by {
        let (y, j) = choose|y: int, j: int| 0 <= y < g.len() && 0 <= j < g[y].1.len() && #[trigger] is_store_to(g[y].1[j], x);
    }
    assert forall|d: Var, op: Operand| #[trigger] has_load(g, d, op) implies has_load(f, d, op) by {
        let (y, j) = choose|y: int, j: int| 0 <= y < g.len() && 0 <= j < g[y].1.len() && #[trigger] g[y].1[j] == (InstView::Load { dist: d, op1: op });
    }
}

proof fn lemma_block_stores_nonempty(s: Seq<InstView>, a: Var, j: int)
    requires
        0 <= j < s.len(),
        is_store_to(s[j], a),
    ensures
        block_stores(s, a).len() > 0,
    decreases s.len(),
{
    if j < s.len() - 1 {
        lemma_block_stores_nonempty(s.drop_last(), a, j);
    }
}

proof fn lemma_stores_upto_grows(f: FuncView, a: Var, m: int, n: int)
    requires
        0 <= m <= n <= f.len(),
    ensures
        stores_upto(f, a, m).len() <= stores_upto(f, a, n).len(),
    decreases n - m,
{
    if m < n {
        lemma_stores_upto_grows(f, a, m, n - 1);
    }
}

/// A slot that is stored to has a nonempty list of stored operands.
proof fn lemma_has_store(f: FuncView, a: Var)
    requires
        has_store_to(f, a),
    ensures
        stores_of(f, a).len() > 0,
{
    let (i, j) = choose|i: int, j: int| 0 <= i < f.len() && 0 <= j < f[i].1.len() && #[trigger] is_store_to(f[i].1[j], a);
    lemma_block_stores_nonempty(f[i].1, a, j);
    lemma_stores_upto_grows(f, a, i + 1, f.len() as int);
}

/// The form the front end gives a function: loads and stores address slots, no
/// loaded value is a slot, and a value is loaded from one address only.
pub open spec fn frontend_form(f: FuncView) -> bool {
    &&& forall|i: int, j: int, x: Var|
        0 <= i < f.len() && 0 <= j < f[i].1.len() && (#[trigger] is_store_to(f[i].1[j], x)) ==> has_alloca(f, x)
    &&& forall|i: int, j: int, x: Var|
        0 <= i < f.len() && 0 <= j < f[i].1.len() && (#[trigger] is_load_from(f[i].1[j], x)) ==> has_alloca(f, x)
    &&& forall|d: Var, op: Operand| #[trigger] has_load(f, d, op) ==> !has_alloca(f, d)
    &&& forall|d: Var, op1: Operand, op2: Operand|
        #[trigger] has_load(f, d, op1) && #[trigger] has_load(f, d, op2) ==> op1 == op2
}

/// `s` lists the slots of `f`, each once, in increasing order.
pub open spec fn is_slot_list(f: FuncView, s: Seq<Var>) -> bool {
    labels_sorted(s) && forall|v: Var| s.contains(v) <==> has_alloca(f, v)
}

/// What holds after promoting the first `k` slots of `f0`.
pub open spec fn promoted_inv(f0: FuncView, slots: Seq<Var>, k: int, fk: FuncView) -> bool {
    &&& fk.len() == f0.len()
    &&& forall|y: int| 0 <= y < f0.len() ==> (#[trigger] fk[y]).0 == f0[y].0
    &&& forall|x: Var| #[trigger] has_alloca(fk, x) ==> has_alloca(f0, x)
    &&& forall|x: Var| #[trigger] has_store_to(fk, x) ==> has_store_to(f0, x)
    &&& forall|d: Var, op: Operand| #[trigger] has_load(fk, d, op) ==> has_load(f0, d, op)
    &&& forall|t: int| 0 <= t < k ==> !has_store_to(fk, #[trigger] slots[t])
}

/// The facts promotion of the next slot rests on.
#[verifier::rlimit(40)]
pub(crate) proof fn lemma_step_facts(
    f0: FuncView,
    df: Seq<(Block, Vec<Block>)>,
    slots: Seq<Var>,
    k: int,
    fk: FuncView,
)
    requires
        func_wf(f0),
        frontend_form(f0),
        has_label(f0, Block(0)),
        all_reachable(succ_table(f0), f0.len() as int, label_pos(f0, Block(0))),
        is_slot_list(f0, slots),
        0 <= k < slots.len(),
        promoted_inv(f0, slots, k, fk),
        stores_of(fk, slots[k]).len() > 0,
    ensures
        from_slot_rename(fk, slots[k], promote(fk, succ_table(f0), df, slots[k])),
        keeps_others(fk, slots[k], promote(fk, succ_table(f0), df, slots[k])),
        loads_are_values(fk, slots[k]),
        loads_apart(fk, slots[k]),
{
    let succ0 = succ_table(f0);
    let a = slots[k];
    assert(slots.contains(a));
    assert(has_alloca(f0, a));
    let g = promote(fk, succ0, df, a);
    assert(labels_increasing(fk)) by {
        assert forall|i: int, j: int| 0 <= i < j < fk.len() implies (#[trigger] fk[i]).0.0 < (#[trigger] fk[j]).0.0 by {
            assert(f0[i].0.0 < f0[j].0.0);
        }
    }
    assert(loads_are_values(fk, a)) by {
        assert forall|d: Var, i: int, j: int|
            #[trigger] loaded_from(fk, a, d) && 0 <= i < fk.len() && 0 <= j < fk[i].1.len()
                implies !slot_position(#[trigger] fk[i].1[j], d) by {
            let (y, q) = choose|y: int, q: int| 0 <= y < fk.len() && 0 <= q < fk[y].1.len() && #[trigger] fk[y].1[q] == (InstView::Load { dist: d, op1: Operand::Var(a) });
            assert(has_load(fk, d, Operand::Var(a)));
            assert(has_load(f0, d, Operand::Var(a)));
            assert(!has_alloca(f0, d));
            let i0 = fk[i].1[j];
            if is_alloca_of(i0, d) {
                assert(has_alloca(fk, d));
            }
            if is_store_to(i0, d) {
                assert(has_store_to(fk, d));
                let (i1, j1) = choose|i1: int, j1: int| 0 <= i1 < f0.len() && 0 <= j1 < f0[i1].1.len() && #[trigger] is_store_to(f0[i1].1[j1], d);
            }
            if is_load_from(i0, d) {
                let d2 = i0.dist().unwrap();
                assert(i0 == (InstView::Load { dist: d2, op1: Operand::Var(d) }));
                assert(has_load(fk, d2, Operand::Var(d)));
                assert(has_load(f0, d2, Operand::Var(d)));
                let (i1, j1) = choose|i1: int, j1: int| 0 <= i1 < f0.len() && 0 <= j1 < f0[i1].1.len() && #[trigger] f0[i1].1[j1] == (InstView::Load { dist: d2, op1: Operand::Var(d) });
                assert(is_load_from(f0[i1].1[j1], d));
            }
        }
    }
    assert(loads_apart(fk, a)) by {
        assert forall|d: Var, op: Operand|
            #[trigger] has_load(fk, d, op) && op != Operand::Var(a) implies d != a && !loaded_from(fk, a, d) by {
            assert(has_load(f0, d, op));
            assert(!has_alloca(f0, d));
            if loaded_from(fk, a, d) {
                let (y, q) = choose|y: int, q: int| 0 <= y < fk.len() && 0 <= q < fk[y].1.len() && #[trigger] fk[y].1[q] == (InstView::Load { dist: d, op1: Operand::Var(a) });
                assert(has_load(fk, d, Operand::Var(a)));
                assert(has_load(f0, d, Operand::Var(a)));
            }
        }
    }
    if stores_of(fk, a).len() == 1 {
        lemma_single_shape(fk, a);
        lemma_single_keeps(fk, a);
    } else {
        let c = ctx_of(fk, succ0, df, a);
        let ew = choose|p: int| 0 <= p < f0.len() && (#[trigger] f0[p]).0 == Block(0);
        lemma_label_pos(f0, ew);
        assert(fk[ew].0 == Block(0));
        lemma_label_pos(fk, ew);
        assert(ctx_wf(c)) by {
            assert forall|x: int, q: int| 0 <= x < c.f.len() && 0 <= q < c.succ[x].len() implies 0 <= #[trigger] c.succ[x][q] < c.f.len() by {
                let b = crate::func::block_succ(f0[x].1)[q];
                assert(has_label(f0, b));
                let p = choose|p: int| 0 <= p < f0.len() && (#[trigger] f0[p]).0 == b;
                lemma_label_pos(f0, p);
            }
        }
        assert(has_label(fk, Block(0)));
        lemma_multi_shape(c);
        lemma_multi_keeps(c);
    }
}

pub(crate) proof fn lemma_promoted_inv(
    f0: FuncView,
    df: Seq<(Block, Vec<Block>)>,
    slots: Seq<Var>,
    k: int,
)
    requires
        func_wf(f0),
        frontend_form(f0),
        has_label(f0, Block(0)),
        all_reachable(succ_table(f0), f0.len() as int, label_pos(f0, Block(0))),
        is_slot_list(f0, slots),
        0 <= k <= slots.len(),
    ensures
        promoted_inv(f0, slots, k, promote_upto(f0, succ_table(f0), df, slots, k)),
    decreases k,
{
    let succ0 = succ_table(f0);
    if k > 0 {
        lemma_promoted_inv(f0, df, slots, k - 1);
        let fk = promote_upto(f0, succ0, df, slots, k - 1);
        let a = slots[k - 1];
        let g = promote(fk, succ0, df, a);
        assert(g == promote_upto(f0, succ0, df, slots, k));
        if stores_of(fk, a).len() == 0 {
            if has_store_to(fk, a) {
                lemma_has_store(fk, a);
            }
        } else {
            lemma_step_facts(f0, df, slots, k - 1, fk);
            lemma_step(fk, a, g);
            assert(!has_store_to(g, a)) by {
                if has_store_to(g, a) {
                    let (i, j) = choose|i: int, j: int| 0 <= i < g.len() && 0 <= j < g[i].1.len() && #[trigger] is_store_to(g[i].1[j], a);
                    assert(!slot_position(g[i].1[j], a));
                }
            }
        }
    }
}

/// Promoting a function in the front end's form twice is promoting it once: no
/// slot left after the first promotion is stored to, so the second changes nothing.
pub proof fn lemma_mem2reg_idempotent(f: FuncView, df: Seq<(Block, Vec<Block>)>)
    requires
        func_wf(f),
        frontend_form(f),
        has_label(f, Block(0)),
        all_reachable(succ_table(f), f.len() as int, label_pos(f, Block(0))),
    ensures
        mem2reg_spec(mem2reg_spec(f, df), df) == mem2reg_spec(f, df),
{
    lemma_slot_list_exists(f);
    let s0 = slots_of(f);
    let g = mem2reg_spec(f, df);
    lemma_promoted_inv(f, df, s0, s0.len() as int);
    lemma_slot_list_exists(g);
    let s1 = slots_of(g);
    lemma_identity_upto(g, succ_table(g), df, s1, s1.len() as int, f, s0);
}

proof fn lemma_identity_upto(
    g: FuncView,
    succ: Seq<Seq<int>>,
    df: Seq<(Block, Vec<Block>)>,
    s1: Seq<Var>,
    k: int,
    f: FuncView,
    s0: Seq<Var>,
)
    requires
        is_slot_list(g, s1),
        is_slot_list(f, s0),
        promoted_inv(f, s0, s0.len() as int, g),
        0 <= k <= s1.len(),
    ensures
        promote_upto(g, succ, df, s1, k) == g,
    decreases k,
{
    if k > 0 {
        lemma_identity_upto(g, succ, df, s1, k - 1, f, s0);
        let b = s1[k - 1];
        assert(s1.contains(b));
        assert(has_alloca(g, b));
        assert(has_alloca(f, b));
        assert(s0.contains(b));
        let t = choose|t: int| 0 <= t < s0.len() && s0[t] == b;
        assert(!has_store_to(g, s0[t]));
        if stores_of(g, b).len() > 0 {
            lemma_stores_nonempty_has_store(g, b);
        }
    }
}

proof fn lemma_stores_nonempty_has_store(f: FuncView, a: Var)
    requires
        stores_of(f, a).len() > 0,
    ensures
        has_store_to(f, a),
{
    lemma_stores_upto_source(f, a, f.len() as int);
}

proof fn lemma_stores_upto_source(f: FuncView, a: Var, n: int)
    requires
        0 <= n <= f.len(),
        stores_upto(f, a, n).len() > 0,
    ensures
        has_store_to(f, a),
    decreases n,
{
    if stores_upto(f, a, n - 1).len() > 0 {
        lemma_stores_upto_source(f, a, n - 1);
    } else {
        lemma_block_stores_source(f[n - 1].1, a);
        let j = choose|j: int| 0 <= j < f[n - 1].1.len() && #[trigger] is_store_to(f[n - 1].1[j], a);
        assert(is_store_to(f[n - 1].1[j], a));
    }
}

proof fn lemma_block_stores_source(s: Seq<InstView>, a: Var)
    requires
        block_stores(s, a).len() > 0,
    ensures
        exists|j: int| 0 <= j < s.len() && #[trigger] is_store_to(s[j], a),
    decreases s.len(),
{
    if block_stores(s.drop_last(), a).len() > 0 {
        lemma_block_stores_source(s.drop_last(), a);
        let j = choose|j: int| 0 <= j < s.drop_last().len() && #[trigger] is_store_to(s.drop_last()[j], a);
        assert(s[j] == s.drop_last()[j]);
    } else {
        assert(s[s.len() - 1] == s.last());
        assert(is_store_to(s[s.len() - 1], a));
    }
}

pub(crate) proof fn lemma_rename_seq_kind(i: InstView, rs: Seq<(Var, Operand)>)
    ensures
        (rename_seq(i, rs) is Store) == (i is Store),
        (rename_seq(i, rs) is Alloca) == (i is Alloca),
    decreases rs.len(),
{
    if rs.len() > 0 {
        lemma_rename_seq_kind(i, rs.drop_last());
    }
}

/// Each instruction of `f` outside the slot positions of `a` has a renamed copy in
/// the same block of `g`.
pub open spec fn keeps_others(f: FuncView, a: Var, g: FuncView) -> bool {
    forall|y: int, q: int|
        0 <= y < f.len() && 0 <= q < f[y].1.len() && !slot_position(#[trigger] f[y].1[q], a)
            ==> exists|j: int, rs: Seq<(Var, Operand)>|
            0 <= j < g[y].1.len() && slot_renames(f, a, rs) && g[y].1[j] == rename_seq(f[y].1[q], rs)
}

proof fn lemma_strip_keeps(s: Seq<InstView>, a: Var, q: int)
    requires
        0 <= q < s.len(),
        !slot_position(s[q], a),
    ensures
        exists|j: int| 0 <= j < strip_slot(s, a, true).len() && #[trigger] strip_slot(s, a, true)[j] == s[q],
    decreases s.len(),
{
    let r = strip_slot(s.drop_last(), a, true);
    if q < s.len() - 1 {
        assert(s.drop_last()[q] == s[q]);
        lemma_strip_keeps(s.drop_last(), a, q);
        let j = choose|j: int| 0 <= j < r.len() && #[trigger] r[j] == s[q];
        assert(strip_slot(s, a, true)[j] == r[j]);
    } else {
        assert(s.last() == s[q]);
        assert(strip_slot(s, a, true) == r.push(s[q]));
        assert(strip_slot(s, a, true)[r.len() as int] == s[q]);
    }
}

proof fn lemma_rename_block_keeps(s: Seq<InstView>, a: Var, cur: Operand, q: int)
    requires
        0 <= q < s.len(),
        !slot_position(s[q], a),
    ensures
        exists|j: int, c2: Operand|
            0 <= j < crate::mem2reg::rename_block(s, a, cur).0.len()
                && #[trigger] crate::mem2reg::rename_block(s, a, cur).0[j] == #[trigger] s[q].rename(a, c2),
    decreases s.len(),
{
    let d = s.drop_last();
    let (body, c, loads) = crate::mem2reg::rename_block(d, a, cur);
    let out = crate::mem2reg::rename_block(s, a, cur);
    let (b2, c2, l2) = crate::mem2reg::rename_step(s.last(), a, c);
    assert(out.0 == body + b2);
    if q < s.len() - 1 {
        assert(d[q] == s[q]);
        lemma_rename_block_keeps(d, a, cur, q);
        let (j, c3) = choose|j: int, c3: Operand|
            0 <= j < body.len() && #[trigger] body[j] == #[trigger] d[q].rename(a, c3);
        assert(out.0[j] == body[j]);
    } else {
        assert(s.last() == s[q]);
        assert(b2 == seq![s[q].rename(a, c)]);
        assert(out.0[body.len() as int] == s[q].rename(a, c));
    }
}

proof fn lemma_single_keeps(f: FuncView, a: Var)
    requires
        stores_of(f, a).len() == 1,
    ensures
        keeps_others(f, a, promote_single(f, a)),
{
    let v = stores_of(f, a)[0];
    let stripped = f.map_values(|p: (Block, Seq<InstView>)| (p.0, strip_slot(p.1, a, true)));
    let r1 = rename_func(stripped, a, v);
    let ds = loads_of(f, a);
    let g = promote_single(f, a);
    assert forall|y: int, q: int|
        0 <= y < f.len() && 0 <= q < f[y].1.len() && !slot_position(#[trigger] f[y].1[q], a)
            implies exists|j: int, rs: Seq<(Var, Operand)>|
            0 <= j < g[y].1.len() && slot_renames(f, a, rs) && g[y].1[j] == rename_seq(f[y].1[q], rs) by {
        lemma_strip_keeps(f[y].1, a, q);
        let j = choose|j: int| 0 <= j < strip_slot(f[y].1, a, true).len() && #[trigger] strip_slot(f[y].1, a, true)[j] == f[y].1[q];
        lemma_rename_each_len(r1, ds, v, y);
        lemma_rename_each_elem(r1, ds, v, y, j);
        let tail = ds.map_values(|d: Var| (d, v));
        lemma_rename_seq_prepend(f[y].1[q], (a, v), tail);
        let rs = seq![(a, v)] + tail;
        assert(slot_renames(f, a, rs)) by {
            assert forall|t: int| 0 <= t < rs.len() implies (#[trigger] rs[t]).0 == a || loaded_from(f, a, rs[t].0) by {
                if t > 0 {
                    assert(rs[t] == tail[t - 1]);
                    lemma_loads_upto_source(f, a, f.len() as int, t - 1);
                }
            }
        }
        assert(r1[y].1[j] == f[y].1[q].rename(a, v));
    }
}

proof fn lemma_multi_keeps(c: RenameCtx)
    requires
        ctx_wf(c),
        has_label(c.f, Block(0)),
        all_reachable(c.succ, c.f.len() as int, label_pos(c.f, Block(0))),
    ensures
        keeps_others(c.f, c.a, promote_multi(c)),
{
    let n = c.f.len();
    let a = c.a;
    let f = c.f;
    lemma_walk_visits_all(c);
    let st = walk(c);
    let st0 = walk_start(n as int);
    assert(walk_shaped(c, st0));
    lemma_visit_shaped(c, n, label_pos(c.f, Block(0)), Operand::Var(a), st0);
    let g = assemble(c.f, c.sched, a, st);
    let out = promote_multi(c);
    assert forall|y: int, q: int|
        0 <= y < f.len() && 0 <= q < f[y].1.len() && !slot_position(#[trigger] f[y].1[q], a)
            implies exists|j: int, rs: Seq<(Var, Operand)>|
            0 <= j < out[y].1.len() && slot_renames(f, a, rs) && out[y].1[j] == rename_seq(f[y].1[q], rs) by {
        let phis: Seq<InstView> = if c.sched[y] {
            seq![InstView::Phi { dist: a, incomes: st.incomes[y] }]
        } else {
            Seq::empty()
        };
        assert(st.visited[y]);
        let cu = choose|cu: Operand| st.bodies[y] == crate::mem2reg::rename_block(c.f[y].1, a, cu).0;
        lemma_rename_block_keeps(c.f[y].1, a, cu, q);
        let (k, c2) = choose|k: int, c2: Operand|
            0 <= k < crate::mem2reg::rename_block(c.f[y].1, a, cu).0.len()
                && #[trigger] crate::mem2reg::rename_block(c.f[y].1, a, cu).0[k] == #[trigger] c.f[y].1[q].rename(a, c2);
        assert(g[y].1 == phis + st.bodies[y]);
        let j = k + phis.len();
        assert(g[y].1[j] == f[y].1[q].rename(a, c2));
        lemma_rename_loads_len(g, st.loads, y);
        lemma_rename_loads_elem(g, st.loads, y, j);
        lemma_rename_seq_prepend(f[y].1[q], (a, c2), st.loads);
        let rs = seq![(a, c2)] + st.loads;
        assert(slot_renames(f, a, rs)) by {
            assert forall|t: int| 0 <= t < rs.len() implies (#[trigger] rs[t]).0 == a || loaded_from(f, a, rs[t].0) by {
                if t > 0 {
                    assert(rs[t] == st.loads[t - 1]);
                }
            }
        }
    }
}

/// Every store and every load of `f` addresses a value, not a constant.
pub open spec fn addressed(f: FuncView) -> bool {
    forall|i: int, j: int|
        0 <= i < f.len() && 0 <= j < f[i].1.len() ==> match #[trigger] f[i].1[j] {
            InstView::Store { op1, .. } => op1 is Var,
            InstView::Load { op1, .. } => op1 is Var,
            _ => true,
        }
}

/// Every slot of `f` is stored to.
pub open spec fn all_promotable(f: FuncView) -> bool {
    forall|x: Var| #[trigger] has_alloca(f, x) ==> has_store_to(f, x)
}

/// What else holds after promoting the first `k` slots when every slot is stored to.
pub open spec fn promoted_all_inv(f0: FuncView, slots: Seq<Var>, k: int, fk: FuncView) -> bool {
    &&& promoted_inv(f0, slots, k, fk)
    &&& addressed(fk)
    &&& forall|t: int| 0 <= t < k ==> slot_gone(fk, #[trigger] slots[t])
    &&& forall|t: int| k <= t < slots.len() ==> has_store_to(fk, #[trigger] slots[t])
}

#[verifier::rlimit(40)]
proof fn lemma_promoted_all_inv(
    f0: FuncView,
    df: Seq<(Block, Vec<Block>)>,
    slots: Seq<Var>,
    k: int,
)
    requires
        func_wf(f0),
        frontend_form(f0),
        addressed(f0),
        all_promotable(f0),
        has_label(f0, Block(0)),
        all_reachable(succ_table(f0), f0.len() as int, label_pos(f0, Block(0))),
        is_slot_list(f0, slots),
        0 <= k <= slots.len(),
    ensures
        promoted_all_inv(f0, slots, k, promote_upto(f0, succ_table(f0), df, slots, k)),
    decreases k,
{
    let succ0 = succ_table(f0);
    lemma_promoted_inv(f0, df, slots, k);
    if k == 0 {
        assert forall|t: int| 0 <= t < slots.len() implies has_store_to(f0, #[trigger] slots[t]) by {
            assert(slots.contains(slots[t]));
        }
    } else {
        lemma_promoted_all_inv(f0, df, slots, k - 1);
        let fk = promote_upto(f0, succ0, df, slots, k - 1);
        let a = slots[k - 1];
        let g = promote(fk, succ0, df, a);
        assert(g == promote_upto(f0, succ0, df, slots, k));
        lemma_has_store(fk, a);
        lemma_step_facts(f0, df, slots, k - 1, fk);
        lemma_step(fk, a, g);
        assert forall|y: int, j: int| 0 <= y < g.len() && 0 <= j < g[y].1.len() implies match #[trigger] g[y].1[j] {
            InstView::Store { op1, .. } => op1 is Var,
            InstView::Load { op1, .. } => op1 is Var,
            _ => true,
        } by {
            if !(g[y].1[j] is Phi) {
                let (q, rs) = choose|q: int, rs: Seq<(Var, Operand)>|
                    0 <= q < fk[y].1.len() && !slot_position(fk[y].1[q], a) && slot_renames(fk, a, rs)
                        && g[y].1[j] == rename_seq(fk[y].1[q], rs);
                let i = fk[y].1[q];
                assert forall|t: int| 0 <= t < rs.len() implies !slot_position(i, (#[trigger] rs[t]).0) by {
                    if rs[t].0 != a {
                        assert(loaded_from(fk, a, rs[t].0));
                    }
                }
                lemma_rename_seq_kind(i, rs);
                lemma_rename_seq_variant(i, rs);
                match i {
                    InstView::Store { op1, .. } => {
                        let x = op1->Var_0;
                        assert(is_store_to(i, x));
                        lemma_rename_seq_slots(i, rs, x);
                    },
                    InstView::Load { op1, .. } => {
                        let x = op1->Var_0;
                        assert(is_load_from(i, x));
                        lemma_rename_seq_slots(i, rs, x);
                    },
                    _ => {},
                }
            }
        }
        assert forall|t: int| 0 <= t < k implies slot_gone(g, #[trigger] slots[t]) by {
            if t < k - 1 {
                let b = slots[t];
                assert(slot_gone(fk, b));
                assert forall|i: int, j: int| 0 <= i < g.len() && 0 <= j < g[i].1.len() implies !slot_position(#[trigger] g[i].1[j], b) by {
                    let x = g[i].1[j];
                    if is_alloca_of(x, b) {
                        assert(has_alloca(g, b));
                    }
                    if is_store_to(x, b) {
                        assert(has_store_to(g, b));
                    }
                    if is_load_from(x, b) {
                        let d = x.dist().unwrap();
                        assert(x == (InstView::Load { dist: d, op1: Operand::Var(b) }));
                        assert(has_load(g, d, Operand::Var(b)));
                        assert(has_load(fk, d, Operand::Var(b)));
                        let (i1, j1) = choose|i1: int, j1: int| 0 <= i1 < fk.len() && 0 <= j1 < fk[i1].1.len() && #[trigger] fk[i1].1[j1] == (InstView::Load { dist: d, op1: Operand::Var(b) });
                        assert(slot_position(fk[i1].1[j1], b));
                    }
                    if is_alloca_of(x, b) {
                        let (i1, j1) = choose|i1: int, j1: int| 0 <= i1 < fk.len() && 0 <= j1 < fk[i1].1.len() && #[trigger] is_alloca_of(fk[i1].1[j1], b);
                    }
                    if is_store_to(x, b) {
                        let (i1, j1) = choose|i1: int, j1: int| 0 <= i1 < fk.len() && 0 <= j1 < fk[i1].1.len() && #[trigger] is_store_to(fk[i1].1[j1], b);
                    }
                }
            }
        }
        assert forall|t: int| k <= t < slots.len() implies has_store_to(g, #[trigger] slots[t]) by {
            let b = slots[t];
            assert(has_store_to(fk, b));
            let (y, q) = choose|y: int, q: int| 0 <= y < fk.len() && 0 <= q < fk[y].1.len() && #[trigger] is_store_to(fk[y].1[q], b);
            assert(b != a) by {
                assert(slots[k - 1].0 < slots[t].0);
            }
            let i = fk[y].1[q];
            assert(!slot_position(i, a));
            let (j, rs) = choose|j: int, rs: Seq<(Var, Operand)>|
                0 <= j < g[y].1.len() && slot_renames(fk, a, rs) && g[y].1[j] == rename_seq(i, rs);
            assert forall|u: int| 0 <= u < rs.len() implies !slot_position(i, (#[trigger] rs[u]).0) by {
                if rs[u].0 != a {
                    assert(loaded_from(fk, a, rs[u].0));
                }
            }
            lemma_rename_seq_slots(i, rs, b);
            assert(is_store_to(g[y].1[j], b));
        }
    }
}

/// Promoting a function in the front end's form whose slots are all stored to
/// leaves no `Alloca`, no store and no load.
#[verifier::rlimit(40)]
pub proof fn lemma_mem2reg_removes_slots(f: FuncView, df: Seq<(Block, Vec<Block>)>)
    requires
        func_wf(f),
        frontend_form(f),
        addressed(f),
        all_promotable(f),
        has_label(f, Block(0)),
        all_reachable(succ_table(f), f.len() as int, label_pos(f, Block(0))),
    ensures
        forall|i: int, j: int|
            0 <= i < mem2reg_spec(f, df).len() && 0 <= j < mem2reg_spec(f, df)[i].1.len() ==> {
                let x = #[trigger] mem2reg_spec(f, df)[i].1[j];
                !(x is Alloca) && !(x is Store) && !(x is Load)
            },
{
    lemma_slot_list_exists(f);
    let s0 = slots_of(f);
    let g = mem2reg_spec(f, df);
    lemma_promoted_all_inv(f, df, s0, s0.len() as int);
    assert forall|i: int, j: int| 0 <= i < g.len() && 0 <= j < g[i].1.len() implies {
        let x = #[trigger] g[i].1[j];
        !(x is Alloca) && !(x is Store) && !(x is Load)
    } by {
        let x = g[i].1[j];
        let v = match x {
            InstView::Alloca { dist } => dist,
            InstView::Store { op1, .. } => op1->Var_0,
            InstView::Load { op1, .. } => op1->Var_0,
            _ => Var(0),
        };
        if x is Alloca {
            assert(is_alloca_of(x, v));
            assert(has_alloca(g, v));
        }
        if x is Store {
            assert(is_store_to(x, v));
            assert(has_store_to(g, v));
            assert(has_store_to(f, v));
            let (i1, j1) = choose|i1: int, j1: int| 0 <= i1 < f.len() && 0 <= j1 < f[i1].1.len() && #[trigger] is_store_to(f[i1].1[j1], v);
        }
        if x is Load {
            let d = x.dist().unwrap();
            assert(x == (InstView::Load { dist: d, op1: Operand::Var(v) }));
            assert(has_load(g, d, Operand::Var(v)));
            assert(has_load(f, d, Operand::Var(v)));
            let (i1, j1) = choose|i1: int, j1: int| 0 <= i1 < f.len() && 0 <= j1 < f[i1].1.len() && #[trigger] f[i1].1[j1] == (InstView::Load { dist: d, op1: Operand::Var(v) });
            assert(is_load_from(f[i1].1[j1], v));
        }
        if x is Alloca || x is Store || x is Load {
            assert(has_alloca(f, v));
            assert(s0.contains(v));
            let t = choose|t: int| 0 <= t < s0.len() && s0[t] == v;
            assert(slot_gone(g, s0[t]));
            assert(slot_position(x, v));
        }
    }
}

/// The values allocated by the instructions of `s`, in order.
pub open spec fn allocas_in(s: Seq<InstView>) -> Seq<Var>
    decreases s.len(),
{
    if s.len() == 0 {
        Seq::empty()
    } else {
        let r = allocas_in(s.drop_last());
        match s.last() {
            InstView::Alloca { dist } => r.push(dist),
            _ => r,
        }
    }
}

pub open spec fn allocas_upto(f: FuncView, n: int) -> Seq<Var>
    decreases n,
{
    if n <= 0 {
        Seq::empty()
    } else {
        allocas_upto(f, n - 1) + allocas_in(f[n - 1].1)
    }
}

pub open spec fn var_below(s: Seq<Var>, x: Var) -> Seq<Var>
    decreases s.len(),
{
    if s.len() == 0 {
        Seq::empty()
    } else if s.last().0 < x.0 {
        var_below(s.drop_last(), x).push(s.last())
    } else {
        var_below(s.drop_last(), x)
    }
}

pub open spec fn var_above(s: Seq<Var>, x: Var) -> Seq<Var>
    decreases s.len(),
{
    if s.len() == 0 {
        Seq::empty()
    } else if s.last().0 > x.0 {
        var_above(s.drop_last(), x).push(s.last())
    } else {
        var_above(s.drop_last(), x)
    }
}

/// `l` sorted, each value once.
pub open spec fn sort_vars(l: Seq<Var>) -> Seq<Var>
    decreases l.len(),
{
    if l.len() == 0 {
        Seq::empty()
    } else {
        let s = sort_vars(l.drop_last());
        var_below(s, l.last()).push(l.last()) + var_above(s, l.last())
    }
}

proof fn lemma_var_split(s: Seq<Var>, x: Var)
    requires
        labels_sorted(s),
    ensures
        labels_sorted(var_below(s, x)),
        labels_sorted(var_above(s, x)),
        forall|v: Var| #[trigger] var_below(s, x).contains(v) <==> s.contains(v) && v.0 < x.0,
        forall|v: Var| #[trigger] var_above(s, x).contains(v) <==> s.contains(v) && v.0 > x.0,
    decreases s.len(),
{
    if s.len() > 0 {
        let d = s.drop_last();
        assert(labels_sorted(d)) by {
            assert forall|i: int, j: int| 0 <= i < j < d.len() implies (#[trigger] d[i]).0 < (#[trigger] d[j]).0 by {
                assert(d[i] == s[i] && d[j] == s[j]);
            }
        }
        lemma_var_split(d, x);
        assert forall|v: Var| s.contains(v) <==> d.contains(v) || v == s.last() by {
            if s.contains(v) && v != s.last() {
                let i = choose|i: int| 0 <= i < s.len() && s[i] == v;
                assert(d[i] == v);
            }
            if d.contains(v) {
                let i = choose|i: int| 0 <= i < d.len() && d[i] == v;
                assert(s[i] == v);
            }
            if v == s.last() {
                assert(s[s.len() - 1] == v);
            }
        }
        assert forall|v: Var| #[trigger] d.contains(v) implies v.0 < s.last().0 by {
            let i = choose|i: int| 0 <= i < d.len() && d[i] == v;
            assert(s[i] == v);
        }
        let lo = var_below(d, x);
        let hi = var_above(d, x);
        if s.last().0 < x.0 {
            let e = lo.push(s.last());
            assert forall|v: Var| #[trigger] e.contains(v) <==> lo.contains(v) || v == s.last() by {
                if e.contains(v) && v != s.last() {
                    let i = choose|i: int| 0 <= i < e.len() && e[i] == v;
                    assert(lo[i] == v);
                }
                if lo.contains(v) {
                    let i = choose|i: int| 0 <= i < lo.len() && lo[i] == v;
                    assert(e[i] == v);
                }
                if v == s.last() {
                    assert(e[e.len() - 1] == v);
                }
            }
            assert(labels_sorted(e)) by {
                assert forall|i: int, j: int| 0 <= i < j < e.len() implies (#[trigger] e[i]).0 < (#[trigger] e[j]).0 by {
                    if j == e.len() - 1 {
                        assert(lo.contains(e[i]));
                    }
                }
            }
        }
        if s.last().0 > x.0 {
            let e = hi.push(s.last());
            assert forall|v: Var| #[trigger] e.contains(v) <==> hi.contains(v) || v == s.last() by {
                if e.contains(v) && v != s.last() {
                    let i = choose|i: int| 0 <= i < e.len() && e[i] == v;
                    assert(hi[i] == v);
                }
                if hi.contains(v) {
                    let i = choose|i: int| 0 <= i < hi.len() && hi[i] == v;
                    assert(e[i] == v);
                }
                if v == s.last() {
                    assert(e[e.len() - 1] == v);
                }
            }
            assert(labels_sorted(e)) by {
                assert forall|i: int, j: int| 0 <= i < j < e.len() implies (#[trigger] e[i]).0 < (#[trigger] e[j]).0 by {
                    if j == e.len() - 1 {
                        assert(hi.contains(e[i]));
                    }
                }
            }
        }
    }
}

pub(crate) proof fn lemma_sort_vars(l: Seq<Var>)
    ensures
        labels_sorted(sort_vars(l)),
        forall|v: Var| #[trigger] sort_vars(l).contains(v) <==> l.contains(v),
    decreases l.len(),
{
    if l.len() > 0 {
        let d = l.drop_last();
        lemma_sort_vars(d);
        let s = sort_vars(d);
        let x = l.last();
        lemma_var_split(s, x);
        let lo = var_below(s, x);
        let hi = var_above(s, x);
        let r = sort_vars(l);
        assert(r == lo.push(x) + hi);
        assert forall|i: int| 0 <= i < lo.len() implies (#[trigger] lo[i]).0 < x.0 by {
            assert(lo.contains(lo[i]));
        }
        assert forall|i: int| 0 <= i < hi.len() implies (#[trigger] hi[i]).0 > x.0 by {
            assert(hi.contains(hi[i]));
        }
        assert(labels_sorted(r)) by {
            assert forall|i: int, j: int| 0 <= i < j < r.len() implies (#[trigger] r[i]).0 < (#[trigger] r[j]).0 by {
                if j < lo.len() {
                    assert(r[i] == lo[i] && r[j] == lo[j]);
                } else if j == lo.len() {
                    assert(r[i] == lo[i]);
                } else if i < lo.len() {
                    assert(r[i] == lo[i] && r[j] == hi[j - lo.len() - 1]);
                } else if i == lo.len() {
                    assert(r[j] == hi[j - lo.len() - 1]);
                } else {
                    assert(r[i] == hi[i - lo.len() - 1] && r[j] == hi[j - lo.len() - 1]);
                }
            }
        }
        assert forall|v: Var| #[trigger] r.contains(v) <==> l.contains(v) by {
            assert(l.contains(v) <==> d.contains(v) || v == x) by {
                if l.contains(v) && v != x {
                    let i = choose|i: int| 0 <= i < l.len() && l[i] == v;
                    assert(d[i] == v);
                }
                if d.contains(v) {
                    let i = choose|i: int| 0 <= i < d.len() && d[i] == v;
                    assert(l[i] == v);
                }
                if v == x {
                    assert(l[l.len() - 1] == v);
                }
            }
            if r.contains(v) {
                let i = choose|i: int| 0 <= i < r.len() && r[i] == v;
                if i < lo.len() {
                    assert(lo.contains(v));
                } else if i > lo.len() {
                    assert(r[i] == hi[i - lo.len() - 1]);
                    assert(hi.contains(v));
                }
            }
            if d.contains(v) && v != x {
                assert(s.contains(v));
                if v.0 < x.0 {
                    assert(lo.contains(v));
                    let i = choose|i: int| 0 <= i < lo.len() && lo[i] == v;
                    assert(r[i] == v);
                } else {
                    assert(v.0 != x.0);
                    assert(hi.contains(v));
                    let i = choose|i: int| 0 <= i < hi.len() && hi[i] == v;
                    assert(r[i + lo.len() + 1] == v);
                }
            }
            if v == x {
                assert(r[lo.len() as int] == x);
            }
        }
    }
}

proof fn lemma_allocas_in(s: Seq<InstView>, v: Var)
    ensures
        allocas_in(s).contains(v) <==> exists|j: int| 0 <= j < s.len() && #[trigger] is_alloca_of(s[j], v),
    decreases s.len(),
{
    if s.len() > 0 {
        let d = s.drop_last();
        lemma_allocas_in(d, v);
        let r = allocas_in(d);
        if allocas_in(s).contains(v) {
            if !r.contains(v) {
                assert(s[s.len() - 1] == s.last());
                let i = choose|i: int| 0 <= i < allocas_in(s).len() && allocas_in(s)[i] == v;
                assert(is_alloca_of(s[s.len() - 1], v));
            } else {
                let j = choose|j: int| 0 <= j < d.len() && #[trigger] is_alloca_of(d[j], v);
                assert(s[j] == d[j]);
            }
        }
        if exists|j: int| 0 <= j < s.len() && #[trigger] is_alloca_of(s[j], v) {
            let j = choose|j: int| 0 <= j < s.len() && #[trigger] is_alloca_of(s[j], v);
            if j < s.len() - 1 {
                assert(d[j] == s[j]);
                assert(r.contains(v));
                let i = choose|i: int| 0 <= i < r.len() && r[i] == v;
                assert(allocas_in(s)[i] == v);
            } else {
                assert(s.last() == s[j]);
                assert(allocas_in(s)[r.len() as int] == v);
            }
        }
    }
}

proof fn lemma_allocas_upto(f: FuncView, n: int, v: Var)
    requires
        0 <= n <= f.len(),
    ensures
        allocas_upto(f, n).contains(v) <==> exists|i: int, j: int|
            0 <= i < n && 0 <= j < f[i].1.len() && #[trigger] is_alloca_of(f[i].1[j], v),
    decreases n,
{
    if n > 0 {
        lemma_allocas_upto(f, n - 1, v);
        lemma_allocas_in(f[n - 1].1, v);
        let p = allocas_upto(f, n - 1);
        let q = allocas_in(f[n - 1].1);
        let r = allocas_upto(f, n);
        assert(r == p + q);
        if r.contains(v) {
            let k = choose|k: int| 0 <= k < r.len() && r[k] == v;
            if k < p.len() {
                assert(p[k] == v);
                assert(p.contains(v));
            } else {
                assert(q[k - p.len()] == v);
                assert(q.contains(v));
                let j = choose|j: int| 0 <= j < f[n - 1].1.len() && #[trigger] is_alloca_of(f[n - 1].1[j], v);
                assert(is_alloca_of(f[n - 1].1[j], v));
            }
        }
        if exists|i: int, j: int| 0 <= i < n && 0 <= j < f[i].1.len() && #[trigger] is_alloca_of(f[i].1[j], v) {
            let (i, j) = choose|i: int, j: int| 0 <= i < n && 0 <= j < f[i].1.len() && #[trigger] is_alloca_of(f[i].1[j], v);
            if i < n - 1 {
                assert(p.contains(v));
                let k = choose|k: int| 0 <= k < p.len() && p[k] == v;
                assert(r[k] == v);
            } else {
                assert(q.contains(v));
                let k = choose|k: int| 0 <= k < q.len() && q[k] == v;
                assert(r[k + p.len()] == v);
            }
        }
    }
}

/// Every function has a slot list: its slots sorted.
pub(crate) proof fn lemma_slot_list_exists(f: FuncView)
    ensures
        is_slot_list(f, slots_of(f)),
{
    let l = allocas_upto(f, f.len() as int);
    lemma_sort_vars(l);
    let s = sort_vars(l);
    assert forall|v: Var| s.contains(v) <==> has_alloca(f, v) by {
        lemma_allocas_upto(f, f.len() as int, v);
    }
    assert(is_slot_list(f, s));
}

} // verus!
