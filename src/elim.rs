//! What promotion removes: after a slot is promoted, no instruction allocates it,
//! stores to it or loads from it.
use vstd::prelude::*;

use crate::func::{FuncView, rename_func};
use crate::inst::{Block, InstView, Operand, Var};
use crate::dom::label_pos;
use crate::func::has_label;
use crate::mem2reg::{
    RenameCtx, RenameView, assemble, ctx_of, is_alloca_of, is_load_from, is_store_to, promote,
    promote_multi,
    promote_single, rename_block, rename_each, rename_loads, rename_step, stores_of, strip_slot,
    visit, visit_succs, walk, walk_start,
};
use crate::phi::{all_reachable, ctx_wf, lemma_walk_visits_all};

verus! {

/// `i` allocates `x`, stores to it or loads from it.
pub open spec fn slot_position(i: InstView, x: Var) -> bool {
    is_alloca_of(i, x) || is_store_to(i, x) || is_load_from(i, x)
}

/// No instruction of `f` allocates `a`, stores to it or loads from it.
pub open spec fn slot_gone(f: FuncView, a: Var) -> bool {
    forall|i: int, j: int|
        0 <= i < f.len() && 0 <= j < f[i].1.len() ==> !slot_position(#[trigger] f[i].1[j], a)
}

/// Renaming `x` to `val` brings back no slot position of `a`, unless `x` itself
/// stood in one and `val` is `a`.
proof fn lemma_rename_keeps_gone(i: InstView, a: Var, x: Var, val: Operand)
    requires
        !slot_position(i, a),
        val != Operand::Var(a) || !slot_position(i, x),
    ensures
        !slot_position(i.rename(x, val), a),
{
}

proof fn lemma_rename_func_keeps_gone(f: FuncView, a: Var, x: Var, val: Operand)
    requires
        slot_gone(f, a),
        val != Operand::Var(a) || forall|i: int, j: int|
            0 <= i < f.len() && 0 <= j < f[i].1.len() ==> !slot_position(#[trigger] f[i].1[j], x),
    ensures
        slot_gone(rename_func(f, x, val), a),
{
    let g = rename_func(f, x, val);
    assert forall|i: int, j: int| 0 <= i < g.len() && 0 <= j < g[i].1.len() implies !slot_position(
        #[trigger] g[i].1[j],
        a,
    ) by {
        assert(g[i].1[j] == f[i].1[j].rename(x, val));
        lemma_rename_keeps_gone(f[i].1[j], a, x, val);
    }
}

proof fn lemma_strip_gone(s: Seq<InstView>, a: Var)
    ensures
        forall|j: int| 0 <= j < strip_slot(s, a, true).len() ==> !slot_position(
            #[trigger] strip_slot(s, a, true)[j],
            a,
        ),
    decreases s.len(),
{
    if s.len() > 0 {
        lemma_strip_gone(s.drop_last(), a);
        let r = strip_slot(s.drop_last(), a, true);
        let cur = strip_slot(s, a, true);
        if !slot_position(s.last(), a) {
            assert(cur == r.push(s.last()));
            assert forall|j: int| 0 <= j < cur.len() implies !slot_position(#[trigger] cur[j], a) by {
                if j < r.len() {
                    assert(cur[j] == r[j]);
                }
            }
        } else {
            assert(cur == r);
        }
    }
}

proof fn lemma_rename_each_gone(f: FuncView, ds: Seq<Var>, v: Operand, a: Var)
    requires
        slot_gone(f, a),
        v != Operand::Var(a),
    ensures
        slot_gone(rename_each(f, ds, v), a),
    decreases ds.len(),
{
    if ds.len() > 0 {
        lemma_rename_each_gone(f, ds.drop_last(), v, a);
        lemma_rename_func_keeps_gone(rename_each(f, ds.drop_last(), v), a, ds.last(), v);
    }
}

/// Promoting a slot stored exactly once, whose stored operand is not the slot
/// itself, leaves no `Alloca` of it, no store to it and no load from it.
pub proof fn lemma_single_removes_slot(f: FuncView, a: Var)
    requires
        stores_of(f, a).len() == 1,
        stores_of(f, a)[0] != Operand::Var(a),
    ensures
        slot_gone(promote_single(f, a), a),
{
    let v = stores_of(f, a)[0];
    let stripped = f.map_values(|p: (Block, Seq<InstView>)| (p.0, strip_slot(p.1, a, true)));
    assert(slot_gone(stripped, a)) by {
        assert forall|i: int, j: int|
            0 <= i < stripped.len() && 0 <= j < stripped[i].1.len() implies !slot_position(
            #[trigger] stripped[i].1[j],
            a,
        ) by {
            lemma_strip_gone(f[i].1, a);
        }
    }
    lemma_rename_func_keeps_gone(stripped, a, a, v);
    lemma_rename_each_gone(rename_func(stripped, a, v), crate::mem2reg::loads_of(f, a), v, a);
}

/// Renaming a value that stands in no slot position of `i` leaves its slot
/// positions as they are.
proof fn lemma_rename_same_slots(i: InstView, d: Var, val: Operand, x: Var)
    requires
        !slot_position(i, d),
    ensures
        slot_position(i.rename(d, val), x) == slot_position(i, x),
{
}

/// `d` is loaded from slot `a` somewhere in `f`.
pub open spec fn loaded_from(f: FuncView, a: Var, d: Var) -> bool {
    exists|i: int, j: int|
        0 <= i < f.len() && 0 <= j < f[i].1.len() && #[trigger] f[i].1[j] == (InstView::Load {
            dist: d,
            op1: Operand::Var(a),
        })
}

/// No value loaded from `a` is allocated, stored to or loaded from: loads from a
/// slot yield plain values.
pub open spec fn loads_are_values(f: FuncView, a: Var) -> bool {
    forall|d: Var, i: int, j: int|
        #[trigger] loaded_from(f, a, d) && 0 <= i < f.len() && 0 <= j < f[i].1.len()
            ==> !slot_position(#[trigger] f[i].1[j], d)
}

/// Each instruction of a renamed block is an instruction of the block outside the
/// slot's positions, with the slot renamed; each replaced load is a load from the slot.
pub(crate) proof fn lemma_rename_block_shape(s: Seq<InstView>, a: Var, cur: Operand)
    ensures
        forall|k: int|
            0 <= k < rename_block(s, a, cur).0.len() ==> exists|j: int, c2: Operand|
                0 <= j < s.len() && !slot_position(s[j], a) && #[trigger] rename_block(s, a, cur).0[k]
                    == s[j].rename(a, c2),
        forall|k: int|
            0 <= k < rename_block(s, a, cur).2.len() ==> exists|j: int|
                0 <= j < s.len() && s[j] == (InstView::Load {
                    dist: (#[trigger] rename_block(s, a, cur).2[k]).0,
                    op1: Operand::Var(a),
                }),
    decreases s.len(),
{
    if s.len() > 0 {
        let d = s.drop_last();
        lemma_rename_block_shape(d, a, cur);
        let (body, c, loads) = rename_block(d, a, cur);
        let (b2, c2, l2) = rename_step(s.last(), a, c);
        let out = rename_block(s, a, cur);
        assert(out.0 == body + b2);
        assert(out.2 == loads + l2);
        assert forall|k: int| 0 <= k < out.0.len() implies exists|j: int, c3: Operand|
            0 <= j < s.len() && !slot_position(s[j], a) && #[trigger] out.0[k] == s[j].rename(a, c3) by {
            if k < body.len() {
                let (j, c3) = choose|j: int, c3: Operand|
                    0 <= j < d.len() && !slot_position(d[j], a) && #[trigger] body[k] == d[j].rename(a, c3);
                assert(s[j] == d[j]);
            } else {
                assert(s[s.len() - 1] == s.last());
                assert(out.0[k] == s.last().rename(a, c));
            }
        }
        assert forall|k: int| 0 <= k < out.2.len() implies exists|j: int|
            0 <= j < s.len() && s[j] == (InstView::Load {
                dist: (#[trigger] out.2[k]).0,
                op1: Operand::Var(a),
            }) by {
            if k < loads.len() {
                let j = choose|j: int|
                    0 <= j < d.len() && d[j] == (InstView::Load {
                        dist: (#[trigger] loads[k]).0,
                        op1: Operand::Var(a),
                    });
                assert(s[j] == d[j]);
            } else {
                assert(s[s.len() - 1] == s.last());
            }
        }
    }
}

/// What the walk's state holds: each visited block's instructions are its renamed
/// instructions, and each replaced load is a load from the slot.
pub open spec fn walk_shaped(c: RenameCtx, st: RenameView) -> bool {
    &&& st.visited.len() == c.f.len()
    &&& st.bodies.len() == c.f.len()
    &&& forall|x: int|
        0 <= x < c.f.len() && #[trigger] st.visited[x] ==> exists|cur: Operand|
            st.bodies[x] == rename_block(c.f[x].1, c.a, cur).0
    &&& forall|k: int| 0 <= k < st.loads.len() ==> loaded_from(c.f, c.a, (#[trigger] st.loads[k]).0)
}

pub(crate) proof fn lemma_visit_shaped(c: RenameCtx, fuel: nat, b: int, cur: Operand, st: RenameView)
    requires
        ctx_wf(c),
        0 <= b < c.f.len(),
        walk_shaped(c, st),
    ensures
        walk_shaped(c, visit(c, fuel, b, cur, st)),
    decreases fuel, c.succ[b].len() + 1,
{
    if fuel > 0 {
        let cur0 = if c.sched[b] {
            Operand::Var(c.a)
        } else {
            cur
        };
        let (body, out, loads) = rename_block(c.f[b].1, c.a, cur0);
        let st1 = RenameView {
            visited: st.visited.update(b, true),
            incomes: crate::mem2reg::record_succs(c, b, out, st.incomes, c.succ[b].len() as int),
            bodies: st.bodies.update(b, body),
            loads: st.loads + loads,
        };
        lemma_rename_block_shape(c.f[b].1, c.a, cur0);
        assert(walk_shaped(c, st1)) by {
            assert forall|x: int| 0 <= x < c.f.len() && #[trigger] st1.visited[x] implies exists|cu: Operand|
                st1.bodies[x] == rename_block(c.f[x].1, c.a, cu).0 by {
                if x == b {
                    assert(st1.bodies[x] == rename_block(c.f[x].1, c.a, cur0).0);
                } else {
                    assert(st.visited[x]);
                }
            }
            assert forall|k: int| 0 <= k < st1.loads.len() implies loaded_from(c.f, c.a, (#[trigger] st1.loads[k]).0) by {
                if k >= st.loads.len() {
                    let q = k - st.loads.len();
                    assert(st1.loads[k] == loads[q]);
                    let j = choose|j: int|
                        0 <= j < c.f[b].1.len() && c.f[b].1[j] == (InstView::Load {
                            dist: (#[trigger] loads[q]).0,
                            op1: Operand::Var(c.a),
                        });
                    assert(c.f[b].1[j] == (InstView::Load { dist: st1.loads[k].0, op1: Operand::Var(c.a) }));
                } else {
                    assert(st1.loads[k] == st.loads[k]);
                }
            }
        }
        assert(visit(c, fuel, b, cur, st) == visit_succs(c, fuel, b, 0, out, st1));
        lemma_visit_succs_shaped(c, fuel, b, 0, out, st1);
    }
}

proof fn lemma_visit_succs_shaped(c: RenameCtx, fuel: nat, b: int, k: int, cur: Operand, st: RenameView)
    requires
        ctx_wf(c),
        0 <= b < c.f.len(),
        walk_shaped(c, st),
    ensures
        walk_shaped(c, visit_succs(c, fuel, b, k, cur, st)),
    decreases fuel, c.succ[b].len() - k,
{
    if fuel > 0 && 0 <= k < c.succ[b].len() {
        let s = c.succ[b][k];
        let st2 = if st.visited[s] {
            st
        } else {
            visit(c, (fuel - 1) as nat, s, cur, st)
        };
        if !st.visited[s] {
            lemma_visit_shaped(c, (fuel - 1) as nat, s, cur, st);
        }
        lemma_visit_succs_shaped(c, fuel, b, k + 1, cur, st2);
    }
}

/// Renaming the replaced loads brings back no slot position: none of them stands in one.
proof fn lemma_rename_loads_gone(g: FuncView, loads: Seq<(Var, Operand)>, a: Var)
    requires
        slot_gone(g, a),
        forall|k: int, i: int, j: int|
            0 <= k < loads.len() && 0 <= i < g.len() && 0 <= j < g[i].1.len() ==> !slot_position(
                #[trigger] g[i].1[j],
                (#[trigger] loads[k]).0,
            ),
    ensures
        slot_gone(rename_loads(g, loads), a),
        rename_loads(g, loads).len() == g.len(),
        forall|i: int| 0 <= i < g.len() ==> (#[trigger] rename_loads(g, loads)[i]).1.len() == g[i].1.len(),
        forall|x: Var, i: int, j: int|
            0 <= i < g.len() && 0 <= j < g[i].1.len() && #[trigger] slot_position(
                rename_loads(g, loads)[i].1[j],
                x,
            ) ==> slot_position(g[i].1[j], x),
    decreases loads.len(),
{
    if loads.len() > 0 {
        let l = loads.drop_last();
        assert forall|k: int, i: int, j: int|
            0 <= k < l.len() && 0 <= i < g.len() && 0 <= j < g[i].1.len() implies !slot_position(
            #[trigger] g[i].1[j],
            (#[trigger] l[k]).0,
        ) by {
            assert(l[k] == loads[k]);
        }
        lemma_rename_loads_gone(g, l, a);
        let h = rename_loads(g, l);
        let (d, val) = loads.last();
        assert(loads[loads.len() - 1] == loads.last());
        let r = rename_func(h, d, val);
        assert forall|i: int, j: int| 0 <= i < h.len() && 0 <= j < h[i].1.len() implies !slot_position(#[trigger] h[i].1[j], d) by {
            if slot_position(h[i].1[j], d) {
                assert(slot_position(g[i].1[j], d));
            }
        }
        assert forall|x: Var, i: int, j: int|
            0 <= i < g.len() && 0 <= j < g[i].1.len() && #[trigger] slot_position(r[i].1[j], x) implies slot_position(g[i].1[j], x) by {
            lemma_rename_same_slots(h[i].1[j], d, val, x);
            assert(slot_position(h[i].1[j], x));
        }
        assert forall|i: int, j: int| 0 <= i < r.len() && 0 <= j < r[i].1.len() implies !slot_position(#[trigger] r[i].1[j], a) by {
            lemma_rename_same_slots(h[i].1[j], d, val, a);
        }
    }
}

/// Promoting a slot stored more than once, in a control-flow graph where every block
/// is reachable from the entry and whose loads from the slot yield plain values,
/// leaves no `Alloca` of it, no store to it and no load from it.
pub proof fn lemma_multi_removes_slot(c: RenameCtx)
    requires
        ctx_wf(c),
        has_label(c.f, Block(0)),
        all_reachable(c.succ, c.f.len() as int, label_pos(c.f, Block(0))),
        loads_are_values(c.f, c.a),
    ensures
        slot_gone(promote_multi(c), c.a),
{
    let n = c.f.len();
    let a = c.a;
    lemma_walk_visits_all(c);
    let st = walk(c);
    let st0 = walk_start(n as int);
    assert(walk_shaped(c, st0));
    if has_label(c.f, Block(0)) {
        lemma_visit_shaped(c, n, label_pos(c.f, Block(0)), Operand::Var(a), st0);
    }
    let g = assemble(c.f, c.sched, a, st);
    assert forall|i: int, j: int| 0 <= i < g.len() && 0 <= j < g[i].1.len() implies
        !slot_position(#[trigger] g[i].1[j], a) && forall|x: Var| slot_position(g[i].1[j], x) ==> exists|q: int|
            0 <= q < c.f[i].1.len() && slot_position(c.f[i].1[q], x) by {
        let phis: Seq<InstView> = if c.sched[i] {
            seq![InstView::Phi { dist: a, incomes: st.incomes[i] }]
        } else {
            Seq::empty()
        };
        assert(st.visited[i]);
        let cu = choose|cu: Operand| st.bodies[i] == rename_block(c.f[i].1, a, cu).0;
        lemma_rename_block_shape(c.f[i].1, a, cu);
        assert(g[i].1 == phis + st.bodies[i]);
        if j >= phis.len() {
            let k = j - phis.len();
            assert(g[i].1[j] == st.bodies[i][k]);
            let (q, c2) = choose|q: int, c2: Operand|
                0 <= q < c.f[i].1.len() && !slot_position(c.f[i].1[q], a) && #[trigger] rename_block(c.f[i].1, a, cu).0[k]
                    == c.f[i].1[q].rename(a, c2);
            assert forall|x: Var| slot_position(g[i].1[j], x) implies exists|q2: int|
                0 <= q2 < c.f[i].1.len() && slot_position(c.f[i].1[q2], x) by {
                lemma_rename_same_slots(c.f[i].1[q], a, c2, x);
            }
            lemma_rename_same_slots(c.f[i].1[q], a, c2, a);
        }
    }
    assert forall|k: int, i: int, j: int|
        0 <= k < st.loads.len() && 0 <= i < g.len() && 0 <= j < g[i].1.len() implies !slot_position(
        #[trigger] g[i].1[j],
        (#[trigger] st.loads[k]).0,
    ) by {
        let d = st.loads[k].0;
        assert(loaded_from(c.f, a, d));
        if slot_position(g[i].1[j], d) {
            let q = choose|q: int| 0 <= q < c.f[i].1.len() && slot_position(c.f[i].1[q], d);
        }
    }
    lemma_rename_loads_gone(g, st.loads, a);
}

/// Promoting a slot that is stored to leaves no `Alloca` of it, no store to it and
/// no load from it: for a single store, when the stored operand is not the slot;
/// otherwise, when every block is reachable from the entry and loads from the slot
/// yield plain values.
pub proof fn lemma_promote_removes_slot(
    f: FuncView,
    succ: Seq<Seq<int>>,
    df: Seq<(Block, Vec<Block>)>,
    a: Var,
)
    requires
        stores_of(f, a).len() >= 1,
        stores_of(f, a).len() == 1 ==> stores_of(f, a)[0] != Operand::Var(a),
        stores_of(f, a).len() > 1 ==> {
            &&& ctx_wf(ctx_of(f, succ, df, a))
            &&& has_label(f, Block(0))
            &&& all_reachable(succ, f.len() as int, label_pos(f, Block(0)))
            &&& loads_are_values(f, a)
        },
    ensures
        slot_gone(promote(f, succ, df, a), a),
{
    if stores_of(f, a).len() == 1 {
        lemma_single_removes_slot(f, a);
    } else {
        lemma_multi_removes_slot(ctx_of(f, succ, df, a));
    }
}

} // verus!
