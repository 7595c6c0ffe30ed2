//! Single definitions after promotion: a value that is not a slot keeps at most one
//! definition, and a slot is defined only by its `Alloca` or by `Phi`s.
use vstd::prelude::*;

use crate::dom::{label_pos, lemma_label_pos};
use crate::elim::{lemma_visit_shaped, loaded_from, loads_are_values, slot_position, walk_shaped};
use crate::func::{FuncView, func_wf, has_label, labels_increasing, rename_func};
use crate::idem::{
    frontend_form, has_load, lemma_rename_seq_prepend, lemma_slot_list_exists, lemma_step_facts,
    lemma_promoted_inv, loads_apart, promoted_inv, rename_seq, slot_renames, is_slot_list,
};
use crate::inst::{Block, InstView, Operand, Var};
use crate::mem2reg::{
    RenameCtx, assemble, ctx_of, has_alloca, is_alloca_of, loads_of, mem2reg_spec, promote,
    promote_multi, promote_single, promote_upto, rename_block, rename_step, slots_of,
    stores_of, strip_slot, succ_table, walk, walk_start,
};
use crate::phi::{all_reachable, ctx_wf, lemma_walk_visits_all};

verus! {

/// `idx` strictly increases and points into `s` outside the slot positions of `a`.
pub open spec fn index_map(s: Seq<InstView>, a: Var, idx: Seq<int>) -> bool {
    &&& forall|k1: int, k2: int| 0 <= k1 < k2 < idx.len() ==> (#[trigger] idx[k1]) < (#[trigger] idx[k2])
    &&& forall|k: int| 0 <= k < idx.len() ==> 0 <= #[trigger] idx[k] < s.len() && !slot_position(s[idx[k]], a)
    &&& forall|q: int| 0 <= q < s.len() && !slot_position(#[trigger] s[q], a) ==> idx.contains(q)
}

proof fn lemma_strip_index(s: Seq<InstView>, a: Var) -> (idx: Seq<int>)
    ensures
        index_map(s, a, idx),
        idx.len() == strip_slot(s, a, true).len(),
        forall|k: int| 0 <= k < idx.len() ==> #[trigger] strip_slot(s, a, true)[k] == s[idx[k]],
    decreases s.len(),
{
    if s.len() == 0 {
        Seq::empty()
    } else {
        let d = s.drop_last();
        let i0 = lemma_strip_index(d, a);
        let r = strip_slot(d, a, true);
        if slot_position(s.last(), a) {
            assert forall|k: int| 0 <= k < i0.len() implies #[trigger] strip_slot(s, a, true)[k] == s[i0[k]] by {
                assert(d[i0[k]] == s[i0[k]]);
            }
            assert forall|k: int| 0 <= k < i0.len() implies 0 <= #[trigger] i0[k] < s.len() && !slot_position(s[i0[k]], a) by {
                assert(d[i0[k]] == s[i0[k]]);
            }
            assert forall|q: int| 0 <= q < s.len() && !slot_position(#[trigger] s[q], a) implies i0.contains(q) by {
                if q == s.len() - 1 {
                    assert(s[q] == s.last());
                }
                assert(d[q] == s[q]);
            }
            i0
        } else {
            let idx = i0.push(s.len() - 1);
            assert(strip_slot(s, a, true) == r.push(s.last()));
            assert forall|k: int| 0 <= k < idx.len() implies #[trigger] strip_slot(s, a, true)[k] == s[idx[k]] by {
                if k < i0.len() {
                    assert(d[i0[k]] == s[i0[k]]);
                    assert(idx[k] == i0[k]);
                } else {
                    assert(s[s.len() - 1] == s.last());
                }
            }
            assert forall|k: int| 0 <= k < idx.len() implies 0 <= #[trigger] idx[k] < s.len() && !slot_position(s[idx[k]], a) by {
                if k < i0.len() {
                    assert(d[i0[k]] == s[i0[k]]);
                    assert(idx[k] == i0[k]);
                } else {
                    assert(s[s.len() - 1] == s.last());
                }
            }
            assert forall|k1: int, k2: int| 0 <= k1 < k2 < idx.len() implies (#[trigger] idx[k1]) < (#[trigger] idx[k2]) by {
                if k2 < i0.len() {
                    assert(idx[k1] == i0[k1] && idx[k2] == i0[k2]);
                } else {
                    assert(idx[k1] == i0[k1]);
                }
            }
            assert forall|q: int| 0 <= q < s.len() && !slot_position(#[trigger] s[q], a) implies idx.contains(q) by {
                if q < s.len() - 1 {
                    assert(d[q] == s[q]);
                    assert(i0.contains(q));
                    let w = choose|w: int| 0 <= w < i0.len() && i0[w] == q;
                    assert(idx[w] == q);
                } else {
                    assert(idx[i0.len() as int] == q);
                }
            }
            idx
        }
    }
}

pub(crate) proof fn lemma_rename_block_index(s: Seq<InstView>, a: Var, cur: Operand) -> (r: (Seq<int>, Seq<Operand>))
    ensures
        index_map(s, a, r.0),
        r.0.len() == rename_block(s, a, cur).0.len(),
        r.1.len() == r.0.len(),
        forall|k: int| 0 <= k < r.0.len() ==> #[trigger] rename_block(s, a, cur).0[k] == s[r.0[k]].rename(a, r.1[k]),
    decreases s.len(),
{
    if s.len() == 0 {
        (Seq::empty(), Seq::empty())
    } else {
        let d = s.drop_last();
        let (i0, c0) = lemma_rename_block_index(d, a, cur);
        let (body, c, loads) = rename_block(d, a, cur);
        let (b2, c2, l2) = rename_step(s.last(), a, c);
        let out = rename_block(s, a, cur).0;
        assert(out == body + b2);
        assert forall|k: int| 0 <= k < i0.len() implies 0 <= #[trigger] i0[k] < s.len() && !slot_position(s[i0[k]], a) && d[i0[k]] == s[i0[k]] by {
        }
        if b2.len() == 0 {
            assert forall|q: int| 0 <= q < s.len() && !slot_position(#[trigger] s[q], a) implies i0.contains(q) by {
                if q == s.len() - 1 {
                    assert(s[q] == s.last());
                }
                assert(d[q] == s[q]);
            }
            assert forall|k: int| 0 <= k < i0.len() implies #[trigger] rename_block(s, a, cur).0[k] == s[i0[k]].rename(a, c0[k]) by {
                assert(out[k] == body[k]);
                assert(d[i0[k]] == s[i0[k]]);
            }
            (i0, c0)
        } else {
            assert(!slot_position(s.last(), a));
            assert(b2 == seq![s.last().rename(a, c)]);
            let idx = i0.push(s.len() - 1);
            let cs = c0.push(c);
            assert forall|k: int| 0 <= k < idx.len() implies #[trigger] rename_block(s, a, cur).0[k] == s[idx[k]].rename(a, cs[k]) by {
                if k < i0.len() {
                    assert(out[k] == body[k]);
                    assert(idx[k] == i0[k]);
                    assert(cs[k] == c0[k]);
                    assert(d[i0[k]] == s[i0[k]]);
                } else {
                    assert(idx[k] == s.len() - 1);
                    assert(s[idx[k]] == s.last());
                    assert(out[k] == b2[0]);
                }
            }
            assert forall|k: int| 0 <= k < idx.len() implies 0 <= #[trigger] idx[k] < s.len() && !slot_position(s[idx[k]], a) by {
                if k < i0.len() {
                    assert(idx[k] == i0[k]);
                } else {
                    assert(s[s.len() - 1] == s.last());
                }
            }
            assert forall|k1: int, k2: int| 0 <= k1 < k2 < idx.len() implies (#[trigger] idx[k1]) < (#[trigger] idx[k2]) by {
                if k2 < i0.len() {
                    assert(idx[k1] == i0[k1] && idx[k2] == i0[k2]);
                } else {
                    assert(idx[k1] == i0[k1]);
                }
            }
            assert forall|q: int| 0 <= q < s.len() && !slot_position(#[trigger] s[q], a) implies idx.contains(q) by {
                if q < s.len() - 1 {
                    assert(d[q] == s[q]);
                    assert(i0.contains(q));
                    let w = choose|w: int| 0 <= w < i0.len() && i0[w] == q;
                    assert(idx[w] == q);
                } else {
                    assert(idx[i0.len() as int] == q);
                }
            }
            (idx, cs)
        }
    }
}

/// Block `y` of `g` is `p` `Phi`s defining `a`, then renamed copies of the
/// instructions of block `y` of `f` at the increasing positions `idx`.
pub open spec fn ordered_block(
    f: FuncView,
    a: Var,
    g: FuncView,
    y: int,
    p: int,
    idx: Seq<int>,
    rss: Seq<Seq<(Var, Operand)>>,
) -> bool {
    &&& 0 <= p
    &&& p + idx.len() == g[y].1.len()
    &&& rss.len() == idx.len()
    &&& forall|j: int| 0 <= j < p ==> (#[trigger] g[y].1[j]) is Phi && g[y].1[j].dist() == Some(a)
    &&& index_map(f[y].1, a, idx)
    &&& forall|k: int|
        0 <= k < idx.len() ==> slot_renames(f, a, #[trigger] rss[k]) && g[y].1[p + k] == rename_seq(
            f[y].1[idx[k]],
            rss[k],
        )
}

/// Every block of `g` is ordered from the same block of `f` (see [`ordered_block`]).
pub open spec fn ordered_from(f: FuncView, a: Var, g: FuncView) -> bool {
    &&& g.len() == f.len()
    &&& forall|y: int| 0 <= y < f.len() ==> (#[trigger] g[y]).0 == f[y].0
    &&& forall|y: int| 0 <= y < f.len() ==> #[trigger] block_ordered(f, a, g, y)
}

pub open spec fn block_ordered(f: FuncView, a: Var, g: FuncView, y: int) -> bool {
    exists|p: int, idx: Seq<int>, rss: Seq<Seq<(Var, Operand)>>|
        #[trigger] ordered_block(f, a, g, y, p, idx, rss)
}

pub(crate) proof fn lemma_single_ordered(f: FuncView, a: Var)
    requires
        stores_of(f, a).len() == 1,
    ensures
        ordered_from(f, a, promote_single(f, a)),
{
    let v = stores_of(f, a)[0];
    let stripped = f.map_values(|p: (Block, Seq<InstView>)| (p.0, strip_slot(p.1, a, true)));
    let r1 = rename_func(stripped, a, v);
    let ds = loads_of(f, a);
    let g = promote_single(f, a);
    let tail = ds.map_values(|d: Var| (d, v));
    let rs = seq![(a, v)] + tail;
    assert(slot_renames(f, a, rs)) by {
        assert forall|t: int| 0 <= t < rs.len() implies (#[trigger] rs[t]).0 == a || loaded_from(f, a, rs[t].0) by {
            if t > 0 {
                assert(rs[t] == tail[t - 1]);
                crate::idem::lemma_loads_upto_source(f, a, f.len() as int, t - 1);
            }
        }
    }
    crate::idem::lemma_rename_each_len(r1, ds, v, 0);
    assert forall|y: int| 0 <= y < f.len() implies (#[trigger] g[y]).0 == f[y].0 by {
        crate::idem::lemma_rename_each_len(r1, ds, v, y);
    }
    assert forall|y: int| 0 <= y < f.len() implies #[trigger] block_ordered(f, a, g, y) by {
        let idx = lemma_strip_index(f[y].1, a);
        let rss = Seq::new(idx.len(), |k: int| rs);
        crate::idem::lemma_rename_each_len(r1, ds, v, y);
        assert forall|k: int| 0 <= k < idx.len() implies slot_renames(f, a, #[trigger] rss[k]) && g[y].1[0 + k] == rename_seq(f[y].1[idx[k]], rss[k]) by {
            crate::idem::lemma_rename_each_elem(r1, ds, v, y, k);
            lemma_rename_seq_prepend(f[y].1[idx[k]], (a, v), tail);
            assert(r1[y].1[k] == f[y].1[idx[k]].rename(a, v));
        }
        assert(ordered_block(f, a, g, y, 0, idx, rss));
    }
}

pub(crate) proof fn lemma_multi_ordered(c: RenameCtx)
    requires
        ctx_wf(c),
        has_label(c.f, Block(0)),
        all_reachable(c.succ, c.f.len() as int, label_pos(c.f, Block(0))),
        forall|d: Var| #[trigger] loaded_from(c.f, c.a, d) ==> d != c.a,
    ensures
        ordered_from(c.f, c.a, promote_multi(c)),
{
    let n = c.f.len();
    let a = c.a;
    let f = c.f;
    lemma_walk_visits_all(c);
    let st = walk(c);
    let st0 = walk_start(n as int);
    assert(walk_shaped(c, st0));
    lemma_visit_shaped(c, n, label_pos(c.f, Block(0)), Operand::Var(a), st0);
    let g = assemble(c.f, c.sched, a, st);
    let out = promote_multi(c);
    crate::idem::lemma_rename_loads_len(g, st.loads, 0);
    assert forall|y: int| 0 <= y < f.len() implies (#[trigger] out[y]).0 == f[y].0 by {
        crate::idem::lemma_rename_loads_len(g, st.loads, y);
    }
    assert forall|y: int| 0 <= y < f.len() implies #[trigger] block_ordered(f, a, out, y) by {
        let phis: Seq<InstView> = if c.sched[y] {
            seq![InstView::Phi { dist: a, incomes: st.incomes[y] }]
        } else {
            Seq::empty()
        };
        assert(st.visited[y]);
        let cu = choose|cu: Operand| st.bodies[y] == rename_block(c.f[y].1, a, cu).0;
        let (idx, cs) = lemma_rename_block_index(c.f[y].1, a, cu);
        assert(g[y].1 == phis + st.bodies[y]);
        let p = phis.len() as int;
        let rss = Seq::new(idx.len(), |k: int| seq![(a, cs[k])] + st.loads);
        crate::idem::lemma_rename_loads_len(g, st.loads, y);
        assert forall|j: int| 0 <= j < p implies (#[trigger] out[y].1[j]) is Phi && out[y].1[j].dist() == Some(a) by {
            crate::idem::lemma_rename_loads_elem(g, st.loads, y, j);
            assert(g[y].1[j] == InstView::Phi { dist: a, incomes: st.incomes[y] });
            assert forall|t: int| 0 <= t < st.loads.len() implies (#[trigger] st.loads[t]).0 != a by {
                assert(loaded_from(f, a, st.loads[t].0));
            }
            lemma_rename_seq_phi_dist(g[y].1[j], st.loads, a);
        }
        assert forall|k: int| 0 <= k < idx.len() implies slot_renames(f, a, #[trigger] rss[k]) && out[y].1[p + k] == rename_seq(f[y].1[idx[k]], rss[k]) by {
            crate::idem::lemma_rename_loads_elem(g, st.loads, y, p + k);
            assert(g[y].1[p + k] == st.bodies[y][k]);
            assert(st.bodies[y][k] == f[y].1[idx[k]].rename(a, cs[k]));
            lemma_rename_seq_prepend(f[y].1[idx[k]], (a, cs[k]), st.loads);
            let rs = rss[k];
            assert forall|t: int| 0 <= t < rs.len() implies (#[trigger] rs[t]).0 == a || loaded_from(f, a, rs[t].0) by {
                if t > 0 {
                    assert(rs[t] == st.loads[t - 1]);
                }
            }
        }
        assert(ordered_block(f, a, out, y, p, idx, rss));
    }
}

/// A `Phi` defining `a` keeps its definition under renamings of other values.
proof fn lemma_rename_seq_phi_dist(i: InstView, rs: Seq<(Var, Operand)>, a: Var)
    requires
        i is Phi,
        i.dist() == Some(a),
        forall|t: int| 0 <= t < rs.len() ==> (#[trigger] rs[t]).0 != a,
    ensures
        rename_seq(i, rs) is Phi,
        rename_seq(i, rs).dist() == Some(a),
    decreases rs.len(),
{
    if rs.len() > 0 {
        let d = rs.drop_last();
        assert forall|t: int| 0 <= t < d.len() implies (#[trigger] d[t]).0 != a by {
            assert(d[t] == rs[t]);
        }
        lemma_rename_seq_phi_dist(i, d, a);
        assert(rs[rs.len() - 1] == rs.last());
    }
}

/// Instruction `j` of block `y` of `f` defines `v`.
pub open spec fn defines_at(f: FuncView, v: Var, y: int, j: int) -> bool {
    0 <= y < f.len() && 0 <= j < f[y].1.len() && f[y].1[j].dist() == Some(v)
}

/// At most one instruction of `f` defines `v`.
pub open spec fn defined_once(f: FuncView, v: Var) -> bool {
    forall|y1: int, j1: int, y2: int, j2: int|
        #[trigger] defines_at(f, v, y1, j1) && #[trigger] defines_at(f, v, y2, j2) ==> y1 == y2 && j1 == j2
}

proof fn lemma_rename_seq_dist(i: InstView, rs: Seq<(Var, Operand)>)
    requires
        forall|t: int| 0 <= t < rs.len() ==> i.dist() != Some((#[trigger] rs[t]).0),
    ensures
        rename_seq(i, rs).dist() == i.dist(),
    decreases rs.len(),
{
    if rs.len() > 0 {
        let d = rs.drop_last();
        assert forall|t: int| 0 <= t < d.len() implies i.dist() != Some((#[trigger] d[t]).0) by {
            assert(d[t] == rs[t]);
        }
        lemma_rename_seq_dist(i, d);
        assert(rs[rs.len() - 1] == rs.last());
    }
}

/// Where a definition of promotion's result comes from.
#[verifier::rlimit(40)]
proof fn lemma_step_defs(f: FuncView, a: Var, g: FuncView)
    requires
        ordered_from(f, a, g),
        forall|y: int, q: int| #[trigger] defines_at(f, a, y, q) ==> slot_position(f[y].1[q], a),
        forall|d: Var, y: int, q: int|
            #[trigger] loaded_from(f, a, d) && #[trigger] defines_at(f, d, y, q) ==> slot_position(f[y].1[q], a),
    ensures
        forall|v: Var| v != a && #[trigger] defined_once(f, v) ==> defined_once(g, v),
        forall|y: int, j: int| #[trigger] defines_at(g, a, y, j) ==> g[y].1[j] is Phi,
        forall|v: Var, y: int, j: int|
            v != a && #[trigger] defines_at(g, v, y, j) ==> exists|q: int|
                #[trigger] defines_at(f, v, y, q) && (g[y].1[j] is Phi) == (f[y].1[q] is Phi)
                    && (g[y].1[j] is Alloca) == (f[y].1[q] is Alloca),
{
    // Each instruction of `g` past the leading Phis keeps the definition of its source.
    assert forall|y: int, j: int| 0 <= y < g.len() && 0 <= j < g[y].1.len() implies {
        let (p, idx, rss) = choose|p: int, idx: Seq<int>, rss: Seq<Seq<(Var, Operand)>>|
            #[trigger] ordered_block(f, a, g, y, p, idx, rss);
        (j < p ==> (#[trigger] g[y].1[j]) is Phi && g[y].1[j].dist() == Some(a)) && (j >= p ==> (
            g[y].1[j].dist() == f[y].1[idx[j - p]].dist() && (g[y].1[j] is Phi) == (f[y].1[idx[j - p]] is Phi)
                && (g[y].1[j] is Alloca) == (f[y].1[idx[j - p]] is Alloca) && f[y].1[idx[j - p]].dist() != Some(a)))
    } by {
        assert(block_ordered(f, a, g, y));
        let (p, idx, rss) = choose|p: int, idx: Seq<int>, rss: Seq<Seq<(Var, Operand)>>|
            #[trigger] ordered_block(f, a, g, y, p, idx, rss);
        if j >= p {
            let k = j - p;
            let b = f[y].1[idx[k]];
            let rs = rss[k];
            assert(slot_renames(f, a, rs));
            assert(!slot_position(b, a));
            assert(b.dist() != Some(a)) by {
                if b.dist() == Some(a) {
                    assert(defines_at(f, a, y, idx[k]));
                }
            }
            assert forall|t: int| 0 <= t < rs.len() implies b.dist() != Some((#[trigger] rs[t]).0) by {
                if rs[t].0 != a {
                    assert(loaded_from(f, a, rs[t].0));
                    if b.dist() == Some(rs[t].0) {
                        assert(defines_at(f, rs[t].0, y, idx[k]));
                    }
                }
            }
            lemma_rename_seq_dist(b, rs);
            crate::idem::lemma_rename_seq_variant(b, rs);
            crate::idem::lemma_rename_seq_kind(b, rs);
        }
    }
    assert forall|y: int, j: int| #[trigger] defines_at(g, a, y, j) implies g[y].1[j] is Phi by {
        assert(block_ordered(f, a, g, y));
        let (p, idx, rss) = choose|p: int, idx: Seq<int>, rss: Seq<Seq<(Var, Operand)>>|
            #[trigger] ordered_block(f, a, g, y, p, idx, rss);
    }
    assert forall|v: Var, y: int, j: int| v != a && #[trigger] defines_at(g, v, y, j) implies exists|q: int|
        #[trigger] defines_at(f, v, y, q) && (g[y].1[j] is Phi) == (f[y].1[q] is Phi)
            && (g[y].1[j] is Alloca) == (f[y].1[q] is Alloca) by {
        assert(block_ordered(f, a, g, y));
        let (p, idx, rss) = choose|p: int, idx: Seq<int>, rss: Seq<Seq<(Var, Operand)>>|
            #[trigger] ordered_block(f, a, g, y, p, idx, rss);
        let q = idx[j - p];
        assert(defines_at(f, v, y, q));
    }
    assert forall|v: Var| v != a && #[trigger] defined_once(f, v) implies defined_once(g, v) by {
        assert forall|y1: int, j1: int, y2: int, j2: int|
            #[trigger] defines_at(g, v, y1, j1) && #[trigger] defines_at(g, v, y2, j2) implies y1 == y2 && j1 == j2 by {
            assert(block_ordered(f, a, g, y1));
            assert(block_ordered(f, a, g, y2));
            let (p1, idx1, rss1) = choose|p: int, idx: Seq<int>, rss: Seq<Seq<(Var, Operand)>>|
                #[trigger] ordered_block(f, a, g, y1, p, idx, rss);
            let (p2, idx2, rss2) = choose|p: int, idx: Seq<int>, rss: Seq<Seq<(Var, Operand)>>|
                #[trigger] ordered_block(f, a, g, y2, p, idx, rss);
            assert(defines_at(f, v, y1, idx1[j1 - p1]));
            assert(defines_at(f, v, y2, idx2[j2 - p2]));
            if y1 == y2 {
                assert(idx1 == idx2 && p1 == p2);
                if j1 < j2 {
                    assert(idx1[j1 - p1] < idx1[j2 - p1]);
                } else if j2 < j1 {
                    assert(idx1[j2 - p1] < idx1[j1 - p1]);
                }
            }
        }
    }
}

/// What holds of definitions after promoting the first `k` slots of `f0`.
pub open spec fn ssa_inv(f0: FuncView, slots: Seq<Var>, k: int, fk: FuncView) -> bool {
    &&& promoted_inv(f0, slots, k, fk)
    &&& forall|v: Var| !has_alloca(f0, v) ==> #[trigger] defined_once(fk, v)
    &&& forall|v: Var, y: int, j: int|
        has_alloca(f0, v) && #[trigger] defines_at(fk, v, y, j) ==> fk[y].1[j] is Alloca || fk[y].1[j] is Phi
    &&& forall|t: int, y: int, j: int|
        k <= t < slots.len() && #[trigger] defines_at(fk, slots[t], y, j) ==> !(fk[y].1[j] is Phi)
}

#[verifier::rlimit(40)]
proof fn lemma_ssa_inv(f0: FuncView, df: Seq<(Block, Vec<Block>)>, slots: Seq<Var>, k: int)
    requires
        func_wf(f0),
        frontend_form(f0),
        has_label(f0, Block(0)),
        all_reachable(succ_table(f0), f0.len() as int, label_pos(f0, Block(0))),
        is_slot_list(f0, slots),
        forall|v: Var| #[trigger] defined_once(f0, v),
        0 <= k <= slots.len(),
    ensures
        ssa_inv(f0, slots, k, promote_upto(f0, succ_table(f0), df, slots, k)),
    decreases k,
{
    let succ0 = succ_table(f0);
    lemma_promoted_inv(f0, df, slots, k);
    if k == 0 {
        assert forall|v: Var, y: int, j: int|
            has_alloca(f0, v) && #[trigger] defines_at(f0, v, y, j) implies f0[y].1[j] is Alloca by {
            let (y2, j2) = choose|y2: int, j2: int| 0 <= y2 < f0.len() && 0 <= j2 < f0[y2].1.len() && #[trigger] is_alloca_of(f0[y2].1[j2], v);
            assert(defines_at(f0, v, y2, j2));
            assert(defined_once(f0, v));
        }
    } else {
        lemma_ssa_inv(f0, df, slots, k - 1);
        let fk = promote_upto(f0, succ0, df, slots, k - 1);
        let a = slots[k - 1];
        let g = promote(fk, succ0, df, a);
        assert(g == promote_upto(f0, succ0, df, slots, k));
        assert(slots.contains(a));
        assert(has_alloca(f0, a));
        if stores_of(fk, a).len() > 0 {
            assert forall|d: Var| #[trigger] loaded_from(fk, a, d) implies d != a && !has_alloca(f0, d) by {
                let (y, q) = choose|y: int, q: int| 0 <= y < fk.len() && 0 <= q < fk[y].1.len() && #[trigger] fk[y].1[q] == (InstView::Load { dist: d, op1: Operand::Var(a) });
                assert(has_load(fk, d, Operand::Var(a)));
                assert(has_load(f0, d, Operand::Var(a)));
            }
            if stores_of(fk, a).len() == 1 {
                lemma_single_ordered(fk, a);
            } else {
                let c = ctx_of(fk, succ0, df, a);
                let ew = choose|p: int| 0 <= p < f0.len() && (#[trigger] f0[p]).0 == Block(0);
                lemma_label_pos(f0, ew);
                assert(fk[ew].0 == Block(0));
                assert(labels_increasing(fk)) by {
                    assert forall|i: int, j: int| 0 <= i < j < fk.len() implies (#[trigger] fk[i]).0.0 < (#[trigger] fk[j]).0.0 by {
                        assert(f0[i].0.0 < f0[j].0.0);
                    }
                }
                lemma_label_pos(fk, ew);
                assert(ctx_wf(c)) by {
                    assert forall|x: int, q: int| 0 <= x < c.f.len() && 0 <= q < c.succ[x].len() implies 0 <= #[trigger] c.succ[x][q] < c.f.len() by {
                        let b = crate::func::block_succ(f0[x].1)[q];
                        assert(has_label(f0, b));
                        let p = choose|p: int| 0 <= p < f0.len() && (#[trigger] f0[p]).0 == b;
                        lemma_label_pos(f0, p);
                    }
                }
                assert(has_label(fk, Block(0)));
                lemma_multi_ordered(c);
            }
            assert forall|y: int, q: int| #[trigger] defines_at(fk, a, y, q) implies slot_position(fk[y].1[q], a) by {
                assert(fk[y].1[q] is Alloca || fk[y].1[q] is Phi);
                assert(!(fk[y].1[q] is Phi));
                assert(is_alloca_of(fk[y].1[q], a));
            }
            assert forall|d: Var, y: int, q: int|
                #[trigger] loaded_from(fk, a, d) && #[trigger] defines_at(fk, d, y, q) implies slot_position(fk[y].1[q], a) by {
                let (y2, q2) = choose|y2: int, q2: int| 0 <= y2 < fk.len() && 0 <= q2 < fk[y2].1.len() && #[trigger] fk[y2].1[q2] == (InstView::Load { dist: d, op1: Operand::Var(a) });
                assert(defines_at(fk, d, y2, q2));
                assert(defined_once(fk, d));
            }
            lemma_step_defs(fk, a, g);
            assert forall|v: Var| !has_alloca(f0, v) implies #[trigger] defined_once(g, v) by {
                assert(defined_once(fk, v));
            }
            assert forall|v: Var, y: int, j: int|
                has_alloca(f0, v) && #[trigger] defines_at(g, v, y, j) implies g[y].1[j] is Alloca || g[y].1[j] is Phi by {
                if v != a {
                    let q = choose|q: int| #[trigger] defines_at(fk, v, y, q) && (g[y].1[j] is Phi) == (fk[y].1[q] is Phi)
                        && (g[y].1[j] is Alloca) == (fk[y].1[q] is Alloca);
                }
            }
            assert forall|t: int, y: int, j: int|
                k <= t < slots.len() && #[trigger] defines_at(g, slots[t], y, j) implies !(g[y].1[j] is Phi) by {
                assert(slots[k - 1].0 < slots[t].0);
                let q = choose|q: int| #[trigger] defines_at(fk, slots[t], y, q) && (g[y].1[j] is Phi) == (fk[y].1[q] is Phi)
                    && (g[y].1[j] is Alloca) == (fk[y].1[q] is Alloca);
            }
        }
    }
}

/// After promotion of a function in the front end's form in which each value is
/// defined at most once, a value that is not a slot is still defined at most once,
/// and a slot is defined only by its `Alloca` or by `Phi`s (one per block that
/// needs one).
pub proof fn lemma_mem2reg_single_definitions(f: FuncView, df: Seq<(Block, Vec<Block>)>)
    requires
        func_wf(f),
        frontend_form(f),
        has_label(f, Block(0)),
        all_reachable(succ_table(f), f.len() as int, label_pos(f, Block(0))),
        forall|v: Var| #[trigger] defined_once(f, v),
    ensures
        forall|v: Var| !has_alloca(f, v) ==> #[trigger] defined_once(mem2reg_spec(f, df), v),
        forall|v: Var, y: int, j: int|
            has_alloca(f, v) && #[trigger] defines_at(mem2reg_spec(f, df), v, y, j) ==> mem2reg_spec(f, df)[y].1[j] is Alloca
                || mem2reg_spec(f, df)[y].1[j] is Phi,
{
    lemma_slot_list_exists(f);
    let s0 = slots_of(f);
    lemma_ssa_inv(f, df, s0, s0.len() as int);
}

} // verus!
