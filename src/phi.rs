//! What the renaming walk of promotion records in each `Phi`: one income per
//! predecessor, when every block is reachable from the entry.
use vstd::prelude::*;

use crate::dom::label_pos;
use crate::func::{FuncView, has_label, labels_increasing};
use crate::inst::{Block, Operand};
use crate::func::rename_func;
use crate::inst::InstView;
use crate::mem2reg::{
    RenameCtx, RenameView, above, assemble, below, promote_multi, record, record_succs,
    rename_loads, visit, visit_succs, walk, walk_start,
};

verus! {

/// The number of blocks not visited yet.
pub open spec fn unvisited(v: Seq<bool>) -> nat
    decreases v.len(),
{
    if v.len() == 0 {
        0
    } else {
        unvisited(v.drop_last()) + if v.last() {
            0nat
        } else {
            1nat
        }
    }
}

/// The positions and successor table of `c` are consistent.
pub open spec fn ctx_wf(c: RenameCtx) -> bool {
    &&& labels_increasing(c.f)
    &&& c.succ.len() == c.f.len()
    &&& c.sched.len() == c.f.len()
    &&& forall|x: int, k: int|
        0 <= x < c.f.len() && 0 <= k < c.succ[x].len() ==> 0 <= #[trigger] c.succ[x][k] < c.f.len()
}

/// The labels of the blocks among `inc`.
pub open spec fn keys(inc: Seq<(Block, Operand)>) -> Seq<Block> {
    inc.map_values(|p: (Block, Operand)| p.0)
}

pub open spec fn keys_increasing(inc: Seq<(Block, Operand)>) -> bool {
    forall|i: int, j: int| 0 <= i < j < inc.len() ==> (#[trigger] inc[i]).0.0 < (#[trigger] inc[j]).0.0
}

/// The labels of the visited predecessors of the block at position `y`.
pub open spec fn visited_preds(c: RenameCtx, v: Seq<bool>, y: int) -> Set<Block> {
    Set::new(
        |b: Block|
            exists|x: int| 0 <= x < c.f.len() && v[x] && c.succ[x].contains(y) && c.f[x].0 == b,
    )
}

/// The labels of all predecessors of the block at position `y`.
pub open spec fn preds_set(c: RenameCtx, y: int) -> Set<Block> {
    Set::new(|b: Block| exists|x: int| 0 <= x < c.f.len() && c.succ[x].contains(y) && c.f[x].0 == b)
}

/// The recorded incomes name exactly the visited predecessors, in label order.
pub open spec fn incomes_ok(c: RenameCtx, st: RenameView) -> bool {
    &&& st.incomes.len() == c.f.len()
    &&& forall|y: int|
        0 <= y < c.f.len() ==> keys_increasing(#[trigger] st.incomes[y]) && (if c.sched[y] {
            keys(st.incomes[y]).to_set() == visited_preds(c, st.visited, y)
        } else {
            st.incomes[y].len() == 0
        })
}

/// Visited blocks stay visited; a block visited in `b` but not in `a` has all its
/// successors visited in `b`.
pub open spec fn grows_closed(c: RenameCtx, a: RenameView, b: RenameView) -> bool {
    &&& b.visited.len() == a.visited.len()
    &&& forall|x: int| 0 <= x < a.visited.len() && #[trigger] a.visited[x] ==> b.visited[x]
    &&& forall|x: int, k: int|
        0 <= x < a.visited.len() && b.visited[x] && !a.visited[x] && 0 <= k < c.succ[x].len()
            ==> b.visited[#[trigger] c.succ[x][k]]
}

proof fn lemma_unvisited_mark(v: Seq<bool>, b: int)
    requires
        0 <= b < v.len(),
        !v[b],
    ensures
        unvisited(v.update(b, true)) + 1 == unvisited(v),
    decreases v.len(),
{
    let u = v.update(b, true);
    if b == v.len() - 1 {
        assert(u.drop_last() =~= v.drop_last());
    } else {
        assert(u.drop_last() =~= v.drop_last().update(b, true));
        lemma_unvisited_mark(v.drop_last(), b);
    }
}

proof fn lemma_unvisited_mono(v: Seq<bool>, w: Seq<bool>)
    requires
        v.len() == w.len(),
        forall|x: int| 0 <= x < v.len() && #[trigger] v[x] ==> w[x],
    ensures
        unvisited(w) <= unvisited(v),
    decreases v.len(),
{
    if v.len() > 0 {
        lemma_unvisited_mono(v.drop_last(), w.drop_last());
    }
}

proof fn lemma_below_above(s: Seq<(Block, Operand)>, b: Block)
    requires
        keys_increasing(s),
    ensures
        keys_increasing(below(s, b)),
        keys_increasing(above(s, b)),
        forall|p: (Block, Operand)| #[trigger] below(s, b).contains(p) <==> s.contains(p) && p.0.0 < b.0,
        forall|p: (Block, Operand)| #[trigger] above(s, b).contains(p) <==> s.contains(p) && p.0.0 > b.0,
    decreases s.len(),
{
    if s.len() > 0 {
        let d = s.drop_last();
        assert(keys_increasing(d)) by {
            assert forall|i: int, j: int| 0 <= i < j < d.len() implies (#[trigger] d[i]).0.0 < (#[trigger] d[j]).0.0 by {
                assert(d[i] == s[i] && d[j] == s[j]);
            }
        }
        lemma_below_above(d, b);
        assert forall|p: (Block, Operand)| s.contains(p) <==> d.contains(p) || p == s.last() by {
            if s.contains(p) && p != s.last() {
                let i = choose|i: int| 0 <= i < s.len() && s[i] == p;
                assert(d[i] == p);
            }
            if d.contains(p) {
                let i = choose|i: int| 0 <= i < d.len() && d[i] == p;
                assert(s[i] == p);
            }
            if p == s.last() {
                assert(s[s.len() - 1] == p);
            }
        }
        assert forall|p: (Block, Operand)| #[trigger] d.contains(p) implies p.0.0 < s.last().0.0 by {
            let i = choose|i: int| 0 <= i < d.len() && d[i] == p;
            assert(s[i] == p);
        }
        let lo = below(d, b);
        let hi = above(d, b);
        if s.last().0.0 < b.0 {
            let e = lo.push(s.last());
            assert forall|p: (Block, Operand)| #[trigger] e.contains(p) <==> lo.contains(p) || p == s.last() by {
                if e.contains(p) && p != s.last() {
                    let i = choose|i: int| 0 <= i < e.len() && e[i] == p;
                    assert(lo[i] == p);
                }
                if lo.contains(p) {
                    let i = choose|i: int| 0 <= i < lo.len() && lo[i] == p;
                    assert(e[i] == p);
                }
                if p == s.last() {
                    assert(e[e.len() - 1] == p);
                }
            }
            assert(keys_increasing(e)) by {
                assert forall|i: int, j: int| 0 <= i < j < e.len() implies (#[trigger] e[i]).0.0 < (#[trigger] e[j]).0.0 by {
                    if j == e.len() - 1 {
                        assert(lo.contains(e[i]));
                    }
                }
            }
        }
        if s.last().0.0 > b.0 {
            let e = hi.push(s.last());
            assert forall|p: (Block, Operand)| #[trigger] e.contains(p) <==> hi.contains(p) || p == s.last() by {
                if e.contains(p) && p != s.last() {
                    let i = choose|i: int| 0 <= i < e.len() && e[i] == p;
                    assert(hi[i] == p);
                }
                if hi.contains(p) {
                    let i = choose|i: int| 0 <= i < hi.len() && hi[i] == p;
                    assert(e[i] == p);
                }
                if p == s.last() {
                    assert(e[e.len() - 1] == p);
                }
            }
            assert(keys_increasing(e)) by {
                assert forall|i: int, j: int| 0 <= i < j < e.len() implies (#[trigger] e[i]).0.0 < (#[trigger] e[j]).0.0 by {
                    if j == e.len() - 1 {
                        assert(hi.contains(e[i]));
                    }
                }
            }
        }
    }
}

/// Recording `b` keeps the labels increasing and adds `b` to them.
proof fn lemma_record(s: Seq<(Block, Operand)>, b: Block, v: Operand)
    requires
        keys_increasing(s),
    ensures
        keys_increasing(record(s, b, v)),
        keys(record(s, b, v)).to_set() == keys(s).to_set().insert(b),
{
    lemma_below_above(s, b);
    let lo = below(s, b);
    let hi = above(s, b);
    let r = record(s, b, v);
    let m = lo.push((b, v));
    assert(r == m + hi);
    assert forall|i: int| 0 <= i < lo.len() implies (#[trigger] lo[i]).0.0 < b.0 by {
        assert(lo.contains(lo[i]));
    }
    assert forall|i: int| 0 <= i < hi.len() implies (#[trigger] hi[i]).0.0 > b.0 by {
        assert(hi.contains(hi[i]));
    }
    assert(keys_increasing(r)) by {
        assert forall|i: int, j: int| 0 <= i < j < r.len() implies (#[trigger] r[i]).0.0 < (#[trigger] r[j]).0.0 by {
            if j < lo.len() {
                assert(r[i] == lo[i] && r[j] == lo[j]);
            } else if j == lo.len() {
                assert(r[i] == lo[i]);
            } else if i < lo.len() {
                assert(r[i] == lo[i] && r[j] == hi[j - lo.len() - 1]);
            } else if i == lo.len() {
                assert(r[j] == hi[j - lo.len() - 1]);
            } else {
                assert(r[i] == hi[i - lo.len() - 1] && r[j] == hi[j - lo.len() - 1]);
            }
        }
    }
    assert forall|x: Block| keys(r).to_set().contains(x) <==> keys(s).to_set().insert(b).contains(x) by {
        if keys(r).contains(x) {
            let i = choose|i: int| 0 <= i < keys(r).len() && keys(r)[i] == x;
            if i < lo.len() {
                assert(lo.contains(r[i]));
                assert(s.contains(r[i]));
                let j = choose|j: int| 0 <= j < s.len() && s[j] == r[i];
                assert(keys(s)[j] == x);
            } else if i > lo.len() {
                assert(r[i] == hi[i - lo.len() - 1]);
                assert(hi.contains(r[i]));
                let j = choose|j: int| 0 <= j < s.len() && s[j] == r[i];
                assert(keys(s)[j] == x);
            }
        }
        if keys(s).contains(x) && x != b {
            let j = choose|j: int| 0 <= j < keys(s).len() && keys(s)[j] == x;
            if x.0 < b.0 {
                assert(lo.contains(s[j]));
                let i = choose|i: int| 0 <= i < lo.len() && lo[i] == s[j];
                assert(keys(r)[i] == x);
            } else {
                assert(x.0 != b.0);
                assert(hi.contains(s[j]));
                let i = choose|i: int| 0 <= i < hi.len() && hi[i] == s[j];
                assert(r[i + lo.len() + 1] == hi[i]);
                assert(keys(r)[i + lo.len() + 1] == x);
            }
        }
        if x == b {
            assert(keys(r)[lo.len() as int] == b);
        }
    }
    assert(keys(r).to_set() =~= keys(s).to_set().insert(b));
}

proof fn lemma_record_succs(c: RenameCtx, b: int, out: Operand, inc: Seq<Seq<(Block, Operand)>>, k: int)
    requires
        ctx_wf(c),
        0 <= b < c.f.len(),
        inc.len() == c.f.len(),
        forall|y: int| 0 <= y < c.f.len() ==> keys_increasing(#[trigger] inc[y]),
        0 <= k <= c.succ[b].len(),
    ensures
        record_succs(c, b, out, inc, k).len() == c.f.len(),
        forall|y: int|
            0 <= y < c.f.len() ==> keys_increasing(#[trigger] record_succs(c, b, out, inc, k)[y]) && if c.sched[y]
                && exists|j: int| 0 <= j < k && c.succ[b][j] == y {
                keys(record_succs(c, b, out, inc, k)[y]).to_set() == keys(inc[y]).to_set().insert(
                    c.f[b].0,
                )
            } else {
                record_succs(c, b, out, inc, k)[y] == inc[y]
            },
    decreases k,
{
    if k > 0 {
        lemma_record_succs(c, b, out, inc, k - 1);
        let prev = record_succs(c, b, out, inc, k - 1);
        let s = c.succ[b][k - 1];
        if c.sched[s] {
            lemma_record(prev[s], c.f[b].0, out);
        }
        let cur = record_succs(c, b, out, inc, k);
        assert forall|y: int| 0 <= y < c.f.len() implies keys_increasing(#[trigger] cur[y]) && if c.sched[y]
            && exists|j: int| 0 <= j < k && c.succ[b][j] == y {
            keys(cur[y]).to_set() == keys(inc[y]).to_set().insert(c.f[b].0)
        } else {
            cur[y] == inc[y]
        } by {
            let was = exists|j: int| 0 <= j < k - 1 && c.succ[b][j] == y;
            if c.sched[y] && y == s {
                if was {
                    assert(keys(prev[y]).to_set().insert(c.f[b].0) =~= keys(inc[y]).to_set().insert(c.f[b].0));
                } else {
                    assert(prev[y] == inc[y]);
                }
            } else if c.sched[y] && (exists|j: int| 0 <= j < k && c.succ[b][j] == y) {
                let j = choose|j: int| 0 <= j < k && c.succ[b][j] == y;
                assert(j < k - 1);
                assert(was);
            }
        }
    }
}

proof fn lemma_visit(c: RenameCtx, fuel: nat, b: int, cur: Operand, st: RenameView)
    requires
        ctx_wf(c),
        0 <= b < c.f.len(),
        st.visited.len() == c.f.len(),
        !st.visited[b],
        fuel >= unvisited(st.visited),
        incomes_ok(c, st),
    ensures
        grows_closed(c, st, visit(c, fuel, b, cur, st)),
        visit(c, fuel, b, cur, st).visited[b],
        incomes_ok(c, visit(c, fuel, b, cur, st)),
    decreases fuel, c.succ[b].len() + 1,
{
    lemma_unvisited_mark(st.visited, b);
    let cur0 = if c.sched[b] {
        Operand::Var(c.a)
    } else {
        cur
    };
    let (body, out, loads) = crate::mem2reg::rename_block(c.f[b].1, c.a, cur0);
    let st1 = RenameView {
        visited: st.visited.update(b, true),
        incomes: record_succs(c, b, out, st.incomes, c.succ[b].len() as int),
        bodies: st.bodies.update(b, body),
        loads: st.loads + loads,
    };
    assert(visit(c, fuel, b, cur, st) == visit_succs(c, fuel, b, 0, out, st1));
    lemma_record_succs(c, b, out, st.incomes, c.succ[b].len() as int);
    assert(incomes_ok(c, st1)) by {
        assert forall|y: int| 0 <= y < c.f.len() implies keys_increasing(#[trigger] st1.incomes[y]) && (if c.sched[y] {
            keys(st1.incomes[y]).to_set() == visited_preds(c, st1.visited, y)
        } else {
            st1.incomes[y].len() == 0
        }) by {
            if c.sched[y] {
                if c.succ[b].contains(y) {
                    let j = choose|j: int| 0 <= j < c.succ[b].len() && c.succ[b][j] == y;
                    assert(exists|j: int| 0 <= j < c.succ[b].len() && c.succ[b][j] == y);
                    assert(visited_preds(c, st1.visited, y) =~= visited_preds(c, st.visited, y).insert(c.f[b].0)) by {
                        assert forall|l: Block| visited_preds(c, st1.visited, y).contains(l) <==> visited_preds(c, st.visited, y).insert(c.f[b].0).contains(l) by {
                            if visited_preds(c, st1.visited, y).contains(l) && l != c.f[b].0 {
                                let x = choose|x: int| 0 <= x < c.f.len() && st1.visited[x] && c.succ[x].contains(y) && c.f[x].0 == l;
                                assert(x != b);
                            }
                            if l == c.f[b].0 {
                                assert(st1.visited[b]);
                            }
                            if visited_preds(c, st.visited, y).contains(l) {
                                let x = choose|x: int| 0 <= x < c.f.len() && st.visited[x] && c.succ[x].contains(y) && c.f[x].0 == l;
                                assert(st1.visited[x]);
                            }
                        }
                    }
                } else {
                    assert(!exists|j: int| 0 <= j < c.succ[b].len() && c.succ[b][j] == y) by {
                        if exists|j: int| 0 <= j < c.succ[b].len() && c.succ[b][j] == y {
                            let j = choose|j: int| 0 <= j < c.succ[b].len() && c.succ[b][j] == y;
                            assert(c.succ[b].contains(y));
                        }
                    }
                    assert(visited_preds(c, st1.visited, y) =~= visited_preds(c, st.visited, y)) by {
                        assert forall|l: Block| visited_preds(c, st1.visited, y).contains(l) <==> visited_preds(c, st.visited, y).contains(l) by {
                            if visited_preds(c, st1.visited, y).contains(l) {
                                let x = choose|x: int| 0 <= x < c.f.len() && st1.visited[x] && c.succ[x].contains(y) && c.f[x].0 == l;
                                assert(x != b);
                                assert(st.visited[x]);
                            }
                            if visited_preds(c, st.visited, y).contains(l) {
                                let x = choose|x: int| 0 <= x < c.f.len() && st.visited[x] && c.succ[x].contains(y) && c.f[x].0 == l;
                                assert(st1.visited[x]);
                            }
                        }
                    }
                }
            }
        }
    }
    lemma_visit_succs(c, fuel, b, 0, out, st1);
    let res = visit_succs(c, fuel, b, 0, out, st1);
    assert(st1.visited[b]);
    assert(res.visited[b]);
    assert forall|x: int| 0 <= x < st.visited.len() && #[trigger] st.visited[x] implies res.visited[x] by {
        assert(st1.visited[x]);
    }
    assert forall|x: int, k: int|
        0 <= x < st.visited.len() && res.visited[x] && !st.visited[x] && 0 <= k < c.succ[x].len()
            implies res.visited[#[trigger] c.succ[x][k]] by {
        if x != b {
            assert(!st1.visited[x]);
        }
    }
}

proof fn lemma_visit_succs(c: RenameCtx, fuel: nat, b: int, k: int, cur: Operand, st: RenameView)
    requires
        ctx_wf(c),
        0 <= b < c.f.len(),
        st.visited.len() == c.f.len(),
        fuel >= 1 + unvisited(st.visited),
        0 <= k,
        incomes_ok(c, st),
    ensures
        grows_closed(c, st, visit_succs(c, fuel, b, k, cur, st)),
        forall|j: int|
            k <= j < c.succ[b].len() ==> visit_succs(c, fuel, b, k, cur, st).visited[#[trigger] c.succ[b][j]],
        incomes_ok(c, visit_succs(c, fuel, b, k, cur, st)),
    decreases fuel, c.succ[b].len() - k,
{
    if k < c.succ[b].len() {
        let s = c.succ[b][k];
        let st2 = if st.visited[s] {
            st
        } else {
            visit(c, (fuel - 1) as nat, s, cur, st)
        };
        if !st.visited[s] {
            lemma_visit(c, (fuel - 1) as nat, s, cur, st);
        }
        lemma_unvisited_mono(st.visited, st2.visited);
        lemma_visit_succs(c, fuel, b, k + 1, cur, st2);
        let res = visit_succs(c, fuel, b, k + 1, cur, st2);
        assert(visit_succs(c, fuel, b, k, cur, st) == res);
        assert forall|x: int, q: int|
            0 <= x < st.visited.len() && res.visited[x] && !st.visited[x] && 0 <= q < c.succ[x].len()
                implies res.visited[#[trigger] c.succ[x][q]] by {
            if st2.visited[x] {
                assert(st2.visited[c.succ[x][q]]);
            }
        }
        assert forall|j: int| k <= j < c.succ[b].len() implies res.visited[#[trigger] c.succ[b][j]] by {
            if j == k {
                assert(st2.visited[s]);
            }
        }
    }
}

/// A path through the successor table `succ` of `n` blocks from position `e`.
pub open spec fn is_path(succ: Seq<Seq<int>>, n: int, e: int, path: Seq<int>) -> bool {
    &&& path.len() > 0
    &&& path[0] == e
    &&& forall|i: int| 0 <= i < path.len() ==> 0 <= #[trigger] path[i] < n
    &&& forall|i: int| 0 <= i < path.len() - 1 ==> succ[#[trigger] path[i]].contains(path[i + 1])
}

/// The block at position `y` is reachable from position `e`.
pub open spec fn reachable(succ: Seq<Seq<int>>, n: int, e: int, y: int) -> bool {
    exists|path: Seq<int>| #[trigger] is_path(succ, n, e, path) && path.last() == y
}

/// Every one of the `n` blocks is reachable from position `e`.
pub open spec fn all_reachable(succ: Seq<Seq<int>>, n: int, e: int) -> bool {
    forall|y: int| 0 <= y < n ==> #[trigger] reachable(succ, n, e, y)
}

proof fn lemma_path_visited(c: RenameCtx, e: int, v: Seq<bool>, path: Seq<int>)
    requires
        is_path(c.succ, c.f.len() as int, e, path),
        v.len() == c.f.len(),
        v[e],
        forall|x: int, k: int| 0 <= x < c.f.len() && v[x] && 0 <= k < c.succ[x].len() ==> v[#[trigger] c.succ[x][k]],
    ensures
        v[path.last()],
    decreases path.len(),
{
    if path.len() > 1 {
        let d = path.drop_last();
        assert(is_path(c.succ, c.f.len() as int, e, d)) by {
            assert forall|i: int| 0 <= i < d.len() - 1 implies c.succ[#[trigger] d[i]].contains(d[i + 1]) by {
                assert(d[i] == path[i] && d[i + 1] == path[i + 1]);
            }
        }
        lemma_path_visited(c, e, v, d);
        let x = path[path.len() - 2];
        assert(c.succ[x].contains(path.last()));
        let k = choose|k: int| 0 <= k < c.succ[x].len() && c.succ[x][k] == path.last();
    }
}

proof fn lemma_unvisited_start(n: nat)
    ensures
        unvisited(walk_start(n as int).visited) == n,
    decreases n,
{
    if n > 0 {
        lemma_unvisited_start((n - 1) as nat);
        assert(walk_start(n as int).visited.drop_last() =~= walk_start(n - 1).visited);
    }
}

/// In a control-flow graph where every block is reachable from the entry, the walk
/// visits every block, and each `Phi` it fills names exactly the visited
/// predecessors of its block.
pub proof fn lemma_walk_visits_all(c: RenameCtx)
    requires
        ctx_wf(c),
        has_label(c.f, Block(0)),
        all_reachable(c.succ, c.f.len() as int, label_pos(c.f, Block(0))),
    ensures
        forall|y: int| 0 <= y < c.f.len() ==> #[trigger] walk(c).visited[y],
        walk(c).visited.len() == c.f.len(),
        incomes_ok(c, walk(c)),
{
    let n = c.f.len();
    let e = label_pos(c.f, Block(0));
    let st0 = walk_start(n as int);
    lemma_unvisited_start(n);
    assert(incomes_ok(c, st0)) by {
        assert forall|z: int| 0 <= z < n implies keys_increasing(#[trigger] st0.incomes[z]) && (if c.sched[z] {
            keys(st0.incomes[z]).to_set() == visited_preds(c, st0.visited, z)
        } else {
            st0.incomes[z].len() == 0
        }) by {
            assert(keys(st0.incomes[z]).to_set() =~= Set::<Block>::empty());
            assert(visited_preds(c, st0.visited, z) =~= Set::<Block>::empty());
        }
    }
    lemma_visit(c, n, e, crate::inst::Operand::Var(c.a), st0);
    let out = walk(c);
    assert forall|x: int, k: int| 0 <= x < n && out.visited[x] && 0 <= k < c.succ[x].len() implies out.visited[#[trigger] c.succ[x][k]] by {
        assert(!st0.visited[x]);
    }
    assert forall|y: int| 0 <= y < n implies #[trigger] out.visited[y] by {
        assert(reachable(c.succ, c.f.len() as int, e, y));
        let path = choose|path: Seq<int>| #[trigger] is_path(c.succ, c.f.len() as int, e, path) && path.last() == y;
        lemma_path_visited(c, e, out.visited, path);
    }
}

/// Every `Phi` that the walk fills, in a control-flow graph where every block is
/// reachable from the entry, has one income per predecessor of its block, in
/// label order.
pub proof fn lemma_phi_incomes_are_preds(c: RenameCtx, y: int)
    requires
        ctx_wf(c),
        has_label(c.f, Block(0)),
        all_reachable(c.succ, c.f.len() as int, label_pos(c.f, Block(0))),
        0 <= y < c.f.len(),
        c.sched[y],
    ensures
        keys_increasing(walk(c).incomes[y]),
        keys(walk(c).incomes[y]).to_set() == preds_set(c, y),
{
    lemma_walk_visits_all(c);
    let out = walk(c);
    assert(visited_preds(c, out.visited, y) =~= preds_set(c, y)) by {
        assert forall|l: Block| preds_set(c, y).contains(l) implies visited_preds(c, out.visited, y).contains(l) by {
            let x = choose|x: int| 0 <= x < c.f.len() && c.succ[x].contains(y) && c.f[x].0 == l;
            assert(out.visited[x]);
        }
    }
}

/// Renaming values keeps the labels of a block's leading `Phi`.
proof fn lemma_rename_loads_keeps_phi(f: FuncView, loads: Seq<(crate::inst::Var, Operand)>, y: int)
    requires
        0 <= y < f.len(),
        f[y].1.len() > 0,
        f[y].1[0] is Phi,
    ensures
        rename_loads(f, loads).len() == f.len(),
        rename_loads(f, loads)[y].1.len() > 0,
        rename_loads(f, loads)[y].1[0] is Phi,
        keys(rename_loads(f, loads)[y].1[0]->incomes) == keys(f[y].1[0]->incomes),
    decreases loads.len(),
{
    if loads.len() > 0 {
        lemma_rename_loads_keeps_phi(f, loads.drop_last(), y);
        let g = rename_loads(f, loads.drop_last());
        let h = rename_func(g, loads.last().0, loads.last().1);
        assert(h[y].1[0] == g[y].1[0].rename(loads.last().0, loads.last().1));
        assert(keys(h[y].1[0]->incomes) =~= keys(g[y].1[0]->incomes));
    }
}

/// Every `Phi` that promotion of a slot stored more than once places, in a
/// control-flow graph where every block is reachable from the entry, has one income
/// per predecessor of its block, in label order.
pub proof fn lemma_promoted_phi_incomes(c: RenameCtx, y: int)
    requires
        ctx_wf(c),
        has_label(c.f, Block(0)),
        all_reachable(c.succ, c.f.len() as int, label_pos(c.f, Block(0))),
        0 <= y < c.f.len(),
        c.sched[y],
    ensures
        promote_multi(c)[y].1.len() > 0,
        promote_multi(c)[y].1[0] is Phi,
        keys_increasing(promote_multi(c)[y].1[0]->incomes),
        keys(promote_multi(c)[y].1[0]->incomes).to_set() == preds_set(c, y),
{
    lemma_phi_incomes_are_preds(c, y);
    let st = walk(c);
    let g = assemble(c.f, c.sched, c.a, st);
    assert(g[y].1[0] == InstView::Phi { dist: c.a, incomes: st.incomes[y] });
    lemma_rename_loads_keeps_phi(g, st.loads, y);
    let r = promote_multi(c)[y].1[0]->incomes;
    assert(keys(r) == keys(st.incomes[y]));
    assert(keys_increasing(r)) by {
        assert forall|i: int, j: int| 0 <= i < j < r.len() implies (#[trigger] r[i]).0.0 < (#[trigger] r[j]).0.0 by {
            assert(keys(r)[i] == r[i].0 && keys(r)[j] == r[j].0);
            assert(keys(st.incomes[y])[i] == st.incomes[y][i].0);
            assert(keys(st.incomes[y])[j] == st.incomes[y][j].0);
        }
    }
}

} // verus!
