//! Promotion of stack slots to SSA values.
//!
//! Each `Alloca` slot `a`, in increasing order, is classified by its stores. A slot
//! that is never stored to stays. A slot stored once is replaced by the stored
//! operand. Any other slot gets a `Phi` (whose value is `a` itself) in every block
//! of the dominance frontier of a storing block, and a depth-first walk from the
//! entry carries the slot's current value: it replaces loads and uses of `a`, and
//! records the value leaving each block on each edge into a block with a `Phi`.
use vstd::prelude::*;

use crate::dom::{label_pos, lemma_label_pos, pos_view};
use crate::func::{
    BlockData, Func, FuncView, block_succ, func_wf, has_label, insert_sorted, labels_increasing, labels_sorted,
    lemma_same_labels, rename_func, same_labels,
};
use crate::inst::{Block, Inst, InstView, Operand, Var};
use crate::pred::{BlockSets, all_succ, contains_block};

verus! {

pub open spec fn is_alloca_of(i: InstView, a: Var) -> bool {
    i matches InstView::Alloca { dist } && dist == a
}

pub open spec fn is_store_to(i: InstView, a: Var) -> bool {
    i matches InstView::Store { op1, .. } && op1 == Operand::Var(a)
}

pub open spec fn is_load_from(i: InstView, a: Var) -> bool {
    i matches InstView::Load { op1, .. } && op1 == Operand::Var(a)
}

/// The operands stored to `a` in `s`, in order.
pub open spec fn block_stores(s: Seq<InstView>, a: Var) -> Seq<Operand>
    decreases s.len(),
{
    if s.len() == 0 {
        Seq::empty()
    } else {
        let r = block_stores(s.drop_last(), a);
        match s.last() {
            InstView::Store { op1, op2 } => if op1 == Operand::Var(a) {
                r.push(op2)
            } else {
                r
            },
            _ => r,
        }
    }
}

pub open spec fn stores_upto(f: FuncView, a: Var, n: int) -> Seq<Operand>
    decreases n,
{
    if n <= 0 {
        Seq::empty()
    } else {
        stores_upto(f, a, n - 1) + block_stores(f[n - 1].1, a)
    }
}

/// The operands stored to `a` in `f`, in block order, then instruction order.
pub open spec fn stores_of(f: FuncView, a: Var) -> Seq<Operand> {
    stores_upto(f, a, f.len() as int)
}

/// The values loaded from `a` in `s`, in order.
pub open spec fn block_loads(s: Seq<InstView>, a: Var) -> Seq<Var>
    decreases s.len(),
{
    if s.len() == 0 {
        Seq::empty()
    } else {
        let r = block_loads(s.drop_last(), a);
        match s.last() {
            InstView::Load { dist, op1 } => if op1 == Operand::Var(a) {
                r.push(dist)
            } else {
                r
            },
            _ => r,
        }
    }
}

pub open spec fn loads_upto(f: FuncView, a: Var, n: int) -> Seq<Var>
    decreases n,
{
    if n <= 0 {
        Seq::empty()
    } else {
        loads_upto(f, a, n - 1) + block_loads(f[n - 1].1, a)
    }
}

/// The values loaded from `a` in `f`, in block order, then instruction order.
pub open spec fn loads_of(f: FuncView, a: Var) -> Seq<Var> {
    loads_upto(f, a, f.len() as int)
}

/// `s` without the `Alloca` of `a`, the stores to `a` and, when `loads` holds, the
/// loads from `a`.
pub open spec fn strip_slot(s: Seq<InstView>, a: Var, loads: bool) -> Seq<InstView>
    decreases s.len(),
{
    if s.len() == 0 {
        Seq::empty()
    } else {
        let r = strip_slot(s.drop_last(), a, loads);
        let i = s.last();
        if is_alloca_of(i, a) || is_store_to(i, a) || (loads && is_load_from(i, a)) {
            r
        } else {
            r.push(i)
        }
    }
}

/// `f` with each of `ds`, in order, renamed to `v`.
pub open spec fn rename_each(f: FuncView, ds: Seq<Var>, v: Operand) -> FuncView
    decreases ds.len(),
{
    if ds.len() == 0 {
        f
    } else {
        rename_func(rename_each(f, ds.drop_last(), v), ds.last(), v)
    }
}

/// Promotion of a slot stored exactly once: its `Alloca`, store and loads go, and
/// the slot and every value loaded from it become the stored operand.
pub open spec fn promote_single(f: FuncView, a: Var) -> FuncView {
    let v = stores_of(f, a)[0];
    let stripped = f.map_values(|p: (Block, Seq<InstView>)| (p.0, strip_slot(p.1, a, true)));
    rename_each(rename_func(stripped, a, v), loads_of(f, a), v)
}

/// Whether some instruction of `f` is the `Alloca` of `a`.
pub open spec fn has_alloca(f: FuncView, a: Var) -> bool {
    exists|i: int, j: int|
        0 <= i < f.len() && 0 <= j < f[i].1.len() && #[trigger] is_alloca_of(f[i].1[j], a)
}

/// The slots of `func`, in increasing order.
pub fn collect_promotable(func: &Func) -> (r: Vec<Var>)
    ensures
        labels_sorted(r@),
        forall|v: Var| r@.contains(v) <==> has_alloca(func@, v),
{
    let mut r: Vec<Var> = Vec::new();
    let mut i: usize = 0;
    while i < func.blocks.len()
        invariant
            i <= func.blocks.len(),
            labels_sorted(r@),
            forall|v: Var|
                r@.contains(v) <==> exists|a: int, b: int|
                    0 <= a < i && 0 <= b < func@[a].1.len() && #[trigger] is_alloca_of(
                        func@[a].1[b],
                        v,
                    ),
        decreases func.blocks.len() - i,
    {
        let insts = &func.blocks[i].1.insts;
        let mut j: usize = 0;
        while j < insts.len()
            invariant
                i < func.blocks.len(),
                insts == func.blocks@[i as int].1.insts,
                j <= insts.len(),
                labels_sorted(r@),
                forall|v: Var|
                    r@.contains(v) <==> (exists|a: int, b: int|
                        0 <= a < i && 0 <= b < func@[a].1.len() && #[trigger] is_alloca_of(
                            func@[a].1[b],
                            v,
                        )) || (exists|b: int|
                        0 <= b < j && #[trigger] is_alloca_of(func@[i as int].1[b], v)),
            decreases insts.len() - j,
        {
            if let Inst::Alloca { dist } = &insts[j] {
                let ghost before = r@;
                insert_sorted(&mut r, *dist);
                proof {
                    assert forall|v: Var| r@.contains(v) == before.to_set().insert(*dist).contains(
                        v,
                    ) by {
                        assert(r@.to_set().contains(v) == r@.contains(v));
                        assert(before.to_set().contains(v) == before.contains(v));
                    }
                    assert(is_alloca_of(func@[i as int].1[j as int], *dist));
                }
            }
            j += 1;
        }
        proof {
            assert forall|v: Var|
                r@.contains(v) <==> exists|a: int, b: int|
                    0 <= a < i + 1 && 0 <= b < func@[a].1.len() && #[trigger] is_alloca_of(
                        func@[a].1[b],
                        v,
                    ) by {
                if exists|a: int, b: int|
                    0 <= a < i + 1 && 0 <= b < func@[a].1.len() && #[trigger] is_alloca_of(
                        func@[a].1[b],
                        v,
                    ) {
                    let (a, b) = choose|a: int, b: int|
                        0 <= a < i + 1 && 0 <= b < func@[a].1.len() && #[trigger] is_alloca_of(
                            func@[a].1[b],
                            v,
                        );
                    if a == i {
                        assert(is_alloca_of(func@[i as int].1[b], v));
                    }
                }
            }
        }
        i += 1;
    }
    r
}

/// The operands stored to `reg` (see [`stores_of`]).
fn stored_values(func: &Func, reg: Var) -> (r: Vec<Operand>)
    ensures
        r@ == stores_of(func@, reg),
{
    let mut r: Vec<Operand> = Vec::new();
    let mut i: usize = 0;
    while i < func.blocks.len()
        invariant
            i <= func.blocks.len(),
            r@ == stores_upto(func@, reg, i as int),
        decreases func.blocks.len() - i,
    {
        let insts = &func.blocks[i].1.insts;
        let ghost s = func@[i as int].1;
        let ghost base = r@;
        let mut j: usize = 0;
        while j < insts.len()
            invariant
                i < func.blocks.len(),
                insts == func.blocks@[i as int].1.insts,
                s == func@[i as int].1,
                j <= insts.len(),
                r@ == base + block_stores(s.take(j as int), reg),
            decreases insts.len() - j,
        {
            proof {
                assert(s.take(j + 1).drop_last() == s.take(j as int));
                assert(s.take(j + 1).last() == insts@[j as int]@);
            }
            if let Inst::Store { op1, op2 } = &insts[j] {
                if *op1 == Operand::Var(reg) {
                    r.push(*op2);
                    proof {
                        assert(r@ == base + block_stores(s.take(j + 1), reg));
                    }
                }
            }
            j += 1;
        }
        proof {
            assert(s.take(s.len() as int) == s);
        }
        i += 1;
    }
    r
}

/// The values loaded from `reg` (see [`loads_of`]).
fn loaded_values(func: &Func, reg: Var) -> (r: Vec<Var>)
    ensures
        r@ == loads_of(func@, reg),
{
    let mut r: Vec<Var> = Vec::new();
    let mut i: usize = 0;
    while i < func.blocks.len()
        invariant
            i <= func.blocks.len(),
            r@ == loads_upto(func@, reg, i as int),
        decreases func.blocks.len() - i,
    {
        let insts = &func.blocks[i].1.insts;
        let ghost s = func@[i as int].1;
        let ghost base = r@;
        let mut j: usize = 0;
        while j < insts.len()
            invariant
                i < func.blocks.len(),
                insts == func.blocks@[i as int].1.insts,
                s == func@[i as int].1,
                j <= insts.len(),
                r@ == base + block_loads(s.take(j as int), reg),
            decreases insts.len() - j,
        {
            proof {
                assert(s.take(j + 1).drop_last() == s.take(j as int));
                assert(s.take(j + 1).last() == insts@[j as int]@);
            }
            if let Inst::Load { dist, op1 } = &insts[j] {
                if *op1 == Operand::Var(reg) {
                    r.push(*dist);
                    proof {
                        assert(r@ == base + block_loads(s.take(j + 1), reg));
                    }
                }
            }
            j += 1;
        }
        proof {
            assert(s.take(s.len() as int) == s);
        }
        i += 1;
    }
    r
}

/// Whether `reg` is stored to exactly once.
pub fn stored_only_once(func: &Func, reg: Var) -> (r: bool)
    ensures
        r == (stores_of(func@, reg).len() == 1),
{
    stored_values(func, reg).len() == 1
}

/// `insts` without the slot `a` (see [`strip_slot`]).
fn strip_block(insts: &Vec<Inst>, a: Var, loads: bool) -> (r: Vec<Inst>)
    ensures
        r@.map_values(|i: Inst| i@) == strip_slot(insts@.map_values(|i: Inst| i@), a, loads),
{
    let ghost s = insts@.map_values(|i: Inst| i@);
    let mut r: Vec<Inst> = Vec::new();
    let mut j: usize = 0;
    while j < insts.len()
        invariant
            s == insts@.map_values(|i: Inst| i@),
            j <= insts.len(),
            r@.map_values(|i: Inst| i@) == strip_slot(s.take(j as int), a, loads),
        decreases insts.len() - j,
    {
        proof {
            assert(s.take(j + 1).drop_last() == s.take(j as int));
            assert(s.take(j + 1).last() == insts@[j as int]@);
        }
        let drop = match &insts[j] {
            Inst::Alloca { dist } => *dist == a,
            Inst::Store { op1, .. } => *op1 == Operand::Var(a),
            Inst::Load { op1, .. } => loads && *op1 == Operand::Var(a),
            _ => false,
        };
        if !drop {
            let ghost before = r@;
            r.push(insts[j].duplicate());
            proof {
                assert(r@.map_values(|i: Inst| i@) == before.map_values(|i: Inst| i@).push(
                    insts@[j as int]@,
                ));
            }
        }
        j += 1;
    }
    proof {
        assert(s.take(insts.len() as int) == s);
    }
    r
}

/// Removes the slot `a` from every block (see [`strip_slot`]).
fn strip_func(func: &mut Func, a: Var, loads: bool)
    ensures
        final(func)@ == old(func)@.map_values(
            |p: (Block, Seq<InstView>)| (p.0, strip_slot(p.1, a, loads)),
        ),
{
    let ghost bb = func.blocks@;
    let mut i: usize = 0;
    while i < func.blocks.len()
        invariant
            func.blocks.len() == bb.len(),
            i <= func.blocks.len(),
            forall|k: int|
                0 <= k < i ==> (#[trigger] func.blocks@[k]).0 == bb[k].0 && func.blocks@[k].1@
                    == strip_slot(bb[k].1@, a, loads),
            forall|k: int| i <= k < func.blocks.len() ==> #[trigger] func.blocks@[k] == bb[k],
        decreases func.blocks.len() - i,
    {
        let insts = strip_block(&func.blocks[i].1.insts, a, loads);
        func.blocks[i].1.insts = insts;
        i += 1;
    }
    assert(func@ =~= old(func)@.map_values(
        |p: (Block, Seq<InstView>)| (p.0, strip_slot(p.1, a, loads)),
    ));
}

/// Promotes a slot stored exactly once (see [`promote_single`]).
pub fn single_stored(func: &mut Func, reg: Var)
    requires
        stores_of(old(func)@, reg).len() == 1,
    ensures
        final(func)@ == promote_single(old(func)@, reg),
        final(func)@.len() == old(func)@.len(),
        forall|i: int| 0 <= i < old(func)@.len() ==> #[trigger] final(func)@[i].0 == old(func)@[i].0,
{
    let stores = stored_values(func, reg);
    let v = stores[0];
    let loads = loaded_values(func, reg);
    strip_func(func, reg, true);
    func.rename_var(reg, v);
    let ghost base = func@;
    let mut k: usize = 0;
    while k < loads.len()
        invariant
            k <= loads.len(),
            func@ == rename_each(base, loads@.take(k as int), v),
            func@.len() == old(func)@.len(),
            forall|i: int| 0 <= i < old(func)@.len() ==> #[trigger] func@[i].0 == old(func)@[i].0,
        decreases loads.len() - k,
    {
        proof {
            assert(loads@.take(k + 1).drop_last() == loads@.take(k as int));
        }
        func.rename_var(loads[k], v);
        k += 1;
    }
    proof {
        assert(loads@.take(loads.len() as int) == loads@);
    }
}

/// Whether `s` stores to `a`.
pub open spec fn block_has_store(s: Seq<InstView>, a: Var) -> bool {
    exists|j: int| 0 <= j < s.len() && #[trigger] is_store_to(s[j], a)
}

/// Whether the block at position `y` gets a `Phi` for `a`: it lies in the dominance
/// frontier `df` of a block that stores to `a`.
pub open spec fn phi_scheduled(f: FuncView, df: Seq<(Block, Vec<Block>)>, a: Var, y: int) -> bool {
    exists|x: int|
        0 <= x < f.len() && block_has_store(f[x].1, a) && #[trigger] df[x].1@.contains(f[y].0)
}

/// The successors of every block of `f`, as positions.
pub open spec fn succ_table(f: FuncView) -> Seq<Seq<int>> {
    Seq::new(
        f.len(),
        |i: int| block_succ(f[i].1).map_values(|b: Block| label_pos(f, b)),
    )
}

/// What the renaming walk for slot `a` works on.
pub struct RenameCtx {
    pub f: FuncView,
    pub succ: Seq<Seq<int>>,
    pub sched: Seq<bool>,
    pub a: Var,
}

/// The state of the renaming walk: the blocks visited, the incomes recorded for
/// each block, the rewritten instructions of each visited block, and the loads
/// replaced so far with the value each stands for.
pub struct RenameView {
    pub visited: Seq<bool>,
    pub incomes: Seq<Seq<(Block, Operand)>>,
    pub bodies: Seq<Seq<InstView>>,
    pub loads: Seq<(Var, Operand)>,
}

/// One instruction under the walk, with `cur` the slot's current value: what it
/// becomes, the current value after it, and the load it replaces.
pub open spec fn rename_step(i: InstView, a: Var, cur: Operand) -> (
    Seq<InstView>,
    Operand,
    Seq<(Var, Operand)>,
) {
    match i {
        InstView::Alloca { dist } => if dist == a {
            (Seq::empty(), cur, Seq::empty())
        } else {
            (seq![i], cur, Seq::empty())
        },
        InstView::Store { op1, op2 } => if op1 == Operand::Var(a) {
            (Seq::empty(), op2, Seq::empty())
        } else {
            (seq![i.rename(a, cur)], cur, Seq::empty())
        },
        InstView::Load { dist, op1 } => if op1 == Operand::Var(a) {
            (Seq::empty(), cur, seq![(dist, cur)])
        } else {
            (seq![i.rename(a, cur)], cur, Seq::empty())
        },
        _ => (seq![i.rename(a, cur)], cur, Seq::empty()),
    }
}

/// A block under the walk, entered with current value `cur`.
pub open spec fn rename_block(s: Seq<InstView>, a: Var, cur: Operand) -> (
    Seq<InstView>,
    Operand,
    Seq<(Var, Operand)>,
)
    decreases s.len(),
{
    if s.len() == 0 {
        (Seq::empty(), cur, Seq::empty())
    } else {
        let (body, c, loads) = rename_block(s.drop_last(), a, cur);
        let (b2, c2, l2) = rename_step(s.last(), a, c);
        (body + b2, c2, loads + l2)
    }
}

pub open spec fn below(s: Seq<(Block, Operand)>, b: Block) -> Seq<(Block, Operand)>
    decreases s.len(),
{
    if s.len() == 0 {
        Seq::empty()
    } else if s.last().0.0 < b.0 {
        below(s.drop_last(), b).push(s.last())
    } else {
        below(s.drop_last(), b)
    }
}

pub open spec fn above(s: Seq<(Block, Operand)>, b: Block) -> Seq<(Block, Operand)>
    decreases s.len(),
{
    if s.len() == 0 {
        Seq::empty()
    } else if s.last().0.0 > b.0 {
        above(s.drop_last(), b).push(s.last())
    } else {
        above(s.drop_last(), b)
    }
}

/// The incomes `s` with `b` now bringing `v`, in label order.
pub open spec fn record(s: Seq<(Block, Operand)>, b: Block, v: Operand) -> Seq<(Block, Operand)> {
    below(s, b).push((b, v)) + above(s, b)
}

/// The incomes after block `b`, leaving with `out`, records itself in each of its
/// first `k` successors that has a `Phi`.
pub open spec fn record_succs(
    c: RenameCtx,
    b: int,
    out: Operand,
    incomes: Seq<Seq<(Block, Operand)>>,
    k: int,
) -> Seq<Seq<(Block, Operand)>>
    decreases k,
{
    if k <= 0 {
        incomes
    } else {
        let inc = record_succs(c, b, out, incomes, k - 1);
        let s = c.succ[b][k - 1];
        if c.sched[s] {
            inc.update(s, record(inc[s], c.f[b].0, out))
        } else {
            inc
        }
    }
}

/// Visiting block `b` with current value `cur`, then its unvisited successors in
/// order; `fuel` bounds the depth.
pub open spec fn visit(c: RenameCtx, fuel: nat, b: int, cur: Operand, st: RenameView) -> RenameView
    decreases fuel, c.succ[b].len() + 1,
{
    if fuel == 0 {
        st
    } else {
        let cur0 = if c.sched[b] {
            Operand::Var(c.a)
        } else {
            cur
        };
        let (body, out, loads) = rename_block(c.f[b].1, c.a, cur0);
        let st1 = RenameView {
            visited: st.visited.update(b, true),
            incomes: record_succs(c, b, out, st.incomes, c.succ[b].len() as int),
            bodies: st.bodies.update(b, body),
            loads: st.loads + loads,
        };
        visit_succs(c, fuel, b, 0, out, st1)
    }
}

pub open spec fn visit_succs(
    c: RenameCtx,
    fuel: nat,
    b: int,
    k: int,
    cur: Operand,
    st: RenameView,
) -> RenameView
    decreases fuel, c.succ[b].len() - k,
{
    if fuel == 0 || k < 0 || k >= c.succ[b].len() {
        st
    } else {
        let s = c.succ[b][k];
        let st2 = if st.visited[s] {
            st
        } else {
            visit(c, (fuel - 1) as nat, s, cur, st)
        };
        visit_succs(c, fuel, b, k + 1, cur, st2)
    }
}

pub open spec fn walk_start(n: int) -> RenameView {
    RenameView {
        visited: Seq::new(n as nat, |i: int| false),
        incomes: Seq::new(n as nat, |i: int| Seq::empty()),
        bodies: Seq::new(n as nat, |i: int| Seq::empty()),
        loads: Seq::empty(),
    }
}

/// The walk from the entry block, whose current value starts as the slot itself.
pub open spec fn walk(c: RenameCtx) -> RenameView {
    if has_label(c.f, Block(0)) {
        visit(
            c,
            c.f.len(),
            label_pos(c.f, Block(0)),
            Operand::Var(c.a),
            walk_start(c.f.len() as int),
        )
    } else {
        walk_start(c.f.len() as int)
    }
}

/// The blocks after the walk: each block with a `Phi` starts with it, a visited block
/// holds its rewritten instructions, any other loses the slot's `Alloca` and stores.
pub open spec fn assemble(f: FuncView, sched: Seq<bool>, a: Var, st: RenameView) -> FuncView {
    Seq::new(
        f.len(),
        |i: int|
            (
                f[i].0,
                (if sched[i] {
                    seq![InstView::Phi { dist: a, incomes: st.incomes[i] }]
                } else {
                    Seq::empty()
                }) + (if st.visited[i] {
                    st.bodies[i]
                } else {
                    strip_slot(f[i].1, a, false)
                }),
            ),
    )
}

/// `f` with each replaced load renamed, in order, to the value it stood for.
pub open spec fn rename_loads(f: FuncView, loads: Seq<(Var, Operand)>) -> FuncView
    decreases loads.len(),
{
    if loads.len() == 0 {
        f
    } else {
        rename_func(rename_loads(f, loads.drop_last()), loads.last().0, loads.last().1)
    }
}

/// Promotion of a slot stored more than once.
pub open spec fn promote_multi(c: RenameCtx) -> FuncView {
    rename_loads(assemble(c.f, c.sched, c.a, walk(c)), walk(c).loads)
}

/// The renaming context of slot `a` in `f`.
pub open spec fn ctx_of(f: FuncView, succ: Seq<Seq<int>>, df: Seq<(Block, Vec<Block>)>, a: Var) -> RenameCtx {
    RenameCtx { f, succ, sched: Seq::new(f.len(), |y: int| phi_scheduled(f, df, a, y)), a }
}

/// Promotion of slot `a`, by its number of stores.
pub open spec fn promote(
    f: FuncView,
    succ: Seq<Seq<int>>,
    df: Seq<(Block, Vec<Block>)>,
    a: Var,
) -> FuncView {
    let c = stores_of(f, a).len();
    if c == 0 {
        f
    } else if c == 1 {
        promote_single(f, a)
    } else {
        promote_multi(ctx_of(f, succ, df, a))
    }
}

/// The first `k` slots of `slots` promoted in order.
pub open spec fn promote_upto(
    f: FuncView,
    succ: Seq<Seq<int>>,
    df: Seq<(Block, Vec<Block>)>,
    slots: Seq<Var>,
    k: int,
) -> FuncView
    decreases k,
{
    if k <= 0 {
        f
    } else {
        promote(promote_upto(f, succ, df, slots, k - 1), succ, df, slots[k - 1])
    }
}

/// The blocks, from `s`, whose labels are below `b` (`lt`) or above it.
fn split_incomes(s: &Vec<(Block, Operand)>, b: Block) -> (r: (Vec<(Block, Operand)>, Vec<(Block, Operand)>))
    ensures
        r.0@ == below(s@, b),
        r.1@ == above(s@, b),
{
    let mut lo: Vec<(Block, Operand)> = Vec::new();
    let mut hi: Vec<(Block, Operand)> = Vec::new();
    let mut k: usize = 0;
    while k < s.len()
        invariant
            k <= s.len(),
            lo@ == below(s@.take(k as int), b),
            hi@ == above(s@.take(k as int), b),
        decreases s.len() - k,
    {
        proof {
            assert(s@.take(k + 1).drop_last() == s@.take(k as int));
            assert(s@.take(k + 1).last() == s@[k as int]);
        }
        let p = s[k];
        if p.0.0 < b.0 {
            lo.push(p);
        } else if p.0.0 > b.0 {
            hi.push(p);
        }
        k += 1;
    }
    proof {
        assert(s@.take(s.len() as int) == s@);
    }
    (lo, hi)
}

/// The incomes `s` with `b` bringing `v` (see [`record`]).
fn record_income(s: &Vec<(Block, Operand)>, b: Block, v: Operand) -> (r: Vec<(Block, Operand)>)
    ensures
        r@ == record(s@, b, v),
{
    let (mut lo, mut hi) = split_incomes(s, b);
    lo.push((b, v));
    lo.append(&mut hi);
    lo
}

/// A block under the walk (see [`rename_block`]); the replaced loads go to `loads`.
fn rename_insts(
    insts: &Vec<Inst>,
    a: Var,
    cur: Operand,
    loads: &mut Vec<(Var, Operand)>,
) -> (r: (Vec<Inst>, Operand))
    ensures
        (r.0@.map_values(|i: Inst| i@), r.1, final(loads)@.subrange(
            old(loads)@.len() as int,
            final(loads)@.len() as int,
        )) == rename_block(insts@.map_values(|i: Inst| i@), a, cur),
        final(loads)@.len() >= old(loads)@.len(),
        final(loads)@.subrange(0, old(loads)@.len() as int) == old(loads)@,
{
    let ghost s = insts@.map_values(|i: Inst| i@);
    let ghost base = loads@;
    let mut body: Vec<Inst> = Vec::new();
    let mut c = cur;
    let mut j: usize = 0;
    while j < insts.len()
        invariant
            s == insts@.map_values(|i: Inst| i@),
            j <= insts.len(),
            loads@.len() >= base.len(),
            loads@.subrange(0, base.len() as int) == base,
            (body@.map_values(|i: Inst| i@), c, loads@.subrange(
                base.len() as int,
                loads@.len() as int,
            )) == rename_block(s.take(j as int), a, cur),
        decreases insts.len() - j,
    {
        proof {
            assert(s.take(j + 1).drop_last() == s.take(j as int));
            assert(s.take(j + 1).last() == insts@[j as int]@);
        }
        let ghost body0 = body@;
        let ghost loads0 = loads@;
        match &insts[j] {
            Inst::Alloca { dist } if *dist == a => {},
            Inst::Store { op1, op2 } if *op1 == Operand::Var(a) => {
                c = *op2;
            },
            Inst::Load { dist, op1 } if *op1 == Operand::Var(a) => {
                loads.push((*dist, c));
            },
            other => {
                body.push(other.renamed(a, c));
            },
        }
        proof {
            assert(body@.map_values(|i: Inst| i@) =~= body0.map_values(|i: Inst| i@) + rename_step(
                insts@[j as int]@,
                a,
                rename_block(s.take(j as int), a, cur).1,
            ).0);
            assert(loads@.subrange(0, base.len() as int) =~= base);
            assert(loads@.subrange(base.len() as int, loads@.len() as int) =~= loads0.subrange(
                base.len() as int,
                loads0.len() as int,
            ) + rename_step(insts@[j as int]@, a, rename_block(s.take(j as int), a, cur).1).2);
        }
        j += 1;
    }
    proof {
        assert(s.take(insts.len() as int) == s);
    }
    (body, c)
}

/// The state of the renaming walk (see [`RenameView`]); blocks are named by position.
pub struct Rename {
    pub visited: Vec<bool>,
    pub incomes: Vec<Vec<(Block, Operand)>>,
    pub bodies: Vec<Vec<Inst>>,
    pub loads: Vec<(Var, Operand)>,
}

impl View for Rename {
    type V = RenameView;

    open spec fn view(&self) -> RenameView {
        RenameView {
            visited: self.visited@,
            incomes: self.incomes@.map_values(|v: Vec<(Block, Operand)>| v@),
            bodies: self.bodies@.map_values(|v: Vec<Inst>| v@.map_values(|i: Inst| i@)),
            loads: self.loads@,
        }
    }
}

/// The context `(func, succ, sched, a)` of a walk: positions in range.
pub open spec fn ctx_ok(func: FuncView, succ: Seq<Vec<usize>>, sched: Seq<bool>) -> bool {
    &&& succ.len() == func.len()
    &&& sched.len() == func.len()
    &&& forall|i: int, k: int|
        0 <= i < func.len() && 0 <= k < succ[i]@.len() ==> #[trigger] succ[i]@[k] < func.len()
}

impl Rename {
    pub open spec fn sized(&self, n: int) -> bool {
        &&& self.visited@.len() == n
        &&& self.incomes@.len() == n
        &&& self.bodies@.len() == n
    }

    /// Visits block `b` with current value `cur`, then its unvisited successors
    /// (see [`visit`]).
    fn rename1(
        &mut self,
        func: &Func,
        succ: &Vec<Vec<usize>>,
        sched: &Vec<bool>,
        a: Var,
        fuel: usize,
        b: usize,
        cur: Operand,
    )
        requires
            ctx_ok(func@, succ@, sched@),
            old(self).sized(func@.len() as int),
            b < func@.len(),
        ensures
            final(self).sized(func@.len() as int),
            final(self)@ == visit(
                RenameCtx { f: func@, succ: pos_view(succ@), sched: sched@, a },
                fuel as nat,
                b as int,
                cur,
                old(self)@,
            ),
        decreases fuel,
    {
        let ghost c = RenameCtx { f: func@, succ: pos_view(succ@), sched: sched@, a };
        if fuel == 0 {
            return ;
        }
        let cur0 = if sched[b] {
            Operand::Var(a)
        } else {
            cur
        };
        let ghost st = self@;
        let (body, out) = rename_insts(&func.blocks[b].1.insts, a, cur0, &mut self.loads);
        self.visited[b] = true;
        self.bodies[b] = body;
        let ss = &succ[b];
        proof {
            assert(c.succ[b as int] == ss@.map_values(|x: usize| x as int));
            assert(self.loads@ =~= st.loads + rename_block(c.f[b as int].1, a, cur0).2);
        }
        let mut k: usize = 0;
        while k < ss.len()
            invariant
                ctx_ok(func@, succ@, sched@),
                c == (RenameCtx { f: func@, succ: pos_view(succ@), sched: sched@, a }),
                b < func@.len(),
                ss == succ@[b as int],
                c.succ[b as int] == ss@.map_values(|x: usize| x as int),
                self.sized(func@.len() as int),
                k <= ss.len(),
                self@.incomes == record_succs(c, b as int, out, st.incomes, k as int),
                self@.visited == st.visited.update(b as int, true),
                self@.bodies == st.bodies.update(b as int, rename_block(c.f[b as int].1, a, cur0).0),
                self@.loads == st.loads + rename_block(c.f[b as int].1, a, cur0).2,
            decreases ss.len() - k,
        {
            let s = ss[k];
            if sched[s] {
                let ghost before = self@.incomes;
                let inc = record_income(&self.incomes[s], func.blocks[b].0, out);
                self.incomes[s] = inc;
                proof {
                    assert(self@.incomes =~= before.update(s as int, record(before[s as int], c.f[b as int].0, out)));
                }
            }
            k += 1;
        }
        let ghost st1 = self@;
        let mut k: usize = 0;
        while k < ss.len()
            invariant
                ctx_ok(func@, succ@, sched@),
                c == (RenameCtx { f: func@, succ: pos_view(succ@), sched: sched@, a }),
                b < func@.len(),
                fuel > 0,
                ss == succ@[b as int],
                c.succ[b as int] == ss@.map_values(|x: usize| x as int),
                self.sized(func@.len() as int),
                k <= ss.len(),
                visit_succs(c, fuel as nat, b as int, 0, out, st1) == visit_succs(
                    c,
                    fuel as nat,
                    b as int,
                    k as int,
                    out,
                    self@,
                ),
            decreases ss.len() - k,
        {
            let s = ss[k];
            if !self.visited[s] {
                self.rename1(func, succ, sched, a, fuel - 1, s, out);
            }
            k += 1;
        }
    }
}

/// The renaming walk for slot `reg` from the entry block (see [`walk`]).
fn rename(func: &Func, succ: &Vec<Vec<usize>>, sched: &Vec<bool>, reg: Var) -> (r: Rename)
    requires
        labels_increasing(func@),
        ctx_ok(func@, succ@, sched@),
    ensures
        r.sized(func@.len() as int),
        r@ == walk(RenameCtx { f: func@, succ: pos_view(succ@), sched: sched@, a: reg }),
{
    let n = func.blocks.len();
    let mut rn = Rename {
        visited: Vec::new(),
        incomes: Vec::new(),
        bodies: Vec::new(),
        loads: Vec::new(),
    };
    let mut i: usize = 0;
    while i < n
        invariant
            i <= n,
            rn.sized(i as int),
            rn@.visited == Seq::new(i as nat, |k: int| false),
            rn@.incomes == Seq::new(i as nat, |k: int| Seq::<(Block, Operand)>::empty()),
            rn@.bodies == Seq::new(i as nat, |k: int| Seq::<InstView>::empty()),
            rn@.loads == Seq::<(Var, Operand)>::empty(),
        decreases n - i,
    {
        let no_incomes: Vec<(Block, Operand)> = Vec::new();
        let no_body: Vec<Inst> = Vec::new();
        let ghost before = rn@;
        assert(no_body@.map_values(|i: Inst| i@) =~= Seq::<InstView>::empty());
        rn.visited.push(false);
        rn.incomes.push(no_incomes);
        rn.bodies.push(no_body);
        i += 1;
        proof {
            assert(rn@.incomes =~= before.incomes.push(Seq::<(Block, Operand)>::empty()));
            assert(rn@.bodies =~= before.bodies.push(Seq::<InstView>::empty()));
            assert(rn@.visited =~= Seq::new(i as nat, |k: int| false));
            assert(rn@.incomes =~= Seq::new(i as nat, |k: int| Seq::<(Block, Operand)>::empty()));
            assert(rn@.bodies =~= Seq::new(i as nat, |k: int| Seq::<InstView>::empty()));
        }
    }
    assert(rn@ == walk_start(n as int));
    match func.find_block(Block(0)) {
        Some(e) => {
            proof {
                lemma_label_pos(func@, e as int);
            }
            rn.rename1(func, succ, sched, reg, n, e, Operand::Var(reg));
        },
        None => {},
    }
    rn
}

/// Whether `insts` stores to `a`.
fn has_store(insts: &Vec<Inst>, a: Var) -> (r: bool)
    ensures
        r == block_has_store(insts@.map_values(|i: Inst| i@), a),
{
    let ghost s = insts@.map_values(|i: Inst| i@);
    let mut j: usize = 0;
    while j < insts.len()
        invariant
            s == insts@.map_values(|i: Inst| i@),
            j <= insts.len(),
            forall|k: int| 0 <= k < j ==> !#[trigger] is_store_to(s[k], a),
        decreases insts.len() - j,
    {
        if let Inst::Store { op1, .. } = &insts[j] {
            if *op1 == Operand::Var(a) {
                assert(is_store_to(s[j as int], a));
                return true;
            }
        }
        j += 1;
    }
    false
}

/// The blocks, by position, that get a `Phi` for `reg` (see [`phi_scheduled`]).
pub fn insert_phi(func: &Func, dom_frontier: &BlockSets, reg: Var) -> (r: Vec<bool>)
    requires
        dom_frontier@.len() == func@.len(),
    ensures
        r@.len() == func@.len(),
        forall|y: int| 0 <= y < func@.len() ==> #[trigger] r@[y] == phi_scheduled(func@, dom_frontier@, reg, y),
{
    let n = func.blocks.len();
    let mut stores: Vec<bool> = Vec::new();
    let mut x: usize = 0;
    while x < n
        invariant
            n == func@.len(),
            x <= n,
            stores@.len() == x,
            forall|k: int| 0 <= k < x ==> #[trigger] stores@[k] == block_has_store(func@[k].1, reg),
        decreases n - x,
    {
        stores.push(has_store(&func.blocks[x].1.insts, reg));
        x += 1;
    }
    let mut r: Vec<bool> = Vec::new();
    let mut y: usize = 0;
    while y < n
        invariant
            n == func@.len(),
            dom_frontier@.len() == n,
            stores@.len() == n,
            forall|k: int| 0 <= k < n ==> #[trigger] stores@[k] == block_has_store(func@[k].1, reg),
            y <= n,
            r@.len() == y,
            forall|k: int| 0 <= k < y ==> #[trigger] r@[k] == phi_scheduled(func@, dom_frontier@, reg, k),
        decreases n - y,
    {
        let label = func.blocks[y].0;
        let mut found = false;
        let mut x: usize = 0;
        while x < n
            invariant
                n == func@.len(),
                dom_frontier@.len() == n,
                stores@.len() == n,
                forall|k: int| 0 <= k < n ==> #[trigger] stores@[k] == block_has_store(func@[k].1, reg),
                y < n,
                label == func@[y as int].0,
                x <= n,
                found == exists|k: int|
                    0 <= k < x && block_has_store(func@[k].1, reg)
                        && #[trigger] dom_frontier@[k].1@.contains(label),
            decreases n - x,
        {
            if stores[x] && contains_block(&dom_frontier[x].1, label) {
                found = true;
            }
            proof {
                if found && !(stores@[x as int] && dom_frontier@[x as int].1@.contains(label)) {
                    let k = choose|k: int|
                        0 <= k < x && block_has_store(func@[k].1, reg)
                            && #[trigger] dom_frontier@[k].1@.contains(label);
                    assert(0 <= k < x + 1);
                }
            }
            x += 1;
        }
        r.push(found);
        y += 1;
    }
    r
}

/// A copy of a list of instructions.
fn copy_insts(v: &Vec<Inst>) -> (r: Vec<Inst>)
    ensures
        r@.map_values(|i: Inst| i@) == v@.map_values(|i: Inst| i@),
{
    let mut r: Vec<Inst> = Vec::new();
    let mut k: usize = 0;
    while k < v.len()
        invariant
            k <= v.len(),
            r@.len() == k,
            forall|j: int| 0 <= j < k ==> (#[trigger] r@[j])@ == v@[j]@,
        decreases v.len() - k,
    {
        r.push(v[k].duplicate());
        k += 1;
    }
    assert(r@.map_values(|i: Inst| i@) =~= v@.map_values(|i: Inst| i@));
    r
}

/// Puts the walk's outcome into `func`: the `Phi`s, the rewritten blocks, the slot
/// gone from the others, and each replaced load renamed (see [`promote_multi`]).
fn rewrite(func: &mut Func, sched: &Vec<bool>, rn: &Rename, reg: Var)
    requires
        sched@.len() == old(func)@.len(),
        rn.sized(old(func)@.len() as int),
    ensures
        final(func)@ == rename_loads(assemble(old(func)@, sched@, reg, rn@), rn@.loads),
        final(func)@.len() == old(func)@.len(),
        forall|i: int| 0 <= i < old(func)@.len() ==> #[trigger] final(func)@[i].0 == old(func)@[i].0,
{
    let ghost target = assemble(old(func)@, sched@, reg, rn@);
    let ghost bb = func.blocks@;
    let mut i: usize = 0;
    while i < func.blocks.len()
        invariant
            sched@.len() == bb.len(),
            rn.sized(bb.len() as int),
            target == assemble(old(func)@, sched@, reg, rn@),
            old(func)@ == bb.map_values(|p: (Block, BlockData)| (p.0, p.1@)),
            func.blocks.len() == bb.len(),
            i <= func.blocks.len(),
            forall|k: int|
                0 <= k < i ==> (#[trigger] func.blocks@[k]).0 == target[k].0
                    && func.blocks@[k].1@ == target[k].1,
            forall|k: int| i <= k < func.blocks.len() ==> #[trigger] func.blocks@[k] == bb[k],
        decreases func.blocks.len() - i,
    {
        let mut insts: Vec<Inst> = Vec::new();
        if sched[i] {
            insts.push(Inst::Phi { dist: reg, incomes: crate::inst::copy_incomes(&rn.incomes[i]) });
        }
        let rest = if rn.visited[i] {
            copy_insts(&rn.bodies[i])
        } else {
            strip_block(&func.blocks[i].1.insts, reg, false)
        };
        let ghost head = insts@;
        let mut rest = rest;
        insts.append(&mut rest);
        proof {
            assert(insts@.map_values(|x: Inst| x@) =~= target[i as int].1);
        }
        func.blocks[i].1.insts = insts;
        i += 1;
    }
    assert(func@ =~= target);
    let ghost base = func@;
    let mut k: usize = 0;
    while k < rn.loads.len()
        invariant
            k <= rn.loads.len(),
            base == target,
            base.len() == old(func)@.len(),
            forall|j: int| 0 <= j < base.len() ==> #[trigger] base[j].0 == old(func)@[j].0,
            func@ == rename_loads(base, rn.loads@.take(k as int)),
            func@.len() == base.len(),
            forall|j: int| 0 <= j < base.len() ==> #[trigger] func@[j].0 == base[j].0,
        decreases rn.loads.len() - k,
    {
        proof {
            assert(rn.loads@.take(k + 1).drop_last() == rn.loads@.take(k as int));
        }
        let (d, v) = rn.loads[k];
        func.rename_var(d, v);
        k += 1;
    }
    proof {
        assert(rn.loads@.take(rn.loads.len() as int) == rn.loads@);
    }
}

/// The slots of `f` in increasing order.
pub open spec fn slots_of(f: FuncView) -> Seq<Var> {
    choose|s: Seq<Var>| labels_sorted(s) && forall|v: Var| s.contains(v) <==> has_alloca(f, v)
}

/// Two increasing lists of the same values are equal.
pub(crate) proof fn lemma_sorted_unique(s1: Seq<Var>, s2: Seq<Var>)
    requires
        labels_sorted(s1),
        labels_sorted(s2),
        forall|v: Var| s1.contains(v) <==> s2.contains(v),
    ensures
        s1 == s2,
    decreases s1.len(),
{
    if s1.len() == 0 {
        if s2.len() > 0 {
            assert(s2.contains(s2[0]));
        }
        assert(s1 =~= s2);
    } else {
        assert(s1.contains(s1[0]));
        assert(s2.len() > 0);
        assert(s2.contains(s2[0]));
        let j2 = choose|j: int| 0 <= j < s2.len() && s2[j] == s1[0];
        let j1 = choose|j: int| 0 <= j < s1.len() && s1[j] == s2[0];
        if j2 > 0 {
            assert(s2[0].0 < s2[j2].0);
        }
        if j1 > 0 {
            assert(s1[0].0 < s1[j1].0);
        }
        assert(s1[0] == s2[0]);
        let t1 = s1.drop_first();
        let t2 = s2.drop_first();
        assert forall|v: Var| t1.contains(v) <==> t2.contains(v) by {
            if t1.contains(v) {
                let k = choose|k: int| 0 <= k < t1.len() && t1[k] == v;
                assert(s1[k + 1] == v);
                assert(s1[0].0 < v.0);
                assert(s2.contains(v));
                let m = choose|m: int| 0 <= m < s2.len() && s2[m] == v;
                assert(m != 0);
                assert(t2[m - 1] == v);
            }
            if t2.contains(v) {
                let k = choose|k: int| 0 <= k < t2.len() && t2[k] == v;
                assert(s2[k + 1] == v);
                assert(s2[0].0 < v.0);
                assert(s1.contains(v));
                let m = choose|m: int| 0 <= m < s1.len() && s1[m] == v;
                assert(m != 0);
                assert(t1[m - 1] == v);
            }
        }
        assert(labels_sorted(t1)) by {
            assert forall|i: int, j: int| 0 <= i < j < t1.len() implies (#[trigger] t1[i]).0 < (
            #[trigger] t1[j]).0 by {
                assert(s1[i + 1] == t1[i] && s1[j + 1] == t1[j]);
            }
        }
        assert(labels_sorted(t2)) by {
            assert forall|i: int, j: int| 0 <= i < j < t2.len() implies (#[trigger] t2[i]).0 < (
            #[trigger] t2[j]).0 by {
                assert(s2[i + 1] == t2[i] && s2[j + 1] == t2[j]);
            }
        }
        lemma_sorted_unique(t1, t2);
        assert(s1 =~= s2) by {
            assert forall|k: int| 0 <= k < s1.len() implies s1[k] == s2[k] by {
                if k > 0 {
                    assert(s1[k] == t1[k - 1]);
                    assert(s2[k] == t2[k - 1]);
                }
            }
        }
    }
}

/// The successors of every block, as positions (see [`succ_table`]).
fn succ_positions(func: &Func) -> (r: Vec<Vec<usize>>)
    requires
        func_wf(func@),
    ensures
        r@.len() == func@.len(),
        pos_view(r@) == succ_table(func@),
        forall|i: int, k: int|
            0 <= i < func@.len() && 0 <= k < r@[i]@.len() ==> #[trigger] r@[i]@[k] < func@.len(),
{
    let succs = all_succ(func);
    let n = func.blocks.len();
    let mut r: Vec<Vec<usize>> = Vec::new();
    let mut i: usize = 0;
    while i < n
        invariant
            n == func@.len(),
            func_wf(func@),
            succs@.len() == n,
            forall|k: int| 0 <= k < n ==> (#[trigger] succs@[k])@ == block_succ(func@[k].1),
            i <= n,
            r@.len() == i,
            forall|a: int|
                0 <= a < i ==> (#[trigger] r@[a])@.map_values(|x: usize| x as int) == succ_table(
                    func@,
                )[a],
            forall|a: int, k: int| 0 <= a < i && 0 <= k < r@[a]@.len() ==> #[trigger] r@[a]@[k] < n,
        decreases n - i,
    {
        let ss = &succs[i];
        let mut row: Vec<usize> = Vec::new();
        let mut k: usize = 0;
        while k < ss.len()
            invariant
                n == func@.len(),
                func_wf(func@),
                i < n,
                ss@ == block_succ(func@[i as int].1),
                k <= ss.len(),
                row@.len() == k,
                forall|c: int| 0 <= c < k ==> #[trigger] row@[c] as int == label_pos(func@, ss@[c]) && row@[c] < n,
            decreases ss.len() - k,
        {
            assert(has_label(func@, block_succ(func@[i as int].1)[k as int]));
            match func.find_block(ss[k]) {
                Some(p) => {
                    proof {
                        lemma_label_pos(func@, p as int);
                    }
                    row.push(p);
                },
                None => {
                    row.push(0);
                },
            }
            k += 1;
        }
        assert(row@.map_values(|x: usize| x as int) =~= succ_table(func@)[i as int]);
        r.push(row);
        i += 1;
    }
    assert(pos_view(r@) =~= succ_table(func@));
    r
}

/// Promotion of every slot of `f`, in increasing order, over the control-flow
/// graph of `f` and the dominance frontiers `df`.
pub open spec fn mem2reg_spec(f: FuncView, df: Seq<(Block, Vec<Block>)>) -> FuncView {
    promote_upto(f, succ_table(f), df, slots_of(f), slots_of(f).len() as int)
}

/// Promotes every slot of `func`, in increasing order (see [`promote`]);
/// `dom_frontier` gives the dominance frontier of each block, in block order.
pub fn mem2reg(func: &mut Func, dom_frontier: &BlockSets)
    requires
        func_wf(old(func)@),
        dom_frontier@.len() == old(func)@.len(),
    ensures
        final(func)@ == mem2reg_spec(old(func)@, dom_frontier@),
        same_labels(old(func)@, final(func)@),
        old(func).wf() ==> final(func).wf(),
{
    let succ = succ_positions(func);
    let slots = collect_promotable(func);
    proof {
        lemma_sorted_unique(slots@, slots_of(old(func)@));
    }
    let ghost f0 = func@;
    let n = func.blocks.len();
    let mut k: usize = 0;
    while k < slots.len()
        invariant
            f0 == old(func)@,
            func_wf(f0),
            slots@ == slots_of(f0),
            n == f0.len(),
            dom_frontier@.len() == n,
            succ@.len() == n,
            pos_view(succ@) == succ_table(f0),
            forall|i: int, c: int| 0 <= i < n && 0 <= c < succ@[i]@.len() ==> #[trigger] succ@[i]@[c] < n,
            k <= slots.len(),
            func@ == promote_upto(f0, succ_table(f0), dom_frontier@, slots@, k as int),
            func@.len() == n,
            forall|i: int| 0 <= i < n ==> #[trigger] func@[i].0 == f0[i].0,
        decreases slots.len() - k,
    {
        let reg = slots[k];
        let ghost cur = func@;
        let count = stored_values(func, reg).len();
        if count == 1 {
            single_stored(func, reg);
        } else if count > 1 {
            let sched = insert_phi(func, dom_frontier, reg);
            proof {
                assert(labels_increasing(func@)) by {
                    assert forall|i: int, j: int| 0 <= i < j < func@.len() implies (#[trigger] func@[i]).0.0 < (#[trigger] func@[j]).0.0 by {
                        assert(f0[i].0.0 < f0[j].0.0);
                    }
                }
                let c = ctx_of(cur, succ_table(f0), dom_frontier@, reg);
                assert(sched@ =~= c.sched);
            }
            let rn = rename(func, &succ, &sched, reg);
            rewrite(func, &sched, &rn, reg);
        }
        k += 1;
    }
    assert(same_labels(old(func)@, func@));
    proof {
        lemma_same_labels(old(func)@, func@);
    }
}

} // verus!
