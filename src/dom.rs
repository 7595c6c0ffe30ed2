//! Dominator sets by the classical iterative algorithm, and dominance frontiers.
use vstd::prelude::*;

use crate::func::{Func, FuncView, has_label, labels_increasing};
use crate::inst::Block;
use crate::pred::{BlockSets, contains_block};

verus! {

/// The position of the block labelled `b` in `f`.
pub open spec fn label_pos(f: FuncView, b: Block) -> int {
    choose|p: int| 0 <= p < f.len() && (#[trigger] f[p]).0 == b
}

/// `sets` has one entry per block of `f`, in the same order, and names only blocks of `f`.
pub open spec fn sets_shaped(f: FuncView, sets: Seq<(Block, Vec<Block>)>) -> bool {
    &&& sets.len() == f.len()
    &&& forall|i: int| 0 <= i < f.len() ==> (#[trigger] sets[i]).0 == f[i].0
    &&& forall|i: int, j: int|
        0 <= i < f.len() && 0 <= j < sets[i].1@.len() ==> has_label(f, #[trigger] sets[i].1@[j])
}

/// The predecessors of each block, as positions.
pub open spec fn pred_table(f: FuncView, preds: Seq<(Block, Vec<Block>)>) -> Seq<Seq<int>> {
    Seq::new(
        f.len(),
        |i: int| Seq::new(preds[i].1@.len(), |j: int| label_pos(f, preds[i].1@[j])),
    )
}

/// The position of the entry block, or `-1` when `f` has none.
pub open spec fn entry_pos(f: FuncView) -> int {
    if has_label(f, Block(0)) {
        label_pos(f, Block(0))
    } else {
        -1
    }
}

/// A table of `n` rows of `n` flags.
pub open spec fn square(d: Seq<Seq<bool>>, n: int) -> bool {
    d.len() == n && forall|i: int| 0 <= i < n ==> (#[trigger] d[i]).len() == n
}

/// `{i} ∪ ⋂ d[p]` over the predecessors `p` of `i`, at position `k`.
pub open spec fn meet(pp: Seq<Seq<int>>, d: Seq<Seq<bool>>, i: int, k: int) -> bool {
    k == i || forall|j: int| 0 <= j < pp[i].len() ==> #[trigger] d[pp[i][j]][k]
}

/// `d` solves the dominator equations: `d[i][k]` holds when block `k` dominates
/// block `i`. The entry is dominated by itself alone, a block without
/// predecessors by every block, any other block by itself and by what
/// dominates all its predecessors.
pub open spec fn dom_solution(pp: Seq<Seq<int>>, e: int, n: int, d: Seq<Seq<bool>>) -> bool {
    &&& square(d, n)
    &&& forall|i: int, k: int|
        0 <= i < n && 0 <= k < n ==> #[trigger] d[i][k] == if i == e {
            k == e
        } else if pp[i].len() == 0 {
            true
        } else {
            meet(pp, d, i, k)
        }
}

/// Every flag of `a` is set in `b`.
pub open spec fn table_le(a: Seq<Seq<bool>>, b: Seq<Seq<bool>>, n: int) -> bool {
    forall|i: int, k: int| 0 <= i < n && 0 <= k < n ==> #[trigger] a[i][k] ==> b[i][k]
}

/// `d` is the greatest solution, the one the iteration from "every block dominates
/// every other" reaches.
pub open spec fn greatest_dom(pp: Seq<Seq<int>>, e: int, n: int, d: Seq<Seq<bool>>) -> bool {
    &&& dom_solution(pp, e, n, d)
    &&& forall|x: Seq<Seq<bool>>| #[trigger] dom_solution(pp, e, n, x) ==> table_le(x, d, n)
}

/// The dominator table of `f` over `preds`.
pub open spec fn dom_table(f: FuncView, preds: Seq<(Block, Vec<Block>)>) -> Seq<Seq<bool>> {
    choose|d: Seq<Seq<bool>>|
        greatest_dom(pred_table(f, preds), entry_pos(f), f.len() as int, d)
}

/// The labels of the first `n` blocks of `f` whose flag in `row` is set, in order.
pub open spec fn row_labels(f: FuncView, row: Seq<bool>, n: int) -> Seq<Block>
    decreases n,
{
    if n <= 0 {
        Seq::empty()
    } else if row[n - 1] {
        row_labels(f, row, n - 1).push(f[n - 1].0)
    } else {
        row_labels(f, row, n - 1)
    }
}

pub open spec fn count_row(r: Seq<bool>) -> nat
    decreases r.len(),
{
    if r.len() == 0 {
        0
    } else {
        count_row(r.drop_last()) + if r.last() {
            1nat
        } else {
            0nat
        }
    }
}

pub open spec fn count_table(d: Seq<Seq<bool>>) -> nat
    decreases d.len(),
{
    if d.len() == 0 {
        0
    } else {
        count_table(d.drop_last()) + count_row(d.last())
    }
}

proof fn lemma_count_row_lt(a: Seq<bool>, b: Seq<bool>)
    requires
        a.len() == b.len(),
        forall|k: int| 0 <= k < a.len() ==> #[trigger] a[k] ==> b[k],
    ensures
        count_row(a) <= count_row(b),
        a != b ==> count_row(a) < count_row(b),
    decreases a.len(),
{
    if a.len() == 0 {
        assert(a =~= b);
    } else {
        lemma_count_row_lt(a.drop_last(), b.drop_last());
        if a.drop_last() == b.drop_last() && a.last() == b.last() {
            assert forall|k: int| 0 <= k < a.len() implies a[k] == b[k] by {
                if k < a.len() - 1 {
                    assert(a[k] == a.drop_last()[k]);
                    assert(b[k] == b.drop_last()[k]);
                }
            }
            assert(a =~= b);
        }
    }
}

proof fn lemma_count_table_update(d: Seq<Seq<bool>>, i: int, row: Seq<bool>)
    requires
        0 <= i < d.len(),
        count_row(row) < count_row(d[i]),
    ensures
        count_table(d.update(i, row)) < count_table(d),
    decreases d.len(),
{
    let u = d.update(i, row);
    if i == d.len() - 1 {
        assert(u.drop_last() =~= d.drop_last());
    } else {
        assert(u.drop_last() =~= d.drop_last().update(i, row));
        lemma_count_table_update(d.drop_last(), i, row);
    }
}

/// A solution is determined: two greatest solutions are equal.
proof fn lemma_greatest_unique(pp: Seq<Seq<int>>, e: int, n: int, a: Seq<Seq<bool>>, b: Seq<Seq<bool>>)
    requires
        greatest_dom(pp, e, n, a),
        greatest_dom(pp, e, n, b),
    ensures
        a == b,
{
    assert(table_le(a, b, n));
    assert(table_le(b, a, n));
    assert forall|i: int| 0 <= i < n implies #[trigger] a[i] == b[i] by {
        assert forall|k: int| 0 <= k < n implies a[i][k] == b[i][k] by {
            if a[i][k] {
                assert(b[i][k]);
            }
            if b[i][k] {
                assert(a[i][k]);
            }
        }
        assert(a[i] =~= b[i]);
    }
    assert(a =~= b);
}

proof fn lemma_meet_mono(pp: Seq<Seq<int>>, a: Seq<Seq<bool>>, b: Seq<Seq<bool>>, n: int, i: int, k: int)
    requires
        table_le(a, b, n),
        0 <= i < n,
        0 <= k < n,
        forall|j: int| 0 <= j < pp[i].len() ==> 0 <= #[trigger] pp[i][j] < n,
        meet(pp, a, i, k),
    ensures
        meet(pp, b, i, k),
{
    if k != i {
        assert forall|j: int| 0 <= j < pp[i].len() implies #[trigger] b[pp[i][j]][k] by {
            assert(a[pp[i][j]][k]);
        }
    }
}

pub(crate) proof fn lemma_label_pos(f: FuncView, p: int)
    requires
        labels_increasing(f),
        0 <= p < f.len(),
    ensures
        label_pos(f, f[p].0) == p,
{
    assert(has_label(f, f[p].0));
    let q = label_pos(f, f[p].0);
    if q < p {
        assert(f[q].0.0 < f[p].0.0);
    } else if q > p {
        assert(f[p].0.0 < f[q].0.0);
    }
}

/// The position of each predecessor named in `preds`.
fn pred_positions(func: &Func, preds: &BlockSets) -> (r: Vec<Vec<usize>>)
    requires
        labels_increasing(func@),
        sets_shaped(func@, preds@),
    ensures
        r@.len() == func@.len(),
        forall|i: int|
            0 <= i < func@.len() ==> (#[trigger] r@[i])@.len() == pred_table(func@, preds@)[i].len(),
        forall|i: int, j: int|
            0 <= i < func@.len() && 0 <= j < r@[i]@.len() ==> #[trigger] r@[i]@[j] as int
                == pred_table(func@, preds@)[i][j] && r@[i]@[j] < func@.len(),
{
    let ghost pt = pred_table(func@, preds@);
    let mut r: Vec<Vec<usize>> = Vec::new();
    let mut i: usize = 0;
    while i < func.blocks.len()
        invariant
            labels_increasing(func@),
            sets_shaped(func@, preds@),
            pt == pred_table(func@, preds@),
            i <= func.blocks.len(),
            r@.len() == i,
            forall|a: int| 0 <= a < i ==> (#[trigger] r@[a])@.len() == pt[a].len(),
            forall|a: int, j: int|
                0 <= a < i && 0 <= j < r@[a]@.len() ==> #[trigger] r@[a]@[j] as int == pt[a][j]
                    && r@[a]@[j] < func@.len(),
        decreases func.blocks.len() - i,
    {
        let ps = &preds[i].1;
        let mut row: Vec<usize> = Vec::new();
        let mut j: usize = 0;
        while j < ps.len()
            invariant
                labels_increasing(func@),
                sets_shaped(func@, preds@),
                pt == pred_table(func@, preds@),
                i < func.blocks.len(),
                ps == preds@[i as int].1,
                j <= ps.len(),
                row@.len() == j,
                forall|b: int| 0 <= b < j ==> #[trigger] row@[b] as int == pt[i as int][b] && row@[b]
                    < func@.len(),
            decreases ps.len() - j,
        {
            assert(has_label(func@, ps@[j as int]));
            match func.find_block(ps[j]) {
                Some(p) => {
                    proof {
                        lemma_label_pos(func@, p as int);
                    }
                    row.push(p);
                },
                None => {
                    row.push(0);
                },
            }
            j += 1;
        }
        r.push(row);
        i += 1;
    }
    r
}

pub open spec fn table_view(d: Seq<Vec<bool>>) -> Seq<Seq<bool>> {
    d.map_values(|row: Vec<bool>| row@)
}

pub open spec fn pos_view(pp: Seq<Vec<usize>>) -> Seq<Seq<int>> {
    pp.map_values(|row: Vec<usize>| row@.map_values(|x: usize| x as int))
}

/// Whether the rows `a` and `b` agree.
fn rows_equal(a: &Vec<bool>, b: &Vec<bool>) -> (r: bool)
    requires
        a@.len() == b@.len(),
    ensures
        r == (a@ == b@),
{
    let mut k: usize = 0;
    while k < a.len()
        invariant
            a@.len() == b@.len(),
            k <= a.len(),
            forall|j: int| 0 <= j < k ==> a@[j] == b@[j],
        decreases a.len() - k,
    {
        if a[k] != b[k] {
            return false;
        }
        k += 1;
    }
    assert(a@ =~= b@);
    true
}

/// The row `{i} ∪ ⋂ d[p]` over the predecessors `p` of `i`.
fn meet_row(pp: &Vec<Vec<usize>>, d: &Vec<Vec<bool>>, i: usize) -> (r: Vec<bool>)
    requires
        square(table_view(d@), d@.len() as int),
        pp@.len() == d@.len(),
        i < d@.len(),
        forall|j: int| 0 <= j < pp@[i as int]@.len() ==> #[trigger] pp@[i as int]@[j] < d@.len(),
    ensures
        r@.len() == d@.len(),
        forall|k: int|
            0 <= k < d@.len() ==> #[trigger] r@[k] == meet(pos_view(pp@), table_view(d@), i as int, k),
{
    let ghost ppv = pos_view(pp@);
    let ghost dv = table_view(d@);
    let n = d.len();
    let ps = &pp[i];
    let mut r: Vec<bool> = Vec::new();
    let mut k: usize = 0;
    while k < n
        invariant
            n == d@.len(),
            ps == pp@[i as int],
            i < n,
            square(dv, n as int),
            dv == table_view(d@),
            ppv == pos_view(pp@),
            pp@.len() == n,
            forall|j: int| 0 <= j < ps@.len() ==> #[trigger] ps@[j] < n,
            k <= n,
            r@.len() == k,
            forall|c: int| 0 <= c < k ==> #[trigger] r@[c] == meet(ppv, dv, i as int, c),
        decreases n - k,
    {
        let mut all = true;
        let mut j: usize = 0;
        while j < ps.len()
            invariant
                n == d@.len(),
                square(dv, n as int),
                dv == table_view(d@),
                forall|a: int| 0 <= a < ps@.len() ==> #[trigger] ps@[a] < n,
                k < n,
                j <= ps.len(),
                all == forall|a: int| 0 <= a < j ==> #[trigger] dv[ps@[a] as int][k as int],
            decreases ps.len() - j,
        {
            assert(dv[ps@[j as int] as int] == d@[ps@[j as int] as int]@);
            if !d[ps[j]][k] {
                all = false;
            }
            j += 1;
        }
        proof {
            assert(ppv[i as int] == ps@.map_values(|x: usize| x as int));
            if all {
                assert forall|a: int| 0 <= a < ppv[i as int].len() implies #[trigger] dv[ppv[i as int][a]][k as int] by {
                    assert(dv[ps@[a] as int][k as int]);
                }
            } else if k != i {
                let a = choose|a: int| 0 <= a < j && !#[trigger] dv[ps@[a] as int][k as int];
                assert(ppv[i as int][a] == ps@[a] as int);
            }
        }
        r.push(k == i || all);
        k += 1;
    }
    r
}

/// The dominator sets of every block: for block `B`, the blocks `D` such that
/// `dom_table` says `D` dominates `B`, in label order. `preds` gives the
/// predecessors of each block (see [`crate::pred::pred_blocks`]).
pub fn dom(func: &Func, preds: &BlockSets) -> (r: BlockSets)
    requires
        labels_increasing(func@),
        sets_shaped(func@, preds@),
    ensures
        greatest_dom(
            pred_table(func@, preds@),
            entry_pos(func@),
            func@.len() as int,
            dom_table(func@, preds@),
        ),
        r@.len() == func@.len(),
        forall|i: int|
            0 <= i < func@.len() ==> (#[trigger] r@[i]).0 == func@[i].0 && r@[i].1@ == row_labels(
                func@,
                dom_table(func@, preds@)[i],
                func@.len() as int,
            ),
{
    let n = func.blocks.len();
    let pp = pred_positions(func, preds);
    let ghost ppv = pos_view(pp@);
    proof {
        let pt = pred_table(func@, preds@);
        assert forall|i: int| 0 <= i < n implies #[trigger] ppv[i] == pt[i] by {
            assert(ppv[i] =~= pt[i]);
        }
        assert(ppv =~= pt);
    }
    let e = func.find_block(Block(0));
    let ghost ev: int = match e {
        Some(p) => p as int,
        None => -1,
    };
    proof {
        if let Some(p) = e {
            lemma_label_pos(func@, p as int);
        }
        assert(ev == entry_pos(func@));
    }
    let mut d: Vec<Vec<bool>> = Vec::new();
    let mut i: usize = 0;
    while i < n
        invariant
            n == func@.len(),
            ev == match e {
                Some(p) => p as int,
                None => -1,
            },
            i <= n,
            d@.len() == i,
            forall|a: int| 0 <= a < i ==> (#[trigger] table_view(d@)[a]).len() == n,
            forall|a: int, k: int|
                0 <= a < i && 0 <= k < n ==> #[trigger] table_view(d@)[a][k] == if a == ev {
                    k == a
                } else {
                    true
                },
        decreases n - i,
    {
        let is_entry = match e {
            Some(p) => p == i,
            None => false,
        };
        let mut row: Vec<bool> = Vec::new();
        let mut k: usize = 0;
        while k < n
            invariant
                k <= n,
                row@.len() == k,
                forall|c: int| 0 <= c < k ==> #[trigger] row@[c] == if is_entry {
                    c == i
                } else {
                    true
                },
            decreases n - k,
        {
            row.push(!is_entry || k == i);
            k += 1;
        }
        let ghost before = d@;
        d.push(row);
        proof {
            assert(table_view(d@) =~= table_view(before).push(row@));
        }
        i += 1;
    }
    let mut changed = true;
    while changed
        invariant
            n == func@.len(),
            ppv == pos_view(pp@),
            ppv.len() == n,
            forall|a: int, j: int| 0 <= a < n && 0 <= j < ppv[a].len() ==> 0 <= #[trigger] ppv[a][j] < n,
            forall|a: int, j: int| 0 <= a < n && 0 <= j < pp@[a]@.len() ==> #[trigger] pp@[a]@[j] < n,
            ev == match e {
                Some(p) => p as int,
                None => -1,
            },
            square(table_view(d@), n as int),
            forall|a: int, k: int|
                0 <= a < n && 0 <= k < n && a == ev ==> #[trigger] table_view(d@)[a][k] == (k == a),
            forall|a: int, k: int|
                0 <= a < n && 0 <= k < n && a != ev && ppv[a].len() == 0 ==> #[trigger] table_view(
                    d@,
                )[a][k],
            forall|a: int, k: int|
                0 <= a < n && 0 <= k < n && a != ev && ppv[a].len() > 0 && meet(
                    ppv,
                    table_view(d@),
                    a,
                    k,
                ) ==> #[trigger] table_view(d@)[a][k],
            forall|x: Seq<Seq<bool>>| #[trigger]
                dom_solution(ppv, ev, n as int, x) ==> table_le(x, table_view(d@), n as int),
            !changed ==> forall|a: int, k: int|
                0 <= a < n && 0 <= k < n && a != ev && ppv[a].len() > 0
                    ==> #[trigger] table_view(d@)[a][k] == meet(ppv, table_view(d@), a, k),
        decreases count_table(table_view(d@)) + if changed {
            1int
        } else {
            0int
        },
    {
        changed = false;
        let ghost start = table_view(d@);
        let mut i: usize = 0;
        while i < n
            invariant
                n == func@.len(),
                ppv == pos_view(pp@),
                ppv.len() == n,
                forall|a: int, j: int|
                    0 <= a < n && 0 <= j < ppv[a].len() ==> 0 <= #[trigger] ppv[a][j] < n,
                forall|a: int, j: int|
                    0 <= a < n && 0 <= j < pp@[a]@.len() ==> #[trigger] pp@[a]@[j] < n,
                ev == match e {
                    Some(p) => p as int,
                    None => -1,
                },
                i <= n,
                square(table_view(d@), n as int),
                forall|a: int, k: int|
                    0 <= a < n && 0 <= k < n && a == ev ==> #[trigger] table_view(d@)[a][k] == (k
                        == a),
                forall|a: int, k: int|
                    0 <= a < n && 0 <= k < n && a != ev && ppv[a].len() == 0
                        ==> #[trigger] table_view(d@)[a][k],
                forall|a: int, k: int|
                    0 <= a < n && 0 <= k < n && a != ev && ppv[a].len() > 0 && meet(
                        ppv,
                        table_view(d@),
                        a,
                        k,
                    ) ==> #[trigger] table_view(d@)[a][k],
                forall|x: Seq<Seq<bool>>| #[trigger]
                    dom_solution(ppv, ev, n as int, x) ==> table_le(x, table_view(d@), n as int),
                changed ==> count_table(table_view(d@)) < count_table(start),
                !changed ==> table_view(d@) == start,
                !changed ==> forall|a: int, k: int|
                    0 <= a < i && 0 <= k < n && a != ev && ppv[a].len() > 0
                        ==> #[trigger] table_view(d@)[a][k] == meet(ppv, table_view(d@), a, k),
            decreases n - i,
        {
            let is_entry = match e {
                Some(p) => p == i,
                None => false,
            };
            if !is_entry && pp[i].len() > 0 {
                let row = meet_row(&pp, &d, i);
                assert(ppv[i as int].len() == pp@[i as int]@.len());
                assert(table_view(d@)[i as int] == d@[i as int]@);
                if !rows_equal(&row, &d[i]) {
                    let ghost old_t = table_view(d@);
                    let ghost new_t = old_t.update(i as int, row@);
                    proof {
                        assert(table_le(new_t, old_t, n as int)) by {
                            assert forall|a: int, k: int|
                                0 <= a < n && 0 <= k < n && #[trigger] new_t[a][k] implies old_t[a][k] by {
                                if a == i {
                                    assert(meet(ppv, old_t, a, k));
                                }
                            }
                        }
                        assert forall|k: int| 0 <= k < row@.len() && #[trigger] row@[k] implies old_t[i as int][k] by {
                            assert(meet(ppv, old_t, i as int, k));
                        }
                        lemma_count_row_lt(row@, old_t[i as int]);
                        lemma_count_table_update(old_t, i as int, row@);
                        assert forall|a: int, k: int|
                            0 <= a < n && 0 <= k < n && a != ev && ppv[a].len() > 0 && meet(
                                ppv,
                                new_t,
                                a,
                                k,
                            ) implies #[trigger] new_t[a][k] by {
                            lemma_meet_mono(ppv, new_t, old_t, n as int, a, k);
                        }
                        assert forall|x: Seq<Seq<bool>>| #[trigger]
                            dom_solution(ppv, ev, n as int, x) implies table_le(x, new_t, n as int) by {
                            assert forall|a: int, k: int|
                                0 <= a < n && 0 <= k < n && #[trigger] x[a][k] implies new_t[a][k] by {
                                if a == i {
                                    lemma_meet_mono(ppv, x, old_t, n as int, a, k);
                                }
                            }
                        }
                    }
                    d[i] = row;
                    proof {
                        assert(table_view(d@) =~= new_t);
                    }
                    changed = true;
                }
            }
            i += 1;
        }
    }
    let ghost t = table_view(d@);
    proof {
        assert(dom_solution(ppv, ev, n as int, t)) by {
            assert forall|a: int, k: int| 0 <= a < n && 0 <= k < n implies #[trigger] t[a][k] == if a
                == ev {
                k == ev
            } else if ppv[a].len() == 0 {
                true
            } else {
                meet(ppv, t, a, k)
            } by {}
        }
        assert(greatest_dom(ppv, ev, n as int, t));
        lemma_greatest_unique(ppv, ev, n as int, t, dom_table(func@, preds@));
    }
    let mut r: BlockSets = Vec::new();
    let mut i: usize = 0;
    while i < n
        invariant
            n == func@.len(),
            square(t, n as int),
            t == table_view(d@),
            t == dom_table(func@, preds@),
            i <= n,
            r@.len() == i,
            forall|a: int|
                0 <= a < i ==> (#[trigger] r@[a]).0 == func@[a].0 && r@[a].1@ == row_labels(
                    func@,
                    t[a],
                    n as int,
                ),
        decreases n - i,
    {
        let mut labels: Vec<Block> = Vec::new();
        let mut k: usize = 0;
        while k < n
            invariant
                n == func@.len(),
                square(t, n as int),
                t == table_view(d@),
                i < n,
                k <= n,
                labels@ == row_labels(func@, t[i as int], k as int),
            decreases n - k,
        {
            assert(t[i as int][k as int] == d@[i as int]@[k as int]);
            if d[i][k] {
                labels.push(func.blocks[k].0);
            }
            k += 1;
        }
        r.push((func.blocks[i].0, labels));
        i += 1;
    }
    r
}

/// Whether `doms` records `c` among the dominators of block `b`.
pub open spec fn dominated_by(
    f: FuncView,
    doms: Seq<(Block, Vec<Block>)>,
    b: Block,
    c: Block,
) -> bool {
    doms[label_pos(f, b)].1@.contains(c)
}

/// Whether the block at position `y` is in the dominance frontier of `x`: `x`
/// dominates a predecessor of it and does not strictly dominate it.
pub open spec fn in_frontier(
    f: FuncView,
    preds: Seq<(Block, Vec<Block>)>,
    doms: Seq<(Block, Vec<Block>)>,
    x: Block,
    y: int,
) -> bool {
    &&& exists|j: int|
        0 <= j < preds[y].1@.len() && #[trigger] dominated_by(f, doms, preds[y].1@[j], x)
    &&& !(doms[y].1@.contains(x) && x != f[y].0)
}

/// The labels, in order, of the first `n` blocks in the dominance frontier of `x`.
pub open spec fn frontier_upto(
    f: FuncView,
    preds: Seq<(Block, Vec<Block>)>,
    doms: Seq<(Block, Vec<Block>)>,
    x: Block,
    n: int,
) -> Seq<Block>
    decreases n,
{
    if n <= 0 {
        Seq::empty()
    } else if in_frontier(f, preds, doms, x, n - 1) {
        frontier_upto(f, preds, doms, x, n - 1).push(f[n - 1].0)
    } else {
        frontier_upto(f, preds, doms, x, n - 1)
    }
}

/// The dominance frontier of every block, from its predecessors and dominators.
pub fn dom_frontier(func: &Func, preds: &BlockSets, doms: &BlockSets) -> (r: BlockSets)
    requires
        labels_increasing(func@),
        sets_shaped(func@, preds@),
        doms@.len() == func@.len(),
        forall|i: int| 0 <= i < func@.len() ==> (#[trigger] doms@[i]).0 == func@[i].0,
    ensures
        r@.len() == func@.len(),
        forall|i: int|
            0 <= i < func@.len() ==> (#[trigger] r@[i]).0 == func@[i].0 && r@[i].1@
                == frontier_upto(func@, preds@, doms@, func@[i].0, func@.len() as int),
{
    let n = func.blocks.len();
    let mut r: BlockSets = Vec::new();
    let mut xi: usize = 0;
    while xi < n
        invariant
            n == func@.len(),
            labels_increasing(func@),
            sets_shaped(func@, preds@),
            doms@.len() == n,
            forall|i: int| 0 <= i < n ==> (#[trigger] doms@[i]).0 == func@[i].0,
            xi <= n,
            r@.len() == xi,
            forall|i: int|
                0 <= i < xi ==> (#[trigger] r@[i]).0 == func@[i].0 && r@[i].1@ == frontier_upto(
                    func@,
                    preds@,
                    doms@,
                    func@[i].0,
                    n as int,
                ),
        decreases n - xi,
    {
        let x = func.blocks[xi].0;
        let mut df: Vec<Block> = Vec::new();
        let mut y: usize = 0;
        while y < n
            invariant
                n == func@.len(),
                labels_increasing(func@),
                sets_shaped(func@, preds@),
                doms@.len() == n,
                forall|i: int| 0 <= i < n ==> (#[trigger] doms@[i]).0 == func@[i].0,
                y <= n,
                df@ == frontier_upto(func@, preds@, doms@, x, y as int),
            decreases n - y,
        {
            let ps = &preds[y].1;
            let mut reaches = false;
            let mut j: usize = 0;
            while j < ps.len()
                invariant
                    n == func@.len(),
                    labels_increasing(func@),
                    sets_shaped(func@, preds@),
                    doms@.len() == n,
                    forall|i: int| 0 <= i < n ==> (#[trigger] doms@[i]).0 == func@[i].0,
                    y < n,
                    ps == preds@[y as int].1,
                    j <= ps.len(),
                    reaches == exists|a: int|
                        0 <= a < j && #[trigger] dominated_by(func@, doms@, ps@[a], x),
                decreases ps.len() - j,
            {
                assert(has_label(func@, ps@[j as int]));
                if let Some(p) = func.find_block(ps[j]) {
                    proof {
                        lemma_label_pos(func@, p as int);
                    }
                    if contains_block(&doms[p].1, x) {
                        reaches = true;
                    }
                }
                proof {
                    if reaches {
                        if !dominated_by(func@, doms@, ps@[j as int], x) {
                            let a = choose|a: int|
                                0 <= a < j && #[trigger] dominated_by(func@, doms@, ps@[a], x);
                            assert(0 <= a < j + 1 && dominated_by(func@, doms@, ps@[a], x));
                        }
                    }
                }
                j += 1;
            }
            let strict = contains_block(&doms[y].1, x) && x != func.blocks[y].0;
            if reaches && !strict {
                df.push(func.blocks[y].0);
            }
            y += 1;
        }
        r.push((x, df));
        xi += 1;
    }
    r
}

} // verus!
