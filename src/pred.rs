//! Predecessor analysis.
use vstd::prelude::*;

use crate::func::{Func, FuncView, block_succ, func_wf, has_terminator};
use crate::inst::Block;

verus! {

/// For each block, in label order, a list of blocks in label order.
pub type BlockSets = Vec<(Block, Vec<Block>)>;

pub open spec fn sets_view(v: Seq<(Block, Vec<Block>)>) -> Seq<(Block, Seq<Block>)> {
    v.map_values(|p: (Block, Vec<Block>)| (p.0, p.1@))
}

/// The labels, in order, of those among the first `n` blocks of `f` that have `b`
/// as a successor.
pub open spec fn preds_upto(f: FuncView, b: Block, n: int) -> Seq<Block>
    decreases n,
{
    if n <= 0 {
        Seq::empty()
    } else {
        let r = preds_upto(f, b, n - 1);
        if block_succ(f[n - 1].1).contains(b) {
            r.push(f[n - 1].0)
        } else {
            r
        }
    }
}

/// The predecessors of `b`: the labels of the blocks whose terminator names `b`,
/// each once, in label order.
pub open spec fn preds_of(f: FuncView, b: Block) -> Seq<Block> {
    preds_upto(f, b, f.len() as int)
}

/// Every block of `f` is terminated.
pub open spec fn all_terminated(f: FuncView) -> bool {
    forall|i: int| 0 <= i < f.len() ==> has_terminator(#[trigger] f[i].1)
}

/// Whether `b` is among `v`.
pub fn contains_block(v: &Vec<Block>, b: Block) -> (r: bool)
    ensures
        r == v@.contains(b),
{
    let mut i: usize = 0;
    while i < v.len()
        invariant
            i <= v.len(),
            forall|j: int| 0 <= j < i ==> v@[j] != b,
        decreases v.len() - i,
    {
        if v[i] == b {
            return true;
        }
        i += 1;
    }
    false
}

/// The successor lists of every block, in block order.
pub fn all_succ(func: &Func) -> (r: Vec<Vec<Block>>)
    requires
        all_terminated(func@),
    ensures
        r@.len() == func@.len(),
        forall|i: int| 0 <= i < func@.len() ==> (#[trigger] r@[i])@ == block_succ(func@[i].1),
{
    let mut r: Vec<Vec<Block>> = Vec::new();
    let mut i: usize = 0;
    while i < func.blocks.len()
        invariant
            i <= func.blocks.len(),
            all_terminated(func@),
            r@.len() == i,
            forall|k: int| 0 <= k < i ==> (#[trigger] r@[k])@ == block_succ(func@[k].1),
        decreases func.blocks.len() - i,
    {
        assert(has_terminator(func@[i as int].1));
        r.push(func.blocks[i].1.succ());
        i += 1;
    }
    r
}

/// The predecessors of every block of a well-formed function (see [`preds_of`]).
pub fn pred_blocks(func: &Func) -> (r: BlockSets)
    requires
        func_wf(func@),
    ensures
        r@.len() == func@.len(),
        forall|i: int|
            0 <= i < func@.len() ==> (#[trigger] r@[i]).0 == func@[i].0 && r@[i].1@ == preds_of(
                func@,
                func@[i].0,
            ),
{
    assert(all_terminated(func@));
    let succs = all_succ(func);
    let n = func.blocks.len();
    let mut r: BlockSets = Vec::new();
    let mut i: usize = 0;
    while i < n
        invariant
            n == func@.len(),
            succs@.len() == n,
            forall|k: int| 0 <= k < n ==> (#[trigger] succs@[k])@ == block_succ(func@[k].1),
            i <= n,
            r@.len() == i,
            forall|k: int|
                0 <= k < i ==> (#[trigger] r@[k]).0 == func@[k].0 && r@[k].1@ == preds_of(
                    func@,
                    func@[k].0,
                ),
        decreases n - i,
    {
        let label = func.blocks[i].0;
        let mut ps: Vec<Block> = Vec::new();
        let mut j: usize = 0;
        while j < n
            invariant
                n == func@.len(),
                succs@.len() == n,
                forall|k: int| 0 <= k < n ==> (#[trigger] succs@[k])@ == block_succ(func@[k].1),
                j <= n,
                ps@ == preds_upto(func@, label, j as int),
            decreases n - j,
        {
            if contains_block(&succs[j], label) {
                ps.push(func.blocks[j].0);
            }
            j += 1;
        }
        r.push((label, ps));
        i += 1;
    }
    r
}

} // verus!
