//! Lowering of three-operand arithmetic to two-operand form.
use vstd::prelude::*;

use crate::func::{BlockData, Func, lemma_same_labels, same_labels};
use crate::inst::{Block, Inst, InstView, OpUn, Operand};

verus! {

/// One instruction in two-operand form: `d = op a, b` becomes `d = copy a` then
/// `d = op d, b`; any other instruction stays.
pub open spec fn two_addr_inst(i: InstView) -> Seq<InstView> {
    match i {
        InstView::Bin { op, dist, op1, op2 } => seq![
            InstView::Un { op: OpUn::Copy, dist, op1 },
            InstView::Bin { op, dist, op1: Operand::Var(dist), op2 },
        ],
        _ => seq![i],
    }
}

pub open spec fn two_addr(s: Seq<InstView>) -> Seq<InstView>
    decreases s.len(),
{
    if s.len() == 0 {
        Seq::empty()
    } else {
        two_addr(s.drop_last()) + two_addr_inst(s.last())
    }
}

/// Rewrites every `Bin` of `func` into two-operand form (see [`two_addr_inst`]).
pub fn to2addr(func: &mut Func)
    ensures
        final(func)@ == old(func)@.map_values(|p: (Block, Seq<InstView>)| (p.0, two_addr(p.1))),
        same_labels(old(func)@, final(func)@),
        old(func).wf() ==> final(func).wf(),
{
    let ghost bb = func.blocks@;
    let mut i: usize = 0;
    while i < func.blocks.len()
        invariant
            func.blocks.len() == bb.len(),
            i <= func.blocks.len(),
            forall|k: int|
                0 <= k < i ==> (#[trigger] func.blocks@[k]).0 == bb[k].0 && func.blocks@[k].1@
                    == two_addr(bb[k].1@),
            forall|k: int| i <= k < func.blocks.len() ==> #[trigger] func.blocks@[k] == bb[k],
        decreases func.blocks.len() - i,
    {
        let insts = &func.blocks[i].1.insts;
        let ghost s = insts@.map_values(|x: Inst| x@);
        let mut out = BlockData::new();
        let mut j: usize = 0;
        while j < insts.len()
            invariant
                i < func.blocks.len(),
                insts == func.blocks@[i as int].1.insts,
                s == insts@.map_values(|x: Inst| x@),
                j <= insts.len(),
                out@ == two_addr(s.take(j as int)),
            decreases insts.len() - j,
        {
            proof {
                assert(s.take(j + 1).drop_last() == s.take(j as int));
                assert(s.take(j + 1).last() == insts@[j as int]@);
            }
            let ghost before = out@;
            match &insts[j] {
                Inst::Bin { op, dist, op1, op2 } => {
                    out.insts.push(Inst::Un { op: OpUn::Copy, dist: *dist, op1: *op1 });
                    out.insts.push(Inst::Bin { op: *op, dist: *dist, op1: Operand::Var(*dist), op2: *op2 });
                },
                other => {
                    out.insts.push(other.duplicate());
                },
            }
            proof {
                assert(out@ =~= before + two_addr_inst(insts@[j as int]@));
            }
            j += 1;
        }
        proof {
            assert(s.take(insts.len() as int) == s);
        }
        let insts = out.insts;
        func.blocks[i].1.insts = insts;
        i += 1;
    }
    assert(func@ =~= old(func)@.map_values(|p: (Block, Seq<InstView>)| (p.0, two_addr(p.1))));
    assert(same_labels(old(func)@, func@));
    proof {
        lemma_same_labels(old(func)@, func@);
    }
}

} // verus!
