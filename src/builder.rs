//! A cursor over a module that creates functions and blocks and appends instructions.
use vstd::prelude::*;

use crate::func::{
    Func, FuncView, Mod, defines, has_name, has_terminator, names_unique, next_label,
};
use crate::inst::{Block, Inst, InstView, Var};

verus! {

/// The position of the function called `name` in `m`.
pub open spec fn func_pos(m: Seq<(String, Func)>, name: Seq<char>) -> int {
    choose|i: int| 0 <= i < m.len() && (#[trigger] m[i]).0@ == name
}

proof fn lemma_func_pos(m: Seq<(String, Func)>, i: int)
    requires
        names_unique(m),
        0 <= i < m.len(),
    ensures
        func_pos(m, m[i].0@) == i,
{
    assert(has_name(m, m[i].0@));
    let p = func_pos(m, m[i].0@);
    if p != i {
        if p < i {
            assert(m[p].0@ != m[i].0@);
        } else {
            assert(m[i].0@ != m[p].0@);
        }
    }
}

#[derive(Debug)]
pub struct Builder {
    pub mod_: Mod,
    pub func: Option<String>,
    pub block: Option<Block>,
}

/// `after` is `before` with the function at `k` replaced by one whose view is `f`.
pub open spec fn func_replaced(
    before: Seq<(String, Func)>,
    after: Seq<(String, Func)>,
    k: int,
    f: FuncView,
) -> bool {
    &&& after.len() == before.len()
    &&& forall|j: int| 0 <= j < before.len() && j != k ==> #[trigger] after[j] == before[j]
    &&& after[k].0 == before[k].0
    &&& after[k].1@ == f
}

impl Builder {
    /// The function cursor names a function of the module, whose names are unique.
    pub open spec fn in_func(&self) -> bool {
        &&& names_unique(self.mod_.funcs@)
        &&& self.func is Some
        &&& has_name(self.mod_.funcs@, self.func->0@)
    }

    /// The position of the function under the cursor.
    pub open spec fn cur(&self) -> int {
        func_pos(self.mod_.funcs@, self.func->0@)
    }

    /// The view of the function under the cursor.
    pub open spec fn cur_func(&self) -> FuncView {
        self.mod_.funcs@[self.cur()].1@
    }

    pub fn new() -> (r: Builder)
        ensures
            r.mod_.funcs@.len() == 0,
            r.func is None,
            r.block is None,
    {
        Builder { mod_: Mod::new(), func: None, block: None }
    }

    /// Adds an empty function called `func`, which no function of the module is called yet.
    pub fn new_func(&mut self, func: String)
        requires
            names_unique(old(self).mod_.funcs@),
            !has_name(old(self).mod_.funcs@, func@),
        ensures
            names_unique(final(self).mod_.funcs@),
            final(self).mod_.funcs@.len() == old(self).mod_.funcs@.len() + 1,
            final(self).mod_.funcs@.take(old(self).mod_.funcs@.len() as int) == old(
                self,
            ).mod_.funcs@,
            final(self).mod_.funcs@.last().0@ == func@,
            final(self).mod_.funcs@.last().1@ == FuncView::empty(),
            final(self).func == old(self).func,
            final(self).block == old(self).block,
            old(self).mod_.wf() ==> final(self).mod_.wf(),
    {
        let ghost name = func@;
        self.mod_.funcs.push((func, Func::new()));
        proof {
            let m = self.mod_.funcs@;
            assert forall|i: int, j: int| 0 <= i < j < m.len() implies (#[trigger] m[i]).0@ != (
            #[trigger] m[j]).0@ by {
                if j == m.len() - 1 {
                    assert(old(self).mod_.funcs@[i] == m[i]);
                }
            }
            assert(m.take(old(self).mod_.funcs@.len() as int) == old(self).mod_.funcs@);
            if old(self).mod_.wf() {
                assert forall|i: int| 0 <= i < m.len() implies (#[trigger] m[i]).1.wf() by {
                    if i < m.len() - 1 {
                        assert(m[i] == old(self).mod_.funcs@[i]);
                    }
                }
            }
        }
    }

    /// Moves the cursor to the function called `func`.
    pub fn move_to_func(&mut self, func: String)
        ensures
            final(self).func == Some(func),
            final(self).mod_ == old(self).mod_,
            final(self).block == old(self).block,
    {
        self.func = Some(func);
    }

    /// Adds an empty function called `func` and moves the cursor to it.
    pub fn move_to_new_func(&mut self, func: String)
        requires
            names_unique(old(self).mod_.funcs@),
            !has_name(old(self).mod_.funcs@, func@),
        ensures
            final(self).in_func(),
            final(self).func->0@ == func@,
            final(self).cur() == old(self).mod_.funcs@.len(),
            final(self).cur_func() == FuncView::empty(),
            final(self).mod_.funcs@.take(old(self).mod_.funcs@.len() as int) == old(
                self,
            ).mod_.funcs@,
            final(self).block == old(self).block,
            old(self).mod_.wf() ==> final(self).mod_.wf(),
    {
        let name = func.clone();
        self.new_func(func);
        self.move_to_func(name);
        proof {
            let m = self.mod_.funcs@;
            assert(m[m.len() - 1].0@ == self.func->0@);
            lemma_func_pos(m, m.len() - 1);
        }
    }

    /// Moves the cursor to the block `block`.
    pub fn move_to_block(&mut self, block: Block)
        ensures
            final(self).block == Some(block),
            final(self).mod_ == old(self).mod_,
            final(self).func == old(self).func,
    {
        self.block = Some(block);
    }

    /// Adds an empty block to the function under the cursor (see [`Func::new_block`]).
    pub fn new_block(&mut self) -> (r: Block)
        requires
            old(self).in_func(),
            old(self).cur_func().len() > 0 ==> old(self).cur_func().last().0.0 < usize::MAX,
        ensures
            final(self).in_func(),
            final(self).func == old(self).func,
            final(self).block == old(self).block,
            final(self).cur() == old(self).cur(),
            r == next_label(old(self).cur_func()),
            func_replaced(
                old(self).mod_.funcs@,
                final(self).mod_.funcs@,
                old(self).cur(),
                old(self).cur_func().push((r, Seq::<InstView>::empty())),
            ),
            old(self).mod_.wf() ==> final(self).mod_.wf(),
    {
        let name = self.func.as_ref().unwrap();
        let k = self.mod_.find_func(name).unwrap();
        proof {
            lemma_func_pos(self.mod_.funcs@, k as int);
        }
        let r = self.mod_.funcs[k].1.new_block();
        proof {
            let m = self.mod_.funcs@;
            assert forall|i: int, j: int| 0 <= i < j < m.len() implies (#[trigger] m[i]).0@ != (
            #[trigger] m[j]).0@ by {
                assert(m[i].0 == old(self).mod_.funcs@[i].0);
                assert(m[j].0 == old(self).mod_.funcs@[j].0);
            }
            assert(m[k as int].0@ == self.func->0@);
            lemma_func_pos(m, k as int);
            if old(self).mod_.wf() {
                assert(old(self).mod_.funcs@[k as int].1.wf());
                assert forall|i: int| 0 <= i < m.len() implies (#[trigger] m[i]).1.wf() by {
                    if i != k {
                        assert(m[i] == old(self).mod_.funcs@[i]);
                    }
                }
            }
        }
        r
    }

    /// Adds an empty block to the function under the cursor and moves the cursor to it.
    pub fn move_to_new_block(&mut self) -> (r: Block)
        requires
            old(self).in_func(),
            old(self).cur_func().len() > 0 ==> old(self).cur_func().last().0.0 < usize::MAX,
        ensures
            final(self).in_func(),
            final(self).func == old(self).func,
            final(self).block == Some(r),
            final(self).cur() == old(self).cur(),
            r == next_label(old(self).cur_func()),
            func_replaced(
                old(self).mod_.funcs@,
                final(self).mod_.funcs@,
                old(self).cur(),
                old(self).cur_func().push((r, Seq::<InstView>::empty())),
            ),
            old(self).mod_.wf() ==> final(self).mod_.wf(),
    {
        let block = self.new_block();
        self.move_to_block(block);
        block
    }

    /// A value that the function under the cursor does not define (see [`Func::new_var`]).
    pub fn new_var(&mut self) -> (r: Var)
        requires
            old(self).in_func(),
            forall|v: Var| defines(old(self).cur_func(), v) ==> v.0 < usize::MAX,
        ensures
            *final(self) == *old(self),
            forall|v: Var| defines(old(self).cur_func(), v) ==> v.0 < r.0,
            r.0 == 0 || defines(old(self).cur_func(), Var((r.0 - 1) as usize)),
    {
        let name = self.func.as_ref().unwrap();
        let k = self.mod_.find_func(name).unwrap();
        proof {
            lemma_func_pos(self.mod_.funcs@, k as int);
            assert(self.mod_.funcs@[k as int].1@ == old(self).cur_func());
        }
        self.mod_.funcs[k].1.new_var()
    }

    /// Appends `inst` to the block under the cursor, which has no terminator yet.
    pub fn push_inst(&mut self, inst: Inst)
        requires
            old(self).in_func(),
            old(self).block is Some,
            exists|b: int|
                0 <= b < old(self).cur_func().len() && (#[trigger] old(self).cur_func()[b]).0
                    == old(self).block->0 && !has_terminator(old(self).cur_func()[b].1),
        ensures
            final(self).in_func(),
            final(self).func == old(self).func,
            final(self).block == old(self).block,
            final(self).cur() == old(self).cur(),
            exists|b: int|
                0 <= b < old(self).cur_func().len() && (#[trigger] old(self).cur_func()[b]).0
                    == old(self).block->0 && func_replaced(
                    old(self).mod_.funcs@,
                    final(self).mod_.funcs@,
                    old(self).cur(),
                    old(self).cur_func().update(
                        b,
                        (old(self).block->0, old(self).cur_func()[b].1.push(inst@)),
                    ),
                ),
            old(self).mod_.wf() ==> final(self).mod_.wf(),
    {
        let name = self.func.as_ref().unwrap();
        let k = self.mod_.find_func(name).unwrap();
        proof {
            lemma_func_pos(self.mod_.funcs@, k as int);
        }
        let label = self.block.unwrap();
        let b = match self.mod_.funcs[k].1.find_block(label) {
            Some(b) => b,
            None => {
                proof {
                    let b = choose|b: int|
                        0 <= b < old(self).cur_func().len() && (#[trigger] old(
                            self,
                        ).cur_func()[b]).0 == old(self).block->0 && !has_terminator(
                            old(self).cur_func()[b].1,
                        );
                    assert(self.mod_.funcs@[k as int].1@[b].0 == label);
                }
                return ;
            },
        };
        let ghost iv = inst@;
        self.mod_.funcs[k].1.blocks[b].1.insts.push(inst);
        proof {
            let m = self.mod_.funcs@;
            let om = old(self).mod_.funcs@;
            assert forall|i: int, j: int| 0 <= i < j < m.len() implies (#[trigger] m[i]).0@ != (
            #[trigger] m[j]).0@ by {
                assert(m[i].0 == om[i].0);
                assert(m[j].0 == om[j].0);
            }
            assert(m[k as int].0@ == self.func->0@);
            lemma_func_pos(m, k as int);
            let of = om[k as int].1@;
            assert(m[k as int].1.blocks@[b as int].1@ =~= of[b as int].1.push(iv));
            assert(m[k as int].1@ =~= of.update(b as int, (label, of[b as int].1.push(iv))));
            if old(self).mod_.wf() {
                assert(om[k as int].1.wf());
                assert(crate::func::same_labels(of, m[k as int].1@));
                crate::func::lemma_same_labels(of, m[k as int].1@);
                assert forall|i: int| 0 <= i < m.len() implies (#[trigger] m[i]).1.wf() by {
                    if i != k {
                        assert(m[i] == om[i]);
                    }
                }
            }
        }
    }
}

} // verus!
