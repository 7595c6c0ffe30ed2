//! Blocks, functions and modules of the intermediate representation.
use vstd::prelude::*;

use crate::inst::{Block, Inst, InstView, Operand, Var};

verus! {

/// A function's blocks as the contracts see them: `(label, instructions)` pairs
/// in label order.
pub type FuncView = Seq<(Block, Seq<InstView>)>;

/// Whether some instruction of `s` is a terminator.
pub open spec fn has_terminator(s: Seq<InstView>) -> bool {
    exists|k: int| 0 <= k < s.len() && #[trigger] s[k].is_terminator()
}

/// The index of the first terminator of `s`.
pub open spec fn first_terminator(s: Seq<InstView>) -> int {
    choose|k: int|
        0 <= k < s.len() && #[trigger] s[k].is_terminator() && forall|j: int|
            0 <= j < k ==> !(#[trigger] s[j].is_terminator())
}

/// The out-edges of a block: those of its first terminator.
pub open spec fn block_succ(s: Seq<InstView>) -> Seq<Block> {
    s[first_terminator(s)].succ()
}

/// The labels of `f` strictly increase.
pub open spec fn labels_increasing(f: FuncView) -> bool {
    forall|i: int, j: int| 0 <= i < j < f.len() ==> (#[trigger] f[i]).0.0 < (#[trigger] f[j]).0.0
}

pub open spec fn has_label(f: FuncView, b: Block) -> bool {
    exists|i: int| 0 <= i < f.len() && (#[trigger] f[i]).0 == b
}

/// A function whose control-flow graph can be walked: labels in order, every block
/// terminated, and every out-edge leading to a block of the function.
pub open spec fn func_wf(f: FuncView) -> bool {
    &&& labels_increasing(f)
    &&& forall|i: int| 0 <= i < f.len() ==> has_terminator(#[trigger] f[i].1)
    &&& forall|i: int, k: int|
        0 <= i < f.len() && 0 <= k < block_succ(f[i].1).len() ==> has_label(
            f,
            #[trigger] block_succ(f[i].1)[k],
        )
}

/// `b` has the blocks of `a`, labelled alike and in the same order.
pub open spec fn same_labels(a: FuncView, b: FuncView) -> bool {
    a.len() == b.len() && forall|i: int| 0 <= i < a.len() ==> (#[trigger] b[i]).0 == a[i].0
}

/// Relabelling nothing keeps the labels increasing.
pub proof fn lemma_same_labels(a: FuncView, b: FuncView)
    requires
        same_labels(a, b),
    ensures
        labels_increasing(a) ==> labels_increasing(b),
{
    if labels_increasing(a) {
        assert forall|i: int, j: int| 0 <= i < j < b.len() implies (#[trigger] b[i]).0.0 < (#[trigger] b[j]).0.0 by {
            assert(a[i].0.0 < a[j].0.0);
        }
    }
}

/// Whether some instruction of `f` defines `v`.
pub open spec fn defines(f: FuncView, v: Var) -> bool {
    exists|i: int, j: int|
        0 <= i < f.len() && 0 <= j < f[i].1.len() && (#[trigger] f[i].1[j]).dist() == Some(v)
}

/// The label a new block receives: one past the greatest, or `0`.
pub open spec fn next_label(f: FuncView) -> Block {
    if f.len() == 0 {
        Block(0)
    } else {
        Block((f.last().0.0 + 1) as usize)
    }
}

pub open spec fn rename_insts(s: Seq<InstView>, from: Var, to: Operand) -> Seq<InstView> {
    s.map_values(|i: InstView| i.rename(from, to))
}

pub open spec fn rename_func(f: FuncView, from: Var, to: Operand) -> FuncView {
    f.map_values(|p: (Block, Seq<InstView>)| (p.0, rename_insts(p.1, from, to)))
}

pub(crate) proof fn lemma_first_terminator(s: Seq<InstView>, k: int)
    requires
        0 <= k < s.len(),
        s[k].is_terminator(),
        forall|j: int| 0 <= j < k ==> !(#[trigger] s[j].is_terminator()),
    ensures
        has_terminator(s),
        first_terminator(s) == k,
{
    let c = first_terminator(s);
    if c < k {
        assert(!s[c].is_terminator());
    } else if c > k {
        assert(!s[k].is_terminator());
    }
}

/// A terminated block has a first terminator.
pub(crate) proof fn lemma_first_terminator_exists(s: Seq<InstView>, i: int)
    requires
        has_terminator(s),
        0 <= i <= s.len(),
        forall|j: int| 0 <= j < i ==> !(#[trigger] s[j].is_terminator()),
    ensures
        0 <= first_terminator(s) < s.len(),
        s[first_terminator(s)].is_terminator(),
        forall|j: int| 0 <= j < first_terminator(s) ==> !(#[trigger] s[j].is_terminator()),
    decreases s.len() - i,
{
    if i < s.len() && s[i].is_terminator() {
        lemma_first_terminator(s, i);
    } else if i < s.len() {
        lemma_first_terminator_exists(s, i + 1);
    } else {
        let k = choose|k: int| 0 <= k < s.len() && #[trigger] s[k].is_terminator();
        assert(!s[k].is_terminator());
    }
}

#[derive(Debug, Clone, PartialEq, Eq)]
pub struct BlockData {
    pub insts: Vec<Inst>,
}

impl View for BlockData {
    type V = Seq<InstView>;

    open spec fn view(&self) -> Seq<InstView> {
        self.insts@.map_values(|i: Inst| i@)
    }
}

impl BlockData {
    pub fn new() -> (r: BlockData)
        ensures
            r@ == Seq::<InstView>::empty(),
    {
        BlockData { insts: Vec::new() }
    }

    /// A copy of this block.
    pub fn duplicate(&self) -> (r: BlockData)
        ensures
            r@ == self@,
    {
        let mut insts: Vec<Inst> = Vec::new();
        let mut i: usize = 0;
        while i < self.insts.len()
            invariant
                i <= self.insts.len(),
                insts@.len() == i,
                forall|k: int| 0 <= k < i ==> (#[trigger] insts@[k])@ == self.insts@[k]@,
            decreases self.insts.len() - i,
        {
            insts.push(self.insts[i].duplicate());
            i += 1;
        }
        let r = BlockData { insts };
        assert(r@ == self@);
        r
    }

    pub fn rename_var(&mut self, from: Var, to: Operand)
        ensures
            final(self)@ == rename_insts(old(self)@, from, to),
    {
        let mut i: usize = 0;
        while i < self.insts.len()
            invariant
                i <= self.insts.len(),
                self.insts.len() == old(self).insts.len(),
                forall|k: int|
                    0 <= k < i ==> (#[trigger] self.insts@[k])@ == old(self).insts@[k]@.rename(
                        from,
                        to,
                    ),
                forall|k: int| i <= k < self.insts.len() ==> #[trigger] self.insts@[k] == old(
                    self,
                ).insts@[k],
            decreases self.insts.len() - i,
        {
            self.insts[i].rename_var(from, to);
            i += 1;
        }
        assert(self@ == rename_insts(old(self)@, from, to));
    }

    /// The index of the first terminator.
    pub fn terminator_index(&self) -> (r: usize)
        requires
            has_terminator(self@),
        ensures
            r == first_terminator(self@),
            r < self@.len(),
    {
        let mut i: usize = 0;
        while i < self.insts.len()
            invariant
                i <= self.insts.len(),
                has_terminator(self@),
                forall|j: int| 0 <= j < i ==> !(#[trigger] self@[j].is_terminator()),
            decreases self.insts.len() - i,
        {
            if self.insts[i].terminator() {
                proof {
                    lemma_first_terminator(self@, i as int);
                }
                return i;
            }
            i += 1;
        }
        proof {
            let k = choose|k: int| 0 <= k < self@.len() && #[trigger] self@[k].is_terminator();
            assert(!self@[k].is_terminator());
        }
        0
    }

    /// The first terminator of the block.
    pub fn terminator(&self) -> (r: &Inst)
        requires
            has_terminator(self@),
        ensures
            r@ == self@[first_terminator(self@)],
    {
        let i = self.terminator_index();
        &self.insts[i]
    }

    /// The successor labels, `then_` before `else_` for a conditional branch, each once.
    pub fn succ(&self) -> (r: Vec<Block>)
        requires
            has_terminator(self@),
        ensures
            r@ == block_succ(self@),
    {
        match self.terminator() {
            Inst::Jmp { label } => vec![*label],
            Inst::Cond { then_, else_, .. } => if *then_ == *else_ {
                vec![*then_]
            } else {
                vec![*then_, *else_]
            },
            _ => Vec::new(),
        }
    }
}

/// A function: blocks keyed by label, in increasing label order.
#[derive(Debug, Clone, PartialEq, Eq)]
pub struct Func {
    pub blocks: Vec<(Block, BlockData)>,
}

impl View for Func {
    type V = FuncView;

    open spec fn view(&self) -> FuncView {
        self.blocks@.map_values(|p: (Block, BlockData)| (p.0, p.1@))
    }
}

/// Whether the labels of `v` strictly increase.
pub open spec fn labels_sorted(v: Seq<Var>) -> bool {
    forall|i: int, j: int| 0 <= i < j < v.len() ==> (#[trigger] v[i]).0 < (#[trigger] v[j]).0
}

/// Adds `x` to the strictly increasing list `v`, unless it is there.
pub(crate) fn insert_sorted(v: &mut Vec<Var>, x: Var)
    requires
        labels_sorted(old(v)@),
    ensures
        labels_sorted(final(v)@),
        final(v)@.to_set() == old(v)@.to_set().insert(x),
{
    let mut k: usize = 0;
    while k < v.len() && v[k].0 < x.0
        invariant
            k <= v.len(),
            forall|j: int| 0 <= j < k ==> (#[trigger] v@[j]).0 < x.0,
        decreases v.len() - k,
    {
        k += 1;
    }
    if k < v.len() && v[k].0 == x.0 {
        assert(old(v)@.to_set().insert(x) =~= old(v)@.to_set()) by {
            assert(old(v)@.contains(v@[k as int]));
        }
        return ;
    }
    let ghost before = v@;
    v.insert(k, x);
    proof {
        assert(v@ == before.subrange(0, k as int).push(x) + before.subrange(k as int, before.len() as int));
        assert forall|i: int, j: int| 0 <= i < j < v@.len() implies (#[trigger] v@[i]).0 < (
        #[trigger] v@[j]).0 by {
            if j < k {
            } else if j == k {
            } else if i < k {
                assert(v@[j] == before[j - 1]);
            } else if i == k {
                assert(v@[j] == before[j - 1]);
                assert(before[k as int].0 >= x.0);
                if j - 1 > k {
                    assert(before[k as int].0 < before[j - 1].0);
                }
            } else {
                assert(v@[i] == before[i - 1]);
                assert(v@[j] == before[j - 1]);
            }
        }
        assert forall|y: Var| #[trigger] v@.to_set().contains(y) == before.to_set().insert(x).contains(y) by {
            if before.contains(y) {
                let i = choose|i: int| 0 <= i < before.len() && before[i] == y;
                if i < k {
                    assert(v@[i] == y);
                } else {
                    assert(v@[i + 1] == y);
                }
            }
            if v@.contains(y) {
                let i = choose|i: int| 0 <= i < v@.len() && v@[i] == y;
                if i < k {
                    assert(before[i] == y);
                } else if i > k {
                    assert(before[i - 1] == y);
                }
            }
            if y == x {
                assert(v@[k as int] == x);
            }
        }
        assert(v@.to_set() =~= before.to_set().insert(x));
    }
}

impl Func {
    /// The blocks are keyed by label: labels strictly increase.
    pub open spec fn wf(&self) -> bool {
        labels_increasing(self@)
    }

    pub fn new() -> (r: Func)
        ensures
            r@ == FuncView::empty(),
            r.wf(),
    {
        Func { blocks: Vec::new() }
    }

    /// Renames `from` to `to` in every instruction (see [`Inst::rename_var`]).
    pub fn rename_var(&mut self, from: Var, to: Operand)
        ensures
            final(self)@ == rename_func(old(self)@, from, to),
            same_labels(old(self)@, final(self)@),
            old(self).wf() ==> final(self).wf(),
    {
        let mut i: usize = 0;
        while i < self.blocks.len()
            invariant
                i <= self.blocks.len(),
                self.blocks.len() == old(self).blocks.len(),
                forall|k: int|
                    0 <= k < i ==> (#[trigger] self.blocks@[k]).0 == old(self).blocks@[k].0
                        && self.blocks@[k].1@ == rename_insts(old(self).blocks@[k].1@, from, to),
                forall|k: int| i <= k < self.blocks.len() ==> #[trigger] self.blocks@[k] == old(
                    self,
                ).blocks@[k],
            decreases self.blocks.len() - i,
        {
            self.blocks[i].1.rename_var(from, to);
            i += 1;
        }
        assert(self@ == rename_func(old(self)@, from, to));
        assert(same_labels(old(self)@, self@));
        proof {
            lemma_same_labels(old(self)@, self@);
        }
    }

    /// Adds an empty block labelled one past the greatest label (or `0`).
    pub fn new_block(&mut self) -> (r: Block)
        requires
            old(self)@.len() > 0 ==> old(self)@.last().0.0 < usize::MAX,
        ensures
            r == next_label(old(self)@),
            final(self)@ == old(self)@.push((r, Seq::<InstView>::empty())),
            old(self).wf() ==> final(self).wf(),
    {
        let n = self.blocks.len();
        let block = if n == 0 {
            Block(0)
        } else {
            Block(self.blocks[n - 1].0.0 + 1)
        };
        self.blocks.push((block, BlockData::new()));
        assert(self@ == old(self)@.push((block, Seq::<InstView>::empty())));
        proof {
            if old(self).wf() {
                assert forall|i: int, j: int| 0 <= i < j < self@.len() implies (#[trigger] self@[i]).0.0 < (#[trigger] self@[j]).0.0 by {
                    if j == self@.len() - 1 && i < n - 1 {
                        assert(old(self)@[i].0.0 < old(self)@[n - 1].0.0);
                    }
                }
            }
        }
        block
    }

    /// The position of the block labelled `label`.
    pub fn find_block(&self, label: Block) -> (r: Option<usize>)
        ensures
            match r {
                Some(i) => i < self@.len() && self@[i as int].0 == label,
                None => !has_label(self@, label),
            },
    {
        let mut i: usize = 0;
        while i < self.blocks.len()
            invariant
                i <= self.blocks.len(),
                forall|j: int| 0 <= j < i ==> (#[trigger] self@[j]).0 != label,
            decreases self.blocks.len() - i,
        {
            if self.blocks[i].0 == label {
                return Some(i);
            }
            i += 1;
        }
        None
    }

    /// Every value some instruction defines, in increasing order.
    pub fn all_vars(&self) -> (r: Vec<Var>)
        ensures
            labels_sorted(r@),
            forall|v: Var| r@.contains(v) <==> defines(self@, v),
    {
        let mut r: Vec<Var> = Vec::new();
        let mut i: usize = 0;
        while i < self.blocks.len()
            invariant
                i <= self.blocks.len(),
                labels_sorted(r@),
                forall|v: Var|
                    r@.contains(v) <==> exists|a: int, b: int|
                        0 <= a < i && 0 <= b < self@[a].1.len() && (#[trigger] self@[a].1[b]).dist()
                            == Some(v),
            decreases self.blocks.len() - i,
        {
            let insts = &self.blocks[i].1.insts;
            let mut j: usize = 0;
            while j < insts.len()
                invariant
                    i < self.blocks.len(),
                    insts == self.blocks@[i as int].1.insts,
                    j <= insts.len(),
                    labels_sorted(r@),
                    forall|v: Var|
                        r@.contains(v) <==> (exists|a: int, b: int|
                            0 <= a < i && 0 <= b < self@[a].1.len() && (
                            #[trigger] self@[a].1[b]).dist() == Some(v)) || (exists|b: int|
                            0 <= b < j && (#[trigger] self@[i as int].1[b]).dist() == Some(v)),
                decreases insts.len() - j,
            {
                if let Some(d) = insts[j].dist() {
                    let ghost before = r@;
                    insert_sorted(&mut r, d);
                    proof {
                        assert forall|v: Var| r@.contains(v) == before.to_set().insert(d).contains(v) by {
                            assert(r@.to_set().contains(v) == r@.contains(v));
                            assert(before.to_set().contains(v) == before.contains(v));
                        }
                        assert(self@[i as int].1[j as int].dist() == Some(d));
                    }
                }
                j += 1;
            }
            proof {
                assert forall|v: Var|
                    r@.contains(v) <==> exists|a: int, b: int|
                        0 <= a < i + 1 && 0 <= b < self@[a].1.len() && (#[trigger] self@[a].1[b]).dist()
                            == Some(v) by {
                    if exists|a: int, b: int|
                        0 <= a < i + 1 && 0 <= b < self@[a].1.len() && (#[trigger] self@[a].1[b]).dist()
                            == Some(v) {
                        let (a, b) = choose|a: int, b: int|
                            0 <= a < i + 1 && 0 <= b < self@[a].1.len() && (#[trigger] self@[a].1[b]).dist()
                                == Some(v);
                        if a == i {
                            assert(self@[i as int].1[b].dist() == Some(v));
                        }
                    }
                }
            }
            i += 1;
        }
        r
    }

    /// A value that no instruction defines: one past the greatest defined value, or `0`.
    pub fn new_var(&self) -> (r: Var)
        requires
            forall|v: Var| defines(self@, v) ==> v.0 < usize::MAX,
        ensures
            forall|v: Var| defines(self@, v) ==> v.0 < r.0,
            r.0 == 0 || defines(self@, Var((r.0 - 1) as usize)),
    {
        let all = self.all_vars();
        if all.len() == 0 {
            Var(0)
        } else {
            let last = all[all.len() - 1];
            assert(all@.contains(last));
            proof {
                assert forall|v: Var| defines(self@, v) implies v.0 < last.0 + 1 by {
                    assert(all@.contains(v));
                    let k = choose|k: int| 0 <= k < all@.len() && all@[k] == v;
                    if k < all@.len() - 1 {
                        assert(all@[k].0 < all@[all@.len() - 1].0);
                    }
                }
            }
            Var(last.0 + 1)
        }
    }
}

/// A module: functions keyed by name, each name at most once.
#[derive(Debug, Clone, PartialEq, Eq)]
pub struct Mod {
    pub funcs: Vec<(String, Func)>,
}

/// The names of `m` are pairwise distinct.
pub open spec fn names_unique(m: Seq<(String, Func)>) -> bool {
    forall|i: int, j: int| 0 <= i < j < m.len() ==> (#[trigger] m[i]).0@ != (#[trigger] m[j]).0@
}

pub open spec fn has_name(m: Seq<(String, Func)>, name: Seq<char>) -> bool {
    exists|i: int| 0 <= i < m.len() && (#[trigger] m[i]).0@ == name
}

impl Mod {
    /// Functions are keyed by name, each function keyed by label.
    pub open spec fn wf(&self) -> bool {
        &&& names_unique(self.funcs@)
        &&& forall|i: int| 0 <= i < self.funcs@.len() ==> (#[trigger] self.funcs@[i]).1.wf()
    }

    pub fn new() -> (r: Mod)
        ensures
            r.funcs@.len() == 0,
            r.wf(),
    {
        Mod { funcs: Vec::new() }
    }

    /// The position of the function called `name`.
    pub fn find_func(&self, name: &String) -> (r: Option<usize>)
        ensures
            match r {
                Some(i) => i < self.funcs@.len() && self.funcs@[i as int].0@ == name@,
                None => !has_name(self.funcs@, name@),
            },
    {
        let mut i: usize = 0;
        while i < self.funcs.len()
            invariant
                i <= self.funcs.len(),
                forall|j: int| 0 <= j < i ==> (#[trigger] self.funcs@[j]).0@ != name@,
            decreases self.funcs.len() - i,
        {
            if self.funcs[i].0 == *name {
                return Some(i);
            }
            i += 1;
        }
        None
    }
}

} // verus!
