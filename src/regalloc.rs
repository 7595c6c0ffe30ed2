//! Live intervals and linear-scan register allocation.
use vstd::prelude::*;
use vstd::set_lib::set_int_range;

use crate::func::{Func, FuncView, insert_sorted, labels_sorted, lemma_same_labels, same_labels};
use crate::idem::{lemma_sort_vars, sort_vars};
use crate::mem2reg::lemma_sorted_unique;
use crate::inst::{Block, Inst, InstView, Operand, Var};

verus! {

/// Where a value lives after allocation.
#[derive(Debug, Clone, Copy, PartialEq, Eq, Structural)]
pub enum VarLoc {
    Reg(usize),
    Spilled,
}

/// The instruction indices from a value's definition to its last use.
#[derive(Debug, Clone, Copy, PartialEq, Eq, Structural)]
pub struct Interval {
    pub start: usize,
    pub end: usize,
}

/// The instructions of the first `n` blocks of `f`, in block order.
pub open spec fn flat_upto(f: FuncView, n: int) -> Seq<InstView>
    decreases n,
{
    if n <= 0 {
        Seq::empty()
    } else {
        flat_upto(f, n - 1) + f[n - 1].1
    }
}

/// The instructions of `f` in the canonical order: blocks by label, then
/// instruction order. An instruction's index is its position here.
pub open spec fn flat(f: FuncView) -> Seq<InstView> {
    flat_upto(f, f.len() as int)
}

/// No value is defined by two instructions of `fl`.
pub open spec fn defs_unique(fl: Seq<InstView>) -> bool {
    forall|i: int, j: int|
        0 <= i < j < fl.len() && (#[trigger] fl[i]).dist() is Some ==> fl[i].dist() != (
        #[trigger] fl[j]).dist()
}

/// Whether one of the first `n` instructions of `fl` defines `v`.
pub open spec fn defined_before(fl: Seq<InstView>, v: Var, n: int) -> bool {
    exists|j: int| 0 <= j < n && (#[trigger] fl[j]).dist() == Some(v)
}

/// The greatest index below `n` of an instruction that reads `v`, or `-1`.
pub open spec fn last_use(fl: Seq<InstView>, v: Var, n: int) -> int
    decreases n,
{
    if n <= 0 {
        -1
    } else if fl[n - 1].uses().contains(v) {
        n - 1
    } else {
        last_use(fl, v, n - 1)
    }
}

/// The interval of `v` defined at `start`: up to its last use, or `start` when unused.
pub open spec fn live_interval(fl: Seq<InstView>, v: Var, start: int) -> Interval {
    let u = last_use(fl, v, fl.len() as int);
    Interval { start: start as usize, end: (if u >= 0 { u } else { start }) as usize }
}

/// The intervals of the values first defined among the first `n` instructions, in
/// order of definition.
pub open spec fn intervals_upto(fl: Seq<InstView>, n: int) -> Seq<(Var, Interval)>
    decreases n,
{
    if n <= 0 {
        Seq::empty()
    } else {
        let r = intervals_upto(fl, n - 1);
        match fl[n - 1].dist() {
            Some(v) => if defined_before(fl, v, n - 1) {
                r
            } else {
                r.push((v, live_interval(fl, v, n - 1)))
            },
            None => r,
        }
    }
}

/// The live interval of every value of `f`, in increasing order of start.
pub open spec fn live_intervals(f: FuncView) -> Seq<(Var, Interval)> {
    intervals_upto(flat(f), flat(f).len() as int)
}

/// The instructions of `func` in the canonical order (see [`flat`]).
fn flatten(func: &Func) -> (r: Vec<Inst>)
    ensures
        r@.map_values(|i: Inst| i@) == flat(func@),
{
    let mut r: Vec<Inst> = Vec::new();
    let mut i: usize = 0;
    while i < func.blocks.len()
        invariant
            i <= func.blocks.len(),
            r@.map_values(|x: Inst| x@) == flat_upto(func@, i as int),
        decreases func.blocks.len() - i,
    {
        let insts = &func.blocks[i].1.insts;
        let ghost base = r@.map_values(|x: Inst| x@);
        let mut j: usize = 0;
        while j < insts.len()
            invariant
                i < func.blocks.len(),
                insts == func.blocks@[i as int].1.insts,
                j <= insts.len(),
                r@.map_values(|x: Inst| x@) == base + insts@.map_values(|x: Inst| x@).take(j as int),
            decreases insts.len() - j,
        {
            let ghost before = r@.map_values(|x: Inst| x@);
            r.push(insts[j].duplicate());
            proof {
                assert(r@.map_values(|x: Inst| x@) =~= before.push(insts@[j as int]@));
                assert(insts@.map_values(|x: Inst| x@).take(j + 1) =~= insts@.map_values(
                    |x: Inst| x@,
                ).take(j as int).push(insts@[j as int]@));
            }
            j += 1;
        }
        proof {
            assert(insts@.map_values(|x: Inst| x@).take(insts.len() as int) =~= func@[i as int].1);
        }
        i += 1;
    }
    r
}

/// Whether `v` is among `vs`.
fn contains_var(vs: &Vec<Var>, v: Var) -> (r: bool)
    ensures
        r == vs@.contains(v),
{
    let mut k: usize = 0;
    while k < vs.len()
        invariant
            k <= vs.len(),
            forall|j: int| 0 <= j < k ==> vs@[j] != v,
        decreases vs.len() - k,
    {
        if vs[k] == v {
            return true;
        }
        k += 1;
    }
    false
}

/// The live interval of every value of `func`, whose values are each defined
/// once, in increasing order of start: from the index of its definition to the index of its last use, or to its
/// start when it is never read.
pub fn liveness(func: &Func) -> (r: Vec<(Var, Interval)>)
    requires
        flat(func@).len() < usize::MAX,
        defs_unique(flat(func@)),
    ensures
        r@ == live_intervals(func@),
{
    let fl = flatten(func);
    let ghost s = fl@.map_values(|i: Inst| i@);
    let n = fl.len();
    let mut uses: Vec<Vec<Var>> = Vec::new();
    let mut k: usize = 0;
    while k < n
        invariant
            n == fl@.len(),
            s == fl@.map_values(|i: Inst| i@),
            k <= n,
            uses@.len() == k,
            forall|j: int| 0 <= j < k ==> (#[trigger] uses@[j])@ == s[j].uses(),
        decreases n - k,
    {
        uses.push(fl[k].ops());
        k += 1;
    }
    let mut r: Vec<(Var, Interval)> = Vec::new();
    let mut seen: Vec<Var> = Vec::new();
    let mut i: usize = 0;
    while i < n
        invariant
            n == fl@.len(),
            n < usize::MAX,
            s == fl@.map_values(|i: Inst| i@),
            uses@.len() == n,
            forall|j: int| 0 <= j < n ==> (#[trigger] uses@[j])@ == s[j].uses(),
            i <= n,
            r@ == intervals_upto(s, i as int),
            forall|v: Var| seen@.contains(v) <==> defined_before(s, v, i as int),
        decreases n - i,
    {
        if let Some(v) = fl[i].dist() {
            if !contains_var(&seen, v) {
                let mut u: usize = n;
                let mut found = false;
                while u > 0 && !found
                    invariant
                        n == fl@.len(),
                        s == fl@.map_values(|i: Inst| i@),
                        uses@.len() == n,
                        forall|j: int| 0 <= j < n ==> (#[trigger] uses@[j])@ == s[j].uses(),
                        u <= n,
                        found ==> u < n && last_use(s, v, n as int) == u as int,
                        !found ==> last_use(s, v, n as int) == last_use(s, v, u as int),
                    decreases u + if found { 0int } else { 1int },
                {
                    if contains_var(&uses[u - 1], v) {
                        found = true;
                        u = u - 1;
                    } else {
                        u = u - 1;
                    }
                }
                let end = if found {
                    u
                } else {
                    i
                };
                r.push((v, Interval { start: i, end }));
                let ghost seen0 = seen@;
                seen.push(v);
                proof {
                    assert forall|w: Var| seen@.contains(w) <==> defined_before(s, w, i + 1) by {
                        if w != v {
                            if seen@.contains(w) {
                                let k = choose|k: int| 0 <= k < seen@.len() && seen@[k] == w;
                                assert(k < seen0.len());
                                assert(seen0[k] == w);
                                assert(seen0.contains(w));
                                let j = choose|j: int| 0 <= j < i && (#[trigger] s[j]).dist() == Some(w);
                                assert(0 <= j < i + 1);
                            }
                            if defined_before(s, w, i + 1) {
                                let j = choose|j: int| 0 <= j < i + 1 && (#[trigger] s[j]).dist() == Some(w);
                                assert(defined_before(s, w, i as int));
                                assert(seen0.contains(w));
                                let k = choose|k: int| 0 <= k < seen0.len() && seen0[k] == w;
                                assert(seen@[k] == w);
                            }
                        } else {
                            assert(seen@[seen@.len() - 1] == v);
                            assert(s[i as int].dist() == Some(v));
                        }
                    }
                }
            } else {
                proof {
                    assert forall|w: Var| seen@.contains(w) <==> defined_before(s, w, i + 1) by {
                        if defined_before(s, w, i + 1) && w != v {
                            let j = choose|j: int| 0 <= j < i + 1 && (#[trigger] s[j]).dist() == Some(w);
                            assert(defined_before(s, w, i as int));
                        }
                        if defined_before(s, w, i as int) {
                            let j = choose|j: int| 0 <= j < i && (#[trigger] s[j]).dist() == Some(w);
                            assert(0 <= j < i + 1);
                        }
                    }
                }
            }
        } else {
            proof {
                assert forall|w: Var| seen@.contains(w) <==> defined_before(s, w, i + 1) by {
                    if defined_before(s, w, i + 1) {
                        let j = choose|j: int| 0 <= j < i + 1 && (#[trigger] s[j]).dist() == Some(w);
                        assert(j != i);
                    }
                    if defined_before(s, w, i as int) {
                        let j = choose|j: int| 0 <= j < i && (#[trigger] s[j]).dist() == Some(w);
                        assert(0 <= j < i + 1);
                    }
                }
            }
        }
        i += 1;
    }
    r
}

/// `act` without the intervals that end before `start`.
pub open spec fn expire(ivs: Seq<(Var, Interval)>, act: Seq<int>, start: int) -> Seq<int>
    decreases act.len(),
{
    if act.len() == 0 {
        Seq::empty()
    } else {
        let r = expire(ivs, act.drop_last(), start);
        if ivs[act.last()].1.end < start {
            r
        } else {
            r.push(act.last())
        }
    }
}

/// The position in `act` of the first interval with the greatest end.
pub open spec fn pick_spill(ivs: Seq<(Var, Interval)>, act: Seq<int>) -> int
    decreases act.len(),
{
    if act.len() <= 1 {
        0
    } else {
        let p = pick_spill(ivs, act.drop_last());
        if ivs[act.last()].1.end > ivs[act[p]].1.end {
            act.len() - 1
        } else {
            p
        }
    }
}

/// Whether an interval of `act` holds register `r`.
pub open spec fn held(loc: Seq<VarLoc>, act: Seq<int>, r: nat) -> bool {
    exists|k: int| 0 <= k < act.len() && loc[#[trigger] act[k]] == VarLoc::Reg(r as usize)
}

/// The lowest register from `r` on that no interval of `act` holds, or `k`.
pub open spec fn lowest_free(loc: Seq<VarLoc>, act: Seq<int>, r: nat, k: nat) -> nat
    decreases k - r,
{
    if r >= k {
        k
    } else if held(loc, act, r) {
        lowest_free(loc, act, r + 1, k)
    } else {
        r
    }
}

/// The scan's state: the active intervals (by position) and the location of each interval.
pub struct ScanView {
    pub active: Seq<int>,
    pub loc: Seq<VarLoc>,
}

/// The scan's step on interval `i` with `k` registers.
pub open spec fn scan_step(ivs: Seq<(Var, Interval)>, k: nat, st: ScanView, i: int) -> ScanView {
    let act = expire(ivs, st.active, ivs[i].1.start as int);
    if act.len() >= k {
        if k == 0 {
            ScanView { active: act, loc: st.loc.update(i, VarLoc::Spilled) }
        } else {
            let m = pick_spill(ivs, act);
            let p = act[m];
            if ivs[p].1.end >= ivs[i].1.end {
                ScanView {
                    active: act.remove(m).push(i),
                    loc: st.loc.update(i, st.loc[p]).update(p, VarLoc::Spilled),
                }
            } else {
                ScanView { active: act, loc: st.loc.update(i, VarLoc::Spilled) }
            }
        }
    } else {
        ScanView {
            active: act.push(i),
            loc: st.loc.update(i, VarLoc::Reg(lowest_free(st.loc, act, 0, k) as usize)),
        }
    }
}

/// The scan over the first `n` intervals, from no active interval and every
/// interval spilled.
pub open spec fn scan_upto(ivs: Seq<(Var, Interval)>, k: nat, n: int) -> ScanView
    decreases n,
{
    if n <= 0 {
        ScanView {
            active: Seq::empty(),
            loc: Seq::new(ivs.len(), |j: int| VarLoc::Spilled),
        }
    } else {
        scan_step(ivs, k, scan_upto(ivs, k, n - 1), n - 1)
    }
}

/// The location of each interval after the whole scan.
pub open spec fn scan_locs(ivs: Seq<(Var, Interval)>, k: nat) -> Seq<VarLoc> {
    scan_upto(ivs, k, ivs.len() as int).loc
}


/// `s` with `x` placed after every interval that starts no later than it.
pub open spec fn insert_by_start(s: Seq<(Var, Interval)>, x: (Var, Interval)) -> Seq<(Var, Interval)>
    decreases s.len(),
{
    if s.len() == 0 {
        seq![x]
    } else if s.last().1.start <= x.1.start {
        s.push(x)
    } else {
        insert_by_start(s.drop_last(), x).push(s.last())
    }
}

/// `l` sorted by start, intervals with equal starts in their order in `l`.
pub open spec fn sort_by_start(l: Seq<(Var, Interval)>) -> Seq<(Var, Interval)>
    decreases l.len(),
{
    if l.len() == 0 {
        Seq::empty()
    } else {
        insert_by_start(sort_by_start(l.drop_last()), l.last())
    }
}

proof fn lemma_insert_by_start(s: Seq<(Var, Interval)>, x: (Var, Interval))
    requires
        starts_sorted(s),
    ensures
        starts_sorted(insert_by_start(s, x)),
        insert_by_start(s, x).len() == s.len() + 1,
        forall|e: (Var, Interval)| #[trigger] insert_by_start(s, x).contains(e) ==> e == x || s.contains(e),
    decreases s.len(),
{
    if s.len() > 0 && s.last().1.start > x.1.start {
        let d = s.drop_last();
        assert(starts_sorted(d)) by {
            assert forall|a: int, b: int| 0 <= a < b < d.len() implies (#[trigger] d[a]).1.start <= (#[trigger] d[b]).1.start by {
                assert(d[a] == s[a] && d[b] == s[b]);
            }
        }
        lemma_insert_by_start(d, x);
        let r = insert_by_start(d, x);
        let out = r.push(s.last());
        assert forall|e: (Var, Interval)| #[trigger] r.contains(e) implies e.1.start <= s.last().1.start by {
            if e != x {
                let i = choose|i: int| 0 <= i < d.len() && d[i] == e;
                assert(s[i] == e);
                assert(s[s.len() - 1] == s.last());
            }
        }
        assert forall|a: int, b: int| 0 <= a < b < out.len() implies (#[trigger] out[a]).1.start <= (#[trigger] out[b]).1.start by {
            if b == out.len() - 1 {
                assert(r.contains(out[a]));
            } else {
                assert(out[a] == r[a] && out[b] == r[b]);
            }
        }
        assert forall|e: (Var, Interval)| #[trigger] out.contains(e) implies e == x || s.contains(e) by {
            let i = choose|i: int| 0 <= i < out.len() && out[i] == e;
            if i < r.len() {
                assert(r.contains(e));
                if e != x {
                    let j = choose|j: int| 0 <= j < d.len() && d[j] == e;
                    assert(s[j] == e);
                }
            } else {
                assert(s[s.len() - 1] == e);
            }
        }
    } else if s.len() > 0 {
        let out = s.push(x);
        assert forall|a: int, b: int| 0 <= a < b < out.len() implies (#[trigger] out[a]).1.start <= (#[trigger] out[b]).1.start by {
            if b == out.len() - 1 {
                if a < s.len() - 1 {
                    assert(s[a].1.start <= s[s.len() - 1].1.start);
                }
            } else {
                assert(out[a] == s[a] && out[b] == s[b]);
            }
        }
        assert forall|e: (Var, Interval)| #[trigger] out.contains(e) implies e == x || s.contains(e) by {
            let i = choose|i: int| 0 <= i < out.len() && out[i] == e;
            if i < s.len() {
                assert(s[i] == e);
            }
        }
    } else {
        assert forall|e: (Var, Interval)| #[trigger] insert_by_start(s, x).contains(e) implies e == x || s.contains(e) by {
            let i = choose|i: int| 0 <= i < insert_by_start(s, x).len() && insert_by_start(s, x)[i] == e;
        }
    }
}

/// The intervals sorted by start are sorted by start.
pub proof fn lemma_sort_by_start(l: Seq<(Var, Interval)>)
    ensures
        starts_sorted(sort_by_start(l)),
        sort_by_start(l).len() == l.len(),
    decreases l.len(),
{
    if l.len() > 0 {
        lemma_sort_by_start(l.drop_last());
        lemma_insert_by_start(sort_by_start(l.drop_last()), l.last());
    }
}

/// `r` with `x` inserted (see [`insert_by_start`]).
fn insert_interval(r: &mut Vec<(Var, Interval)>, x: (Var, Interval))
    ensures
        final(r)@ == insert_by_start(old(r)@, x),
{
    let ghost target = insert_by_start(r@, x);
    let ghost mut suffix: Seq<(Var, Interval)> = Seq::empty();
    let mut tail: Vec<(Var, Interval)> = Vec::new();
    while r.len() > 0 && r[r.len() - 1].1.start > x.1.start
        invariant
            target == insert_by_start(r@, x) + suffix,
            suffix.len() == tail@.len(),
            forall|i: int| 0 <= i < suffix.len() ==> suffix[i] == tail@[tail@.len() - 1 - i],
        decreases r.len(),
    {
        let ghost r0 = r@;
        let e = r.pop().unwrap();
        proof {
            assert(r0 == r@.push(e));
            assert(r0.drop_last() == r@);
            assert(insert_by_start(r0, x) == insert_by_start(r@, x).push(e));
            assert(insert_by_start(r@, x).push(e) + suffix =~= insert_by_start(r@, x) + (seq![e] + suffix));
            suffix = seq![e] + suffix;
        }
        tail.push(e);
    }
    proof {
        assert(insert_by_start(r@, x) == r@.push(x));
    }
    r.push(x);
    while tail.len() > 0
        invariant
            target == r@ + suffix,
            suffix.len() == tail@.len(),
            forall|i: int| 0 <= i < suffix.len() ==> suffix[i] == tail@[tail@.len() - 1 - i],
        decreases tail.len(),
    {
        let ghost t0 = tail@;
        let e = tail.pop().unwrap();
        proof {
            assert(t0 == tail@.push(e));
            assert(suffix[0] == e);
            assert(r@.push(e) + suffix.drop_first() =~= r@ + suffix);
            suffix = suffix.drop_first();
            assert forall|i: int| 0 <= i < suffix.len() implies suffix[i] == tail@[tail@.len() - 1 - i] by {
                assert(t0[t0.len() - 1 - (i + 1)] == tail@[tail@.len() - 1 - i]);
            }
        }
        r.push(e);
    }
    assert(suffix.len() == 0);
    assert(r@ + suffix =~= r@);
}

/// The intervals of `l` sorted by start (see [`sort_by_start`]).
pub fn sort_intervals(l: &Vec<(Var, Interval)>) -> (r: Vec<(Var, Interval)>)
    ensures
        r@ == sort_by_start(l@),
{
    let mut r: Vec<(Var, Interval)> = Vec::new();
    let mut k: usize = 0;
    while k < l.len()
        invariant
            k <= l.len(),
            r@ == sort_by_start(l@.take(k as int)),
        decreases l.len() - k,
    {
        proof {
            assert(l@.take(k + 1).drop_last() == l@.take(k as int));
            assert(l@.take(k + 1).last() == l@[k as int]);
        }
        insert_interval(&mut r, l[k]);
        k += 1;
    }
    assert(l@.take(l.len() as int) == l@);
    r
}

/// The linear-scan allocator.
pub struct LinearScan {
    pub reg_size: usize,
    pub interval: Vec<(Var, Interval)>,
    pub alloced: Vec<(Var, VarLoc)>,
    pub active: Vec<usize>,
}

pub open spec fn locs_of(alloced: Seq<(Var, VarLoc)>) -> Seq<VarLoc> {
    alloced.map_values(|p: (Var, VarLoc)| p.1)
}

pub open spec fn active_view(active: Seq<usize>) -> Seq<int> {
    active.map_values(|x: usize| x as int)
}

impl LinearScan {
    /// Allocates every interval in ascending order of start (see [`scan_step`]);
    /// intervals with the same start keep their order.
    pub fn linear_scan(&mut self)
        ensures
            final(self).wf(),
            final(self).reg_size == old(self).reg_size,
            final(self).interval@ == sort_by_start(old(self).interval@),
            locs_of(final(self).alloced@) == scan_locs(
                sort_by_start(old(self).interval@),
                old(self).reg_size as nat,
            ),
    {
        let sorted = sort_intervals(&self.interval);
        *self = LinearScan::new(sorted, self.reg_size);
        self.scan_in_order();
    }

    /// Each interval has its location, named by the same value; active intervals
    /// are in range.
    pub open spec fn wf(&self) -> bool {
        &&& self.alloced@.len() == self.interval@.len()
        &&& forall|j: int|
            0 <= j < self.interval@.len() ==> (#[trigger] self.alloced@[j]).0
                == self.interval@[j].0
        &&& forall|j: int|
            0 <= j < self.active@.len() ==> #[trigger] self.active@[j] < self.interval@.len()
    }

    /// An allocator over `interval` with `reg_size` registers: nothing active,
    /// every value spilled.
    pub fn new(interval: Vec<(Var, Interval)>, reg_size: usize) -> (r: LinearScan)
        ensures
            r.wf(),
            r.reg_size == reg_size,
            r.interval@ == interval@,
            active_view(r.active@) == scan_upto(interval@, reg_size as nat, 0).active,
            locs_of(r.alloced@) == scan_upto(interval@, reg_size as nat, 0).loc,
    {
        let mut alloced: Vec<(Var, VarLoc)> = Vec::new();
        let mut j: usize = 0;
        while j < interval.len()
            invariant
                j <= interval.len(),
                alloced@.len() == j,
                forall|a: int| 0 <= a < j ==> #[trigger] alloced@[a] == (interval@[a].0, VarLoc::Spilled),
            decreases interval.len() - j,
        {
            alloced.push((interval[j].0, VarLoc::Spilled));
            j += 1;
        }
        let r = LinearScan { reg_size, interval, alloced, active: Vec::new() };
        assert(locs_of(r.alloced@) =~= scan_upto(r.interval@, reg_size as nat, 0).loc);
        assert(active_view(r.active@) =~= Seq::<int>::empty());
        r
    }

    /// Drops from the active intervals those that end before interval `i` starts.
    pub fn expire_old_intervals(&mut self, i: usize)
        requires
            old(self).wf(),
            i < old(self).interval@.len(),
        ensures
            final(self).wf(),
            final(self).reg_size == old(self).reg_size,
            final(self).interval == old(self).interval,
            final(self).alloced == old(self).alloced,
            active_view(final(self).active@) == expire(
                old(self).interval@,
                active_view(old(self).active@),
                old(self).interval@[i as int].1.start as int,
            ),
    {
        let start = self.interval[i].1.start;
        let ghost ivs = self.interval@;
        let ghost act = active_view(self.active@);
        let mut kept: Vec<usize> = Vec::new();
        let mut k: usize = 0;
        while k < self.active.len()
            invariant
                self.wf(),
                ivs == self.interval@,
                act == active_view(self.active@),
                k <= self.active.len(),
                active_view(kept@) == expire(ivs, act.take(k as int), start as int),
                forall|j: int| 0 <= j < kept@.len() ==> #[trigger] kept@[j] < ivs.len(),
            decreases self.active.len() - k,
        {
            proof {
                assert(act.take(k + 1).drop_last() =~= act.take(k as int));
                assert(act.take(k + 1).last() == self.active@[k as int] as int);
            }
            let j = self.active[k];
            if self.interval[j].1.end >= start {
                let ghost before = kept@;
                kept.push(j);
                proof {
                    assert(active_view(kept@) =~= active_view(before).push(j as int));
                }
            }
            k += 1;
        }
        proof {
            assert(act.take(self.active.len() as int) =~= act);
        }
        self.active = kept;
    }

    /// Register `r` is held by an active interval.
    fn is_held(&self, r: usize) -> (b: bool)
        requires
            self.wf(),
        ensures
            b == held(locs_of(self.alloced@), active_view(self.active@), r as nat),
    {
        let ghost loc = locs_of(self.alloced@);
        let ghost act = active_view(self.active@);
        let mut k: usize = 0;
        while k < self.active.len()
            invariant
                self.wf(),
                loc == locs_of(self.alloced@),
                act == active_view(self.active@),
                k <= self.active.len(),
                forall|j: int| 0 <= j < k ==> loc[#[trigger] act[j]] != VarLoc::Reg(r),
            decreases self.active.len() - k,
        {
            if self.alloced[self.active[k]].1 == VarLoc::Reg(r) {
                assert(loc[act[k as int]] == VarLoc::Reg(r));
                return true;
            }
            k += 1;
        }
        false
    }

    /// The lowest register that no active interval holds (see [`lowest_free`]).
    pub fn new_reg(&self) -> (r: VarLoc)
        requires
            self.wf(),
        ensures
            r == VarLoc::Reg(
                lowest_free(
                    locs_of(self.alloced@),
                    active_view(self.active@),
                    0,
                    self.reg_size as nat,
                ) as usize,
            ),
    {
        let mut r: usize = 0;
        while r < self.reg_size && self.is_held(r)
            invariant
                self.wf(),
                r <= self.reg_size,
                lowest_free(locs_of(self.alloced@), active_view(self.active@), 0, self.reg_size as nat)
                    == lowest_free(
                    locs_of(self.alloced@),
                    active_view(self.active@),
                    r as nat,
                    self.reg_size as nat,
                ),
            decreases self.reg_size - r,
        {
            r += 1;
        }
        VarLoc::Reg(r)
    }

    pub fn new_spill(&self) -> (r: VarLoc)
        ensures
            r == VarLoc::Spilled,
    {
        VarLoc::Spilled
    }

    /// The position in the active list of the first interval with the greatest end.
    fn spill_candidate(&self) -> (m: usize)
        requires
            self.wf(),
            self.active@.len() > 0,
        ensures
            m as int == pick_spill(self.interval@, active_view(self.active@)),
            m < self.active@.len(),
    {
        let ghost ivs = self.interval@;
        let ghost act = active_view(self.active@);
        let mut m: usize = 0;
        let mut k: usize = 1;
        while k < self.active.len()
            invariant
                self.wf(),
                ivs == self.interval@,
                act == active_view(self.active@),
                1 <= k <= self.active.len(),
                m < k,
                m as int == pick_spill(ivs, act.take(k as int)),
            decreases self.active.len() - k,
        {
            proof {
                assert(act.take(k + 1).drop_last() =~= act.take(k as int));
                assert(act.take(k + 1).last() == act[k as int]);
                assert(act.take(k as int)[m as int] == act[m as int]);
            }
            if self.interval[self.active[k]].1.end > self.interval[self.active[m]].1.end {
                m = k;
            }
            k += 1;
        }
        proof {
            assert(act.take(self.active.len() as int) =~= act);
        }
        m
    }

    /// The spill decision for interval `i` when every register is taken.
    pub fn spill_at_intervals(&mut self, i: usize)
        requires
            old(self).wf(),
            i < old(self).interval@.len(),
            old(self).reg_size > 0,
            old(self).active@.len() >= old(self).reg_size,
        ensures
            final(self).wf(),
            final(self).reg_size == old(self).reg_size,
            final(self).interval == old(self).interval,
            ({
                let ivs = old(self).interval@;
                let act = active_view(old(self).active@);
                let loc = locs_of(old(self).alloced@);
                let m = pick_spill(ivs, act);
                let p = act[m];
                if ivs[p].1.end >= ivs[i as int].1.end {
                    active_view(final(self).active@) == act.remove(m).push(i as int) && locs_of(
                        final(self).alloced@,
                    ) == loc.update(i as int, loc[p]).update(p, VarLoc::Spilled)
                } else {
                    active_view(final(self).active@) == act && locs_of(final(self).alloced@)
                        == loc.update(i as int, VarLoc::Spilled)
                }
            }),
    {
        let m = self.spill_candidate();
        let p = self.active[m];
        let ghost act = active_view(self.active@);
        let ghost loc = locs_of(self.alloced@);
        if self.interval[p].1.end >= self.interval[i].1.end {
            let lp = self.alloced[p].1;
            let vi = self.alloced[i].0;
            let vp = self.alloced[p].0;
            self.alloced[i] = (vi, lp);
            self.alloced[p] = (vp, self.new_spill());
            self.active.remove(m);
            self.active.push(i);
            proof {
                assert(active_view(self.active@) =~= act.remove(m as int).push(i as int));
                assert(locs_of(self.alloced@) =~= loc.update(i as int, loc[p as int]).update(
                    p as int,
                    VarLoc::Spilled,
                ));
            }
        } else {
            let vi = self.alloced[i].0;
            self.alloced[i] = (vi, self.new_spill());
            proof {
                assert(locs_of(self.alloced@) =~= loc.update(i as int, VarLoc::Spilled));
            }
        }
    }

    /// Allocates every interval in the order held (see [`scan_step`]).
    fn scan_in_order(&mut self)
        requires
            old(self).wf(),
            active_view(old(self).active@) == scan_upto(
                old(self).interval@,
                old(self).reg_size as nat,
                0,
            ).active,
            locs_of(old(self).alloced@) == scan_upto(old(self).interval@, old(self).reg_size as nat, 0).loc,
        ensures
            final(self).reg_size == old(self).reg_size,
            final(self).wf(),
            final(self).interval@ == old(self).interval@,
            locs_of(final(self).alloced@) == scan_locs(old(self).interval@, old(self).reg_size as nat),
    {
        let ghost ivs = self.interval@;
        let ghost k = self.reg_size as nat;
        let mut i: usize = 0;
        while i < self.interval.len()
            invariant
                self.wf(),
                self.interval@ == ivs,
                self.reg_size as nat == k,
                i <= ivs.len(),
                active_view(self.active@) == scan_upto(ivs, k, i as int).active,
                locs_of(self.alloced@) == scan_upto(ivs, k, i as int).loc,
            decreases ivs.len() - i,
        {
            self.expire_old_intervals(i);
            if self.active.len() >= self.reg_size {
                if self.reg_size == 0 {
                    let vi = self.alloced[i].0;
                    let ghost loc = locs_of(self.alloced@);
                    self.alloced[i] = (vi, self.new_spill());
                    proof {
                        assert(locs_of(self.alloced@) =~= loc.update(i as int, VarLoc::Spilled));
                    }
                } else {
                    self.spill_at_intervals(i);
                }
            } else {
                let r = self.new_reg();
                let vi = self.alloced[i].0;
                let ghost loc = locs_of(self.alloced@);
                let ghost act = active_view(self.active@);
                self.alloced[i] = (vi, r);
                self.active.push(i);
                proof {
                    assert(locs_of(self.alloced@) =~= loc.update(i as int, r));
                    assert(active_view(self.active@) =~= act.push(i as int));
                }
            }
            i += 1;
        }
    }
}

/// The location recorded for `v`; a later entry overrides an earlier one.
pub open spec fn loc_of(alloced: Seq<(Var, VarLoc)>, v: Var) -> Option<VarLoc>
    decreases alloced.len(),
{
    if alloced.len() == 0 {
        None
    } else if alloced.last().0 == v {
        Some(alloced.last().1)
    } else {
        loc_of(alloced.drop_last(), v)
    }
}

pub open spec fn is_spilled(alloced: Seq<(Var, VarLoc)>, v: Var) -> bool {
    loc_of(alloced, v) == Some(VarLoc::Spilled)
}

/// The spilled values among `uses`, each once, in order of first appearance.
pub open spec fn spilled_uses(alloced: Seq<(Var, VarLoc)>, uses: Seq<Var>) -> Seq<Var>
    decreases uses.len(),
{
    if uses.len() == 0 {
        Seq::empty()
    } else {
        let r = spilled_uses(alloced, uses.drop_last());
        let v = uses.last();
        if is_spilled(alloced, v) && !r.contains(v) {
            r.push(v)
        } else {
            r
        }
    }
}

/// A reload of each of `vs` from its own slot.
pub open spec fn reloads(vs: Seq<Var>) -> Seq<InstView> {
    vs.map_values(|v: Var| InstView::Load { dist: v, op1: Operand::Var(v) })
}

/// The store that keeps a spilled value in its slot after the instruction `i`
/// defines it; an `Alloca` names a slot and needs none.
pub open spec fn spill_store(i: InstView, alloced: Seq<(Var, VarLoc)>) -> Seq<InstView> {
    match i.dist() {
        Some(d) => if is_spilled(alloced, d) && !(i is Alloca) {
            seq![InstView::Store { op1: Operand::Var(d), op2: Operand::Var(d) }]
        } else {
            Seq::empty()
        },
        None => Seq::empty(),
    }
}

/// `s` with each instruction preceded by the reloads of the spilled values it reads
/// and followed by the store of the spilled value it defines.
pub open spec fn with_reloads(s: Seq<InstView>, alloced: Seq<(Var, VarLoc)>) -> Seq<InstView>
    decreases s.len(),
{
    if s.len() == 0 {
        Seq::empty()
    } else {
        with_reloads(s.drop_last(), alloced) + reloads(spilled_uses(alloced, s.last().uses())).push(
            s.last(),
        ) + spill_store(s.last(), alloced)
    }
}

/// The spilled values of `alloced`, in its order.
pub open spec fn spilled_vars(alloced: Seq<(Var, VarLoc)>) -> Seq<Var>
    decreases alloced.len(),
{
    if alloced.len() == 0 {
        Seq::empty()
    } else {
        let r = spilled_vars(alloced.drop_last());
        if alloced.last().1 == VarLoc::Spilled {
            r.push(alloced.last().0)
        } else {
            r
        }
    }
}

/// A slot (`Alloca`) for each spilled value, in increasing order of value.
pub open spec fn spill_slots(alloced: Seq<(Var, VarLoc)>) -> Seq<InstView> {
    sort_vars(spilled_vars(alloced)).map_values(|v: Var| InstView::Alloca { dist: v })
}

/// `f` with the spill slots at the start of the entry block and the reloads before
/// each use of a spilled value.
pub open spec fn with_spills(f: FuncView, alloced: Seq<(Var, VarLoc)>) -> FuncView {
    Seq::new(
        f.len(),
        |i: int|
            (
                f[i].0,
                (if f[i].0 == Block(0) {
                    spill_slots(alloced)
                } else {
                    Seq::empty()
                }) + with_reloads(f[i].1, alloced),
            ),
    )
}

/// The allocation of `f` with `k` registers: each value with its location.
pub open spec fn allocation(f: FuncView, k: nat) -> Seq<(Var, VarLoc)> {
    let ivs = sort_by_start(live_intervals(f));
    Seq::new(ivs.len(), |j: int| (ivs[j].0, scan_locs(ivs, k)[j]))
}

fn loc_lookup(alloced: &Vec<(Var, VarLoc)>, v: Var) -> (r: Option<VarLoc>)
    ensures
        r == loc_of(alloced@, v),
{
    let mut k: usize = alloced.len();
    assert(alloced@.take(k as int) == alloced@);
    while k > 0
        invariant
            k <= alloced.len(),
            loc_of(alloced@, v) == loc_of(alloced@.take(k as int), v),
        decreases k,
    {
        proof {
            assert(alloced@.take(k as int).drop_last() == alloced@.take(k - 1));
        }
        if alloced[k - 1].0 == v {
            return Some(alloced[k - 1].1);
        }
        k -= 1;
    }
    None
}

/// `insts` with the reloads of spilled values (see [`with_reloads`]).
fn reload_block(insts: &Vec<Inst>, alloced: &Vec<(Var, VarLoc)>) -> (r: Vec<Inst>)
    ensures
        r@.map_values(|i: Inst| i@) == with_reloads(insts@.map_values(|i: Inst| i@), alloced@),
{
    let ghost s = insts@.map_values(|i: Inst| i@);
    let mut r: Vec<Inst> = Vec::new();
    let mut j: usize = 0;
    while j < insts.len()
        invariant
            s == insts@.map_values(|i: Inst| i@),
            j <= insts.len(),
            r@.map_values(|i: Inst| i@) == with_reloads(s.take(j as int), alloced@),
        decreases insts.len() - j,
    {
        proof {
            assert(s.take(j + 1).drop_last() == s.take(j as int));
            assert(s.take(j + 1).last() == insts@[j as int]@);
        }
        let ops = insts[j].ops();
        let mut sp: Vec<Var> = Vec::new();
        let mut k: usize = 0;
        while k < ops.len()
            invariant
                k <= ops.len(),
                sp@ == spilled_uses(alloced@, ops@.take(k as int)),
            decreases ops.len() - k,
        {
            proof {
                assert(ops@.take(k + 1).drop_last() == ops@.take(k as int));
            }
            let v = ops[k];
            let spilled = match loc_lookup(alloced, v) {
                Some(VarLoc::Spilled) => true,
                _ => false,
            };
            if spilled && !contains_var(&sp, v) {
                sp.push(v);
            }
            k += 1;
        }
        proof {
            assert(ops@.take(ops.len() as int) == ops@);
        }
        let ghost base = r@.map_values(|i: Inst| i@);
        let mut k: usize = 0;
        while k < sp.len()
            invariant
                k <= sp.len(),
                r@.map_values(|i: Inst| i@) == base + reloads(sp@.take(k as int)),
            decreases sp.len() - k,
        {
            let ghost before = r@.map_values(|i: Inst| i@);
            r.push(Inst::Load { dist: sp[k], op1: Operand::Var(sp[k]) });
            proof {
                assert(r@.map_values(|i: Inst| i@) =~= before.push(r@.last()@));
                assert(reloads(sp@.take(k + 1)) =~= reloads(sp@.take(k as int)).push(r@.last()@));
            }
            k += 1;
        }
        proof {
            assert(sp@.take(sp.len() as int) == sp@);
        }
        let ghost before = r@.map_values(|i: Inst| i@);
        r.push(insts[j].duplicate());
        proof {
            assert(r@.map_values(|i: Inst| i@) =~= before.push(insts@[j as int]@));
        }
        let ghost mid = r@.map_values(|i: Inst| i@);
        if let Some(d) = insts[j].dist() {
            let is_slot = match &insts[j] {
                Inst::Alloca { .. } => true,
                _ => false,
            };
            let spilled = match loc_lookup(alloced, d) {
                Some(VarLoc::Spilled) => true,
                _ => false,
            };
            if spilled && !is_slot {
                r.push(Inst::Store { op1: Operand::Var(d), op2: Operand::Var(d) });
                proof {
                    assert(r@.map_values(|i: Inst| i@) =~= mid + spill_store(insts@[j as int]@, alloced@));
                }
            } else {
                assert(mid =~= mid + spill_store(insts@[j as int]@, alloced@));
            }
        } else {
            assert(mid =~= mid + spill_store(insts@[j as int]@, alloced@));
        }
        j += 1;
    }
    proof {
        assert(s.take(insts.len() as int) == s);
    }
    r
}

/// Materialises the spills of `alloced` in `func` (see [`with_spills`]).
pub fn insert_alloca(func: &mut Func, alloced: &Vec<(Var, VarLoc)>)
    ensures
        final(func)@ == with_spills(old(func)@, alloced@),
        same_labels(old(func)@, final(func)@),
        old(func).wf() ==> final(func).wf(),
{
    let mut vs: Vec<Var> = Vec::new();
    let mut k: usize = 0;
    while k < alloced.len()
        invariant
            k <= alloced.len(),
            labels_sorted(vs@),
            forall|v: Var| vs@.contains(v) <==> spilled_vars(alloced@.take(k as int)).contains(v),
        decreases alloced.len() - k,
    {
        proof {
            assert(alloced@.take(k + 1).drop_last() == alloced@.take(k as int));
            assert(alloced@.take(k + 1).last() == alloced@[k as int]);
        }
        if alloced[k].1 == VarLoc::Spilled {
            let ghost before = vs@;
            let ghost prev = spilled_vars(alloced@.take(k as int));
            insert_sorted(&mut vs, alloced[k].0);
            proof {
                assert forall|v: Var| vs@.contains(v) <==> spilled_vars(alloced@.take(k + 1)).contains(v) by {
                    assert(vs@.to_set().contains(v) == vs@.contains(v));
                    assert(before.to_set().contains(v) == before.contains(v));
                    let nx = prev.push(alloced@[k as int].0);
                    assert(spilled_vars(alloced@.take(k + 1)) == nx);
                    if nx.contains(v) && v != alloced@[k as int].0 {
                        let i = choose|i: int| 0 <= i < nx.len() && nx[i] == v;
                        assert(prev[i] == v);
                    }
                    if prev.contains(v) {
                        let i = choose|i: int| 0 <= i < prev.len() && prev[i] == v;
                        assert(nx[i] == v);
                    }
                    if v == alloced@[k as int].0 {
                        assert(nx[nx.len() - 1] == v);
                    }
                }
            }
        }
        k += 1;
    }
    proof {
        assert(alloced@.take(alloced.len() as int) == alloced@);
        lemma_sort_vars(spilled_vars(alloced@));
        lemma_sorted_unique(vs@, sort_vars(spilled_vars(alloced@)));
    }
    let mut slots: Vec<Inst> = Vec::new();
    let mut k: usize = 0;
    while k < vs.len()
        invariant
            k <= vs.len(),
            slots@.map_values(|i: Inst| i@) == vs@.take(k as int).map_values(
                |v: Var| InstView::Alloca { dist: v },
            ),
        decreases vs.len() - k,
    {
        let ghost before = slots@.map_values(|i: Inst| i@);
        slots.push(Inst::Alloca { dist: vs[k] });
        proof {
            assert(slots@.map_values(|i: Inst| i@) =~= before.push(slots@.last()@));
            assert(vs@.take(k + 1).map_values(|v: Var| InstView::Alloca { dist: v })
                =~= vs@.take(k as int).map_values(|v: Var| InstView::Alloca { dist: v }).push(
                InstView::Alloca { dist: vs@[k as int] },
            ));
        }
        k += 1;
    }
    proof {
        assert(vs@.take(vs.len() as int) == vs@);
    }
    let ghost target = with_spills(old(func)@, alloced@);
    let ghost bb = func.blocks@;
    let mut i: usize = 0;
    while i < func.blocks.len()
        invariant
            target == with_spills(old(func)@, alloced@),
            old(func)@ == bb.map_values(|p: (Block, crate::func::BlockData)| (p.0, p.1@)),
            slots@.map_values(|i: Inst| i@) == spill_slots(alloced@),
            func.blocks.len() == bb.len(),
            i <= func.blocks.len(),
            forall|k: int|
                0 <= k < i ==> (#[trigger] func.blocks@[k]).0 == target[k].0
                    && func.blocks@[k].1@ == target[k].1,
            forall|k: int| i <= k < func.blocks.len() ==> #[trigger] func.blocks@[k] == bb[k],
        decreases func.blocks.len() - i,
    {
        let mut body = reload_block(&func.blocks[i].1.insts, alloced);
        let insts = if func.blocks[i].0 == Block(0) {
            let mut head: Vec<Inst> = Vec::new();
            let mut k: usize = 0;
            while k < slots.len()
                invariant
                    k <= slots.len(),
                    head@.len() == k,
                    forall|j: int| 0 <= j < k ==> (#[trigger] head@[j])@ == slots@[j]@,
                decreases slots.len() - k,
            {
                head.push(slots[k].duplicate());
                k += 1;
            }
            let ghost h = head@;
            let ghost b = body@;
            head.append(&mut body);
            proof {
                assert(head@.map_values(|x: Inst| x@) =~= slots@.map_values(|x: Inst| x@)
                    + b.map_values(|x: Inst| x@));
            }
            head
        } else {
            proof {
                assert(body@.map_values(|x: Inst| x@) =~= Seq::<InstView>::empty() + body@.map_values(
                    |x: Inst| x@,
                ));
            }
            body
        };
        func.blocks[i].1.insts = insts;
        i += 1;
    }
    assert(func@ =~= target);
    assert(same_labels(old(func)@, func@));
    proof {
        lemma_same_labels(old(func)@, func@);
    }
}

/// The number of machine registers [`regalloc`] allocates.
pub const REG_COUNT: usize = 7;

/// Allocates `k` registers for `func`, whose values are each defined once, and
/// materialises the spills.
pub fn regalloc_with(func: &mut Func, k: usize)
    requires
        flat(old(func)@).len() < usize::MAX,
        defs_unique(flat(old(func)@)),
    ensures
        final(func)@ == with_spills(old(func)@, allocation(old(func)@, k as nat)),
        same_labels(old(func)@, final(func)@),
        old(func).wf() ==> final(func).wf(),
{
    let live = liveness(func);
    let mut scan = LinearScan::new(live, k);
    scan.linear_scan();
    proof {
        assert(scan.alloced@ =~= allocation(old(func)@, k as nat));
    }
    insert_alloca(func, &scan.alloced);
}

/// Allocates [`REG_COUNT`] registers for `func` (see [`regalloc_with`]).
pub fn regalloc(func: &mut Func)
    requires
        flat(old(func)@).len() < usize::MAX,
        defs_unique(flat(old(func)@)),
    ensures
        final(func)@ == with_spills(old(func)@, allocation(old(func)@, REG_COUNT as nat)),
        same_labels(old(func)@, final(func)@),
        old(func).wf() ==> final(func).wf(),
{
    regalloc_with(func, REG_COUNT);
}

/// The starts of `ivs` never decrease.
pub open spec fn starts_sorted(ivs: Seq<(Var, Interval)>) -> bool {
    forall|a: int, b: int| 0 <= a < b < ivs.len() ==> (#[trigger] ivs[a]).1.start <= (
    #[trigger] ivs[b]).1.start
}

/// Interval `iv` covers instruction index `t`.
pub open spec fn live_at(iv: Interval, t: int) -> bool {
    iv.start <= t <= iv.end
}

pub open spec fn reg_of(l: VarLoc) -> int {
    match l {
        VarLoc::Reg(r) => r as int,
        VarLoc::Spilled => -1,
    }
}

/// What holds of the scan's state after the first `n` intervals.
pub open spec fn scan_inv(ivs: Seq<(Var, Interval)>, k: nat, n: int, st: ScanView) -> bool {
    &&& st.loc.len() == ivs.len()
    &&& st.active.no_duplicates()
    &&& forall|a: int| 0 <= a < st.active.len() ==> 0 <= #[trigger] st.active[a] < n
    &&& forall|x: int| #[trigger] st.active.contains(x) ==> st.loc[x] is Reg
    &&& forall|x: int, y: int|
        st.active.contains(x) && st.active.contains(y) && x != y ==> #[trigger] st.loc[x]
            != #[trigger] st.loc[y]
    &&& forall|j: int|
        0 <= j < ivs.len() && (#[trigger] st.loc[j]) is Reg ==> j < n && reg_of(st.loc[j]) < k
    &&& n >= 1 ==> forall|j: int|
        0 <= j < n && (#[trigger] st.loc[j]) is Reg && ivs[j].1.end >= ivs[n - 1].1.start
            ==> st.active.contains(j)
}

proof fn lemma_expire(ivs: Seq<(Var, Interval)>, act: Seq<int>, s: int)
    requires
        act.no_duplicates(),
    ensures
        expire(ivs, act, s).no_duplicates(),
        forall|x: int| #[trigger]
            expire(ivs, act, s).contains(x) <==> act.contains(x) && ivs[x].1.end >= s,
        expire(ivs, act, s).len() <= act.len(),
    decreases act.len(),
{
    if act.len() > 0 {
        let d = act.drop_last();
        assert(d.no_duplicates()) by {
            assert forall|i: int, j: int| 0 <= i < d.len() && 0 <= j < d.len() && i != j implies d[i] != d[j] by {
                assert(d[i] == act[i] && d[j] == act[j]);
            }
        }
        lemma_expire(ivs, d, s);
        let r = expire(ivs, d, s);
        assert forall|x: int| act.contains(x) <==> d.contains(x) || x == act.last() by {
            if act.contains(x) && x != act.last() {
                let i = choose|i: int| 0 <= i < act.len() && act[i] == x;
                assert(d[i] == x);
            }
            if d.contains(x) {
                let i = choose|i: int| 0 <= i < d.len() && d[i] == x;
                assert(act[i] == x);
            }
            if x == act.last() {
                assert(act[act.len() - 1] == x);
            }
        }
        assert(!d.contains(act.last())) by {
            if d.contains(act.last()) {
                let i = choose|i: int| 0 <= i < d.len() && d[i] == act.last();
                assert(act[i] == act[act.len() - 1]);
            }
        }
        if ivs[act.last()].1.end >= s {
            let e = r.push(act.last());
            assert(e.no_duplicates()) by {
                assert forall|i: int, j: int| 0 <= i < e.len() && 0 <= j < e.len() && i != j implies e[i] != e[j] by {
                    if i < r.len() && j < r.len() {
                    } else if i < r.len() {
                        assert(r.contains(e[i]));
                    } else {
                        assert(r.contains(e[j]));
                    }
                }
            }
            assert forall|x: int| #[trigger] e.contains(x) <==> r.contains(x) || x == act.last() by {
                if e.contains(x) && x != act.last() {
                    let i = choose|i: int| 0 <= i < e.len() && e[i] == x;
                    assert(r[i] == x);
                }
                if r.contains(x) {
                    let i = choose|i: int| 0 <= i < r.len() && r[i] == x;
                    assert(e[i] == x);
                }
                if x == act.last() {
                    assert(e[e.len() - 1] == x);
                }
            }
        }
    }
}

proof fn lemma_lowest_free(loc: Seq<VarLoc>, act: Seq<int>, r: nat, k: nat)
    ensures
        lowest_free(loc, act, r, k) < k ==> !held(loc, act, lowest_free(loc, act, r, k)),
        lowest_free(loc, act, r, k) >= k ==> forall|q: nat| r <= q < k ==> #[trigger] held(loc, act, q),
    decreases k - r,
{
    if r < k && held(loc, act, r) {
        lemma_lowest_free(loc, act, r + 1, k);
        assert forall|q: nat| r <= q < k && lowest_free(loc, act, r, k) >= k implies #[trigger] held(loc, act, q) by {
            if q > r {
            }
        }
    }
}

/// With fewer active intervals than registers, the lowest free register is below `k`.
proof fn lemma_free_register(loc: Seq<VarLoc>, act: Seq<int>, k: nat)
    requires
        act.len() < k,
        k <= usize::MAX,
    ensures
        lowest_free(loc, act, 0, k) < k,
        !held(loc, act, lowest_free(loc, act, 0, k)),
{
    lemma_lowest_free(loc, act, 0, k);
    if lowest_free(loc, act, 0, k) >= k {
        let regs = act.map_values(|x: int| reg_of(loc[x]));
        regs.lemma_cardinality_of_set();
        vstd::set_lib::lemma_int_range(0, k as int);
        assert(set_int_range(0, k as int).subset_of(regs.to_set())) by {
            assert forall|q: int| set_int_range(0, k as int).contains(q) implies regs.to_set().contains(q) by {
                assert(held(loc, act, q as nat));
                let a = choose|a: int| 0 <= a < act.len() && loc[#[trigger] act[a]] == VarLoc::Reg(q as nat as usize);
                assert((q as nat as usize) as int == q);
                assert(regs[a] == q);
            }
        }
        vstd::seq_lib::seq_to_set_is_finite(regs);
        vstd::set_lib::lemma_len_subset(set_int_range(0, k as int), regs.to_set());
    }
}

proof fn lemma_scan_inv(ivs: Seq<(Var, Interval)>, k: nat, n: int)
    requires
        starts_sorted(ivs),
        k <= usize::MAX,
        0 <= n <= ivs.len(),
    ensures
        scan_inv(ivs, k, n, scan_upto(ivs, k, n)),
    decreases n,
{
    if n == 0 {
        let st = scan_upto(ivs, k, 0);
        assert(st.active.no_duplicates());
    } else {
        lemma_scan_inv(ivs, k, n - 1);
        let st = scan_upto(ivs, k, n - 1);
        let i = n - 1;
        let s = ivs[i].1.start as int;
        let act = expire(ivs, st.active, s);
        lemma_expire(ivs, st.active, s);
        let nx = scan_upto(ivs, k, n);
        assert(nx == scan_step(ivs, k, st, i));
        assert(st.loc[i] !is Reg);
        assert forall|x: int| #[trigger] act.contains(x) implies 0 <= x < i && st.loc[x] is Reg by {
            let a = choose|a: int| 0 <= a < st.active.len() && st.active[a] == x;
        }
        if act.len() >= k {
            if k == 0 {
                assert forall|x: int| act.contains(x) implies false by {
                    assert(reg_of(st.loc[x]) < 0);
                }
                if act.len() > 0 {
                    assert(act.contains(act[0]));
                }
            } else {
                let m = pick_spill(ivs, act);
                lemma_pick_spill(ivs, act);
                let p = act[m];
                assert(act.contains(p));
                if ivs[p].1.end >= ivs[i].1.end {
                    let rem = act.remove(m);
                    assert forall|x: int| #[trigger] rem.contains(x) <==> act.contains(x) && x != p by {
                        if rem.contains(x) {
                            let a = choose|a: int| 0 <= a < rem.len() && rem[a] == x;
                            if a < m {
                                assert(act[a] == x);
                            } else {
                                assert(act[a + 1] == x);
                            }
                        }
                        if act.contains(x) && x != p {
                            let a = choose|a: int| 0 <= a < act.len() && act[a] == x;
                            if a < m {
                                assert(rem[a] == x);
                            } else {
                                assert(a != m);
                                assert(rem[a - 1] == x);
                            }
                        }
                    }
                    let na = rem.push(i);
                    assert forall|x: int| #[trigger] na.contains(x) <==> rem.contains(x) || x == i by {
                        if na.contains(x) && x != i {
                            let a = choose|a: int| 0 <= a < na.len() && na[a] == x;
                            assert(rem[a] == x);
                        }
                        if rem.contains(x) {
                            let a = choose|a: int| 0 <= a < rem.len() && rem[a] == x;
                            assert(na[a] == x);
                        }
                        if x == i {
                            assert(na[na.len() - 1] == x);
                        }
                    }
                    assert(rem.no_duplicates()) by {
                        assert forall|a: int, b: int| 0 <= a < rem.len() && 0 <= b < rem.len() && a != b implies rem[a] != rem[b] by {
                            let a1 = if a < m { a } else { a + 1 };
                            let b1 = if b < m { b } else { b + 1 };
                            assert(rem[a] == act[a1] && rem[b] == act[b1]);
                        }
                    }
                    assert(na.no_duplicates()) by {
                        assert forall|a: int, b: int| 0 <= a < na.len() && 0 <= b < na.len() && a != b implies na[a] != na[b] by {
                            if a < rem.len() && b < rem.len() {
                            } else if a < rem.len() {
                                assert(rem.contains(na[a]));
                            } else {
                                assert(rem.contains(na[b]));
                            }
                        }
                    }
                    assert forall|a: int| 0 <= a < na.len() implies 0 <= #[trigger] na[a] < n by {
                        if a < rem.len() {
                            assert(rem.contains(na[a]));
                        }
                    }
                } else {
                    assert forall|a: int| 0 <= a < act.len() implies 0 <= #[trigger] act[a] < n by {
                        assert(act.contains(act[a]));
                    }
                }
            }
            if k == 0 {
                assert forall|a: int| 0 <= a < act.len() implies 0 <= #[trigger] act[a] < n by {
                    assert(act.contains(act[a]));
                }
            }
        } else {
            lemma_free_register(st.loc, act, k);
            let r = lowest_free(st.loc, act, 0, k);
            let na = act.push(i);
            assert forall|x: int| #[trigger] na.contains(x) <==> act.contains(x) || x == i by {
                if na.contains(x) && x != i {
                    let a = choose|a: int| 0 <= a < na.len() && na[a] == x;
                    assert(act[a] == x);
                }
                if act.contains(x) {
                    let a = choose|a: int| 0 <= a < act.len() && act[a] == x;
                    assert(na[a] == x);
                }
                if x == i {
                    assert(na[na.len() - 1] == x);
                }
            }
            assert(na.no_duplicates()) by {
                assert forall|a: int, b: int| 0 <= a < na.len() && 0 <= b < na.len() && a != b implies na[a] != na[b] by {
                    if a < act.len() && b < act.len() {
                    } else if a < act.len() {
                        assert(act.contains(na[a]));
                    } else {
                        assert(act.contains(na[b]));
                    }
                }
            }
            assert forall|a: int| 0 <= a < na.len() implies 0 <= #[trigger] na[a] < n by {
                if a < act.len() {
                    assert(act.contains(na[a]));
                }
            }
            assert forall|x: int| act.contains(x) implies #[trigger] st.loc[x] != VarLoc::Reg(r as usize) by {
                if st.loc[x] == VarLoc::Reg(r as usize) {
                    let a = choose|a: int| 0 <= a < act.len() && act[a] == x;
                    assert(held(st.loc, act, r));
                }
            }
        }
        if n >= 2 {
            assert(ivs[n - 2].1.start <= ivs[n - 1].1.start);
        }
    }
}

proof fn lemma_pick_spill(ivs: Seq<(Var, Interval)>, act: Seq<int>)
    requires
        act.len() > 0,
    ensures
        0 <= pick_spill(ivs, act) < act.len(),
    decreases act.len(),
{
    if act.len() > 1 {
        lemma_pick_spill(ivs, act.drop_last());
    }
}

/// A value that holds a register after step `n` held the same one after every
/// earlier step from its own.
proof fn lemma_scan_keeps(ivs: Seq<(Var, Interval)>, k: nat, m: int, n: int, j: int)
    requires
        starts_sorted(ivs),
        k <= usize::MAX,
        0 <= j < m <= n <= ivs.len(),
        scan_upto(ivs, k, n).loc[j] is Reg,
    ensures
        scan_upto(ivs, k, m).loc[j] == scan_upto(ivs, k, n).loc[j],
    decreases n - m,
{
    if m < n {
        lemma_scan_inv(ivs, k, n - 1);
        let st = scan_upto(ivs, k, n - 1);
        let act = expire(ivs, st.active, ivs[n - 1].1.start as int);
        assert(scan_upto(ivs, k, n) == scan_step(ivs, k, st, n - 1));
        if act.len() >= k && k > 0 {
            lemma_pick_spill(ivs, act);
            let p = act[pick_spill(ivs, act)];
            lemma_expire(ivs, st.active, ivs[n - 1].1.start as int);
            assert(act.contains(p));
            let a = choose|a: int| 0 <= a < st.active.len() && st.active[a] == p;
            assert(0 <= p < n - 1);
            if ivs[p].1.end >= ivs[n - 1].1.end && j == p {
                assert(scan_upto(ivs, k, n).loc[j] == VarLoc::Spilled);
            }
        }
        assert(scan_upto(ivs, k, n).loc[j] == st.loc[j]);
        lemma_scan_keeps(ivs, k, m, n - 1, j);
    }
}

/// The register budget: after the scan with `k` registers over intervals sorted by
/// start, every value given a register holds one below `k`, and two values live at
/// the same instruction index never share a register; so no index has more than
/// `k` live values in registers.
pub proof fn lemma_register_budget(ivs: Seq<(Var, Interval)>, k: nat, t: int, a: int, b: int)
    requires
        starts_sorted(ivs),
        k <= usize::MAX,
        0 <= a < ivs.len(),
        0 <= b < ivs.len(),
        a != b,
        live_at(ivs[a].1, t),
        live_at(ivs[b].1, t),
        scan_locs(ivs, k)[a] is Reg,
        scan_locs(ivs, k)[b] is Reg,
    ensures
        reg_of(scan_locs(ivs, k)[a]) < k,
        scan_locs(ivs, k)[a] != scan_locs(ivs, k)[b],
{
    let n = ivs.len() as int;
    lemma_scan_inv(ivs, k, n);
    let hi = if a < b { b } else { a };
    let lo = if a < b { a } else { b };
    lemma_scan_inv(ivs, k, hi + 1);
    lemma_scan_keeps(ivs, k, hi + 1, n, lo);
    lemma_scan_keeps(ivs, k, hi + 1, n, hi);
    let st = scan_upto(ivs, k, hi + 1);
    assert(st.loc[lo] is Reg && st.loc[hi] is Reg);
    assert(st.active.contains(lo));
    assert(st.active.contains(hi));
}

/// The register budget for [`LinearScan::linear_scan`] over any intervals: it scans
/// them sorted by start, so every value given a register holds one below `k`, and
/// two values live at the same index never share one.
pub proof fn lemma_linear_scan_budget(ivs: Seq<(Var, Interval)>, k: nat, t: int, a: int, b: int)
    requires
        k <= usize::MAX,
        0 <= a < ivs.len(),
        0 <= b < ivs.len(),
        a != b,
        live_at(sort_by_start(ivs)[a].1, t),
        live_at(sort_by_start(ivs)[b].1, t),
        scan_locs(sort_by_start(ivs), k)[a] is Reg,
        scan_locs(sort_by_start(ivs), k)[b] is Reg,
    ensures
        reg_of(scan_locs(sort_by_start(ivs), k)[a]) < k,
        scan_locs(sort_by_start(ivs), k)[a] != scan_locs(sort_by_start(ivs), k)[b],
{
    lemma_sort_by_start(ivs);
    lemma_register_budget(sort_by_start(ivs), k, t, a, b);
}

/// The register budget for the allocation of a function: two values live at the
/// same index never share a register, and every register is below `k`.
pub proof fn lemma_allocation_budget(f: FuncView, k: nat, t: int, a: int, b: int)
    requires
        k <= usize::MAX,
        0 <= a < live_intervals(f).len(),
        0 <= b < live_intervals(f).len(),
        a != b,
        live_at(sort_by_start(live_intervals(f))[a].1, t),
        live_at(sort_by_start(live_intervals(f))[b].1, t),
        allocation(f, k)[a].1 is Reg,
        allocation(f, k)[b].1 is Reg,
    ensures
        reg_of(allocation(f, k)[a].1) < k,
        allocation(f, k)[a].1 != allocation(f, k)[b].1,
{
    lemma_sort_by_start(live_intervals(f));
    lemma_linear_scan_budget(live_intervals(f), k, t, a, b);
}

} // verus!
