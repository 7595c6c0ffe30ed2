//! The intermediate representation: values, blocks, instructions and functions,
//! together with the mathematical view that every contract of the crate speaks of.
use vstd::prelude::*;

verus! {

/// An SSA value (printed `$n`).
#[derive(Debug, Clone, Copy, PartialEq, Eq, Structural, PartialOrd, Ord, Hash)]
pub struct Var(pub usize);

/// A basic block label (printed `'n`); label `0` is the entry.
#[derive(Debug, Clone, Copy, PartialEq, Eq, Structural, PartialOrd, Ord, Hash)]
pub struct Block(pub usize);

#[derive(Debug, Clone, Copy, PartialEq, Eq, Structural)]
pub enum Operand {
    Var(Var),
    Const(i64),
}

#[derive(Debug, Clone, Copy, PartialEq, Eq, Structural)]
pub enum OpBin {
    Add,
    Sub,
    Mul,
    Div,
    Mod,
    Eq,
    Ne,
    Gt,
    Ge,
    Lt,
    Le,
}

#[derive(Debug, Clone, Copy, PartialEq, Eq, Structural)]
pub enum OpUn {
    Copy,
}

/// A position in a function: a block and the index of an instruction in it.
#[derive(Debug, Clone, Copy, PartialEq, Eq, Structural, PartialOrd, Ord)]
pub struct Loc {
    pub block: Block,
    pub inst_idx: usize,
}

/// One instruction. `Phi` holds one incoming operand per predecessor block,
/// ordered by block label.
#[derive(Debug, Clone, PartialEq, Eq)]
pub enum Inst {
    Alloca { dist: Var },
    Store { op1: Operand, op2: Operand },
    Load { dist: Var, op1: Operand },
    Bin { op: OpBin, dist: Var, op1: Operand, op2: Operand },
    Un { op: OpUn, dist: Var, op1: Operand },
    Phi { dist: Var, incomes: Vec<(Block, Operand)> },
    Jmp { label: Block },
    Cond { op1: Operand, then_: Block, else_: Block },
    Ret { op1: Operand },
}

/// The mathematical value of an [`Inst`].
pub enum InstView {
    Alloca { dist: Var },
    Store { op1: Operand, op2: Operand },
    Load { dist: Var, op1: Operand },
    Bin { op: OpBin, dist: Var, op1: Operand, op2: Operand },
    Un { op: OpUn, dist: Var, op1: Operand },
    Phi { dist: Var, incomes: Seq<(Block, Operand)> },
    Jmp { label: Block },
    Cond { op1: Operand, then_: Block, else_: Block },
    Ret { op1: Operand },
}

impl View for Inst {
    type V = InstView;

    open spec fn view(&self) -> InstView {
        match self {
            Inst::Alloca { dist } => InstView::Alloca { dist: *dist },
            Inst::Store { op1, op2 } => InstView::Store { op1: *op1, op2: *op2 },
            Inst::Load { dist, op1 } => InstView::Load { dist: *dist, op1: *op1 },
            Inst::Bin { op, dist, op1, op2 } => InstView::Bin {
                op: *op,
                dist: *dist,
                op1: *op1,
                op2: *op2,
            },
            Inst::Un { op, dist, op1 } => InstView::Un { op: *op, dist: *dist, op1: *op1 },
            Inst::Phi { dist, incomes } => InstView::Phi { dist: *dist, incomes: incomes@ },
            Inst::Jmp { label } => InstView::Jmp { label: *label },
            Inst::Cond { op1, then_, else_ } => InstView::Cond {
                op1: *op1,
                then_: *then_,
                else_: *else_,
            },
            Inst::Ret { op1 } => InstView::Ret { op1: *op1 },
        }
    }
}

/// The values among `ops`, in order.
pub open spec fn vars_of(ops: Seq<Operand>) -> Seq<Var>
    decreases ops.len(),
{
    if ops.len() == 0 {
        Seq::empty()
    } else {
        let rest = vars_of(ops.drop_last());
        match ops.last() {
            Operand::Var(v) => rest.push(v),
            Operand::Const(_) => rest,
        }
    }
}

/// `op` with the value `from` replaced by `to`.
pub open spec fn rename_op(op: Operand, from: Var, to: Operand) -> Operand {
    if op == Operand::Var(from) {
        to
    } else {
        op
    }
}

/// A definition site `d` after renaming `from` to `to`: it changes only when `to` is a value.
pub open spec fn rename_dist(d: Var, from: Var, to: Operand) -> Var {
    match to {
        Operand::Var(t) => if d == from {
            t
        } else {
            d
        },
        Operand::Const(_) => d,
    }
}

pub open spec fn rename_incomes(
    incomes: Seq<(Block, Operand)>,
    from: Var,
    to: Operand,
) -> Seq<(Block, Operand)> {
    incomes.map_values(|p: (Block, Operand)| (p.0, rename_op(p.1, from, to)))
}

impl InstView {
    /// The value this instruction defines, if any.
    pub open spec fn dist(self) -> Option<Var> {
        match self {
            InstView::Alloca { dist } => Some(dist),
            InstView::Load { dist, .. } => Some(dist),
            InstView::Bin { dist, .. } => Some(dist),
            InstView::Un { dist, .. } => Some(dist),
            InstView::Phi { dist, .. } => Some(dist),
            _ => None,
        }
    }

    pub open spec fn is_terminator(self) -> bool {
        ||| self is Jmp
        ||| self is Cond
        ||| self is Ret
    }

    /// The operands read by this instruction, in order (a `Phi` reads its incomes
    /// in block order).
    pub open spec fn operands(self) -> Seq<Operand> {
        match self {
            InstView::Store { op1, op2 } => seq![op1, op2],
            InstView::Load { op1, .. } => seq![op1],
            InstView::Bin { op1, op2, .. } => seq![op1, op2],
            InstView::Un { op1, .. } => seq![op1],
            InstView::Phi { incomes, .. } => incomes.map_values(|p: (Block, Operand)| p.1),
            InstView::Cond { op1, .. } => seq![op1],
            InstView::Ret { op1 } => seq![op1],
            _ => Seq::empty(),
        }
    }

    /// The values read by this instruction.
    pub open spec fn uses(self) -> Seq<Var> {
        vars_of(self.operands())
    }

    /// The successor labels named by a terminator, `then_` before `else_`, each once.
    pub open spec fn succ(self) -> Seq<Block> {
        match self {
            InstView::Jmp { label } => seq![label],
            InstView::Cond { then_, else_, .. } => if then_ == else_ {
                seq![then_]
            } else {
                seq![then_, else_]
            },
            _ => Seq::empty(),
        }
    }

    /// Every operand occurrence of `from` becomes `to`; the definition site `from`
    /// becomes `to` too when `to` is a value.
    pub open spec fn rename(self, from: Var, to: Operand) -> InstView {
        match self {
            InstView::Alloca { dist } => InstView::Alloca { dist: rename_dist(dist, from, to) },
            InstView::Store { op1, op2 } => InstView::Store {
                op1: rename_op(op1, from, to),
                op2: rename_op(op2, from, to),
            },
            InstView::Load { dist, op1 } => InstView::Load {
                dist: rename_dist(dist, from, to),
                op1: rename_op(op1, from, to),
            },
            InstView::Bin { op, dist, op1, op2 } => InstView::Bin {
                op,
                dist: rename_dist(dist, from, to),
                op1: rename_op(op1, from, to),
                op2: rename_op(op2, from, to),
            },
            InstView::Un { op, dist, op1 } => InstView::Un {
                op,
                dist: rename_dist(dist, from, to),
                op1: rename_op(op1, from, to),
            },
            InstView::Phi { dist, incomes } => InstView::Phi {
                dist: rename_dist(dist, from, to),
                incomes: rename_incomes(incomes, from, to),
            },
            InstView::Jmp { label } => InstView::Jmp { label },
            InstView::Cond { op1, then_, else_ } => InstView::Cond {
                op1: rename_op(op1, from, to),
                then_,
                else_,
            },
            InstView::Ret { op1 } => InstView::Ret { op1: rename_op(op1, from, to) },
        }
    }
}

fn rename_operand(op: Operand, from: Var, to: Operand) -> (r: Operand)
    ensures
        r == rename_op(op, from, to),
{
    if op == Operand::Var(from) {
        to
    } else {
        op
    }
}

fn rename_definition(d: Var, from: Var, to: Operand) -> (r: Var)
    ensures
        r == rename_dist(d, from, to),
{
    match to {
        Operand::Var(t) => if d == from {
            t
        } else {
            d
        },
        Operand::Const(_) => d,
    }
}

/// A copy of a list of phi incomes.
pub fn copy_incomes(incomes: &Vec<(Block, Operand)>) -> (r: Vec<(Block, Operand)>)
    ensures
        r@ == incomes@,
{
    let mut r: Vec<(Block, Operand)> = Vec::new();
    let mut i: usize = 0;
    while i < incomes.len()
        invariant
            i <= incomes.len(),
            r@ == incomes@.take(i as int),
        decreases incomes.len() - i,
    {
        r.push(incomes[i]);
        i += 1;
        proof {
            assert(incomes@.take(i as int) == incomes@.take(i - 1).push(incomes@[i - 1]));
        }
    }
    proof {
        assert(incomes@.take(incomes.len() as int) == incomes@);
    }
    r
}

impl Inst {
    /// A copy of this instruction.
    pub fn duplicate(&self) -> (r: Inst)
        ensures
            r@ == self@,
    {
        match self {
            Inst::Phi { dist, incomes } => Inst::Phi { dist: *dist, incomes: copy_incomes(incomes) },
            Inst::Alloca { dist } => Inst::Alloca { dist: *dist },
            Inst::Store { op1, op2 } => Inst::Store { op1: *op1, op2: *op2 },
            Inst::Load { dist, op1 } => Inst::Load { dist: *dist, op1: *op1 },
            Inst::Bin { op, dist, op1, op2 } => Inst::Bin {
                op: *op,
                dist: *dist,
                op1: *op1,
                op2: *op2,
            },
            Inst::Un { op, dist, op1 } => Inst::Un { op: *op, dist: *dist, op1: *op1 },
            Inst::Jmp { label } => Inst::Jmp { label: *label },
            Inst::Cond { op1, then_, else_ } => Inst::Cond {
                op1: *op1,
                then_: *then_,
                else_: *else_,
            },
            Inst::Ret { op1 } => Inst::Ret { op1: *op1 },
        }
    }

    /// This instruction with `from` renamed to `to`.
    pub fn renamed(&self, from: Var, to: Operand) -> (r: Inst)
        ensures
            r@ == self@.rename(from, to),
    {
        match self {
            Inst::Alloca { dist } => Inst::Alloca { dist: rename_definition(*dist, from, to) },
            Inst::Store { op1, op2 } => Inst::Store {
                op1: rename_operand(*op1, from, to),
                op2: rename_operand(*op2, from, to),
            },
            Inst::Load { dist, op1 } => Inst::Load {
                dist: rename_definition(*dist, from, to),
                op1: rename_operand(*op1, from, to),
            },
            Inst::Bin { op, dist, op1, op2 } => Inst::Bin {
                op: *op,
                dist: rename_definition(*dist, from, to),
                op1: rename_operand(*op1, from, to),
                op2: rename_operand(*op2, from, to),
            },
            Inst::Un { op, dist, op1 } => Inst::Un {
                op: *op,
                dist: rename_definition(*dist, from, to),
                op1: rename_operand(*op1, from, to),
            },
            Inst::Phi { dist, incomes } => {
                let mut r: Vec<(Block, Operand)> = Vec::new();
                let mut i: usize = 0;
                while i < incomes.len()
                    invariant
                        i <= incomes.len(),
                        r@ == rename_incomes(incomes@.take(i as int), from, to),
                    decreases incomes.len() - i,
                {
                    let (b, op) = incomes[i];
                    r.push((b, rename_operand(op, from, to)));
                    i += 1;
                    proof {
                        assert(incomes@.take(i as int) == incomes@.take(i - 1).push(
                            incomes@[i - 1],
                        ));
                    }
                }
                proof {
                    assert(incomes@.take(incomes.len() as int) == incomes@);
                }
                Inst::Phi { dist: rename_definition(*dist, from, to), incomes: r }
            },
            Inst::Jmp { label } => Inst::Jmp { label: *label },
            Inst::Cond { op1, then_, else_ } => Inst::Cond {
                op1: rename_operand(*op1, from, to),
                then_: *then_,
                else_: *else_,
            },
            Inst::Ret { op1 } => Inst::Ret { op1: rename_operand(*op1, from, to) },
        }
    }

    /// Replaces every operand occurrence of `from` by `to`, and the definition
    /// site `from` by `to` when `to` is a value.
    pub fn rename_var(&mut self, from: Var, to: Operand)
        ensures
            final(self)@ == old(self)@.rename(from, to),
    {
        *self = self.renamed(from, to);
    }

    /// The value this instruction defines, if any.
    pub fn dist(&self) -> (r: Option<Var>)
        ensures
            r == self@.dist(),
    {
        match self {
            Inst::Alloca { dist } => Some(*dist),
            Inst::Load { dist, .. } => Some(*dist),
            Inst::Bin { dist, .. } => Some(*dist),
            Inst::Un { dist, .. } => Some(*dist),
            Inst::Phi { dist, .. } => Some(*dist),
            _ => None,
        }
    }

    /// The values read by this instruction, in operand order.
    pub fn ops(&self) -> (r: Vec<Var>)
        ensures
            r@ == self@.uses(),
    {
        let mut ops: Vec<Operand> = Vec::new();
        match self {
            Inst::Store { op1, op2 } => {
                ops.push(*op1);
                ops.push(*op2);
            },
            Inst::Load { op1, .. } => ops.push(*op1),
            Inst::Bin { op1, op2, .. } => {
                ops.push(*op1);
                ops.push(*op2);
            },
            Inst::Un { op1, .. } => ops.push(*op1),
            Inst::Phi { incomes, .. } => {
                let mut i: usize = 0;
                while i < incomes.len()
                    invariant
                        i <= incomes.len(),
                        ops@ == incomes@.take(i as int).map_values(|p: (Block, Operand)| p.1),
                    decreases incomes.len() - i,
                {
                    ops.push(incomes[i].1);
                    i += 1;
                    proof {
                        assert(incomes@.take(i as int) == incomes@.take(i - 1).push(
                            incomes@[i - 1],
                        ));
                    }
                }
                proof {
                    assert(incomes@.take(incomes.len() as int) == incomes@);
                }
            },
            Inst::Cond { op1, .. } => ops.push(*op1),
            Inst::Ret { op1 } => ops.push(*op1),
            _ => {},
        }
        assert(ops@ == self@.operands());
        vars_in(&ops)
    }

    pub fn terminator(&self) -> (r: bool)
        ensures
            r == self@.is_terminator(),
    {
        match self {
            Inst::Jmp { .. } | Inst::Cond { .. } | Inst::Ret { .. } => true,
            _ => false,
        }
    }
}

/// The values among `ops`, in order.
pub fn vars_in(ops: &Vec<Operand>) -> (r: Vec<Var>)
    ensures
        r@ == vars_of(ops@),
{
    let mut r: Vec<Var> = Vec::new();
    let mut i: usize = 0;
    while i < ops.len()
        invariant
            i <= ops.len(),
            r@ == vars_of(ops@.take(i as int)),
        decreases ops.len() - i,
    {
        proof {
            let t = ops@.take(i + 1);
            assert(t.drop_last() == ops@.take(i as int));
            assert(t.last() == ops@[i as int]);
        }
        match ops[i] {
            Operand::Var(v) => r.push(v),
            Operand::Const(_) => {},
        }
        i += 1;
    }
    proof {
        assert(ops@.take(ops.len() as int) == ops@);
    }
    r
}

} // verus!
