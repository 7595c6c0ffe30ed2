//! The textual form of the intermediate representation, for dumps and golden
//! files: `$3 = add $1, 5`, `store $0, 10`, `jmp '2`, `cond $4, '3, '4`,
//! `$5 = phi { '1: $2, '2: 0 }`, with block headers such as `'0:`.
use vstd::prelude::*;

use crate::func::{BlockData, Func, Mod};
use crate::inst::{Block, Inst, InstView, OpBin, Operand, Var};

verus! {

pub open spec fn digit_text(d: nat) -> Seq<char> {
    if d == 0 {
        "0"@
    } else if d == 1 {
        "1"@
    } else if d == 2 {
        "2"@
    } else if d == 3 {
        "3"@
    } else if d == 4 {
        "4"@
    } else if d == 5 {
        "5"@
    } else if d == 6 {
        "6"@
    } else if d == 7 {
        "7"@
    } else if d == 8 {
        "8"@
    } else {
        "9"@
    }
}

/// The decimal digits of `n`.
pub open spec fn decimal(n: nat) -> Seq<char>
    decreases n,
{
    if n < 10 {
        digit_text(n)
    } else {
        decimal(n / 10) + digit_text(n % 10)
    }
}

pub open spec fn int_text(c: i64) -> Seq<char> {
    if c < 0 {
        "-"@ + decimal((-c) as nat)
    } else {
        decimal(c as nat)
    }
}

pub open spec fn var_text(v: Var) -> Seq<char> {
    "$"@ + decimal(v.0 as nat)
}

pub open spec fn block_text(b: Block) -> Seq<char> {
    "'"@ + decimal(b.0 as nat)
}

pub open spec fn operand_text(op: Operand) -> Seq<char> {
    match op {
        Operand::Var(v) => var_text(v),
        Operand::Const(c) => int_text(c),
    }
}

pub open spec fn op_bin_text(op: OpBin) -> Seq<char> {
    match op {
        OpBin::Add => "add"@,
        OpBin::Sub => "sub"@,
        OpBin::Mul => "mul"@,
        OpBin::Div => "div"@,
        OpBin::Mod => "mod"@,
        OpBin::Eq => "eq"@,
        OpBin::Ne => "ne"@,
        OpBin::Gt => "gt"@,
        OpBin::Ge => "ge"@,
        OpBin::Lt => "lt"@,
        OpBin::Le => "le"@,
    }
}

/// The incomes of a `Phi`, each as `'b: op`, separated by commas.
pub open spec fn incomes_text(incomes: Seq<(Block, Operand)>) -> Seq<char>
    decreases incomes.len(),
{
    if incomes.len() == 0 {
        Seq::empty()
    } else {
        let last = block_text(incomes.last().0) + ": "@ + operand_text(incomes.last().1);
        if incomes.len() == 1 {
            last
        } else {
            incomes_text(incomes.drop_last()) + ", "@ + last
        }
    }
}

pub open spec fn inst_text(i: InstView) -> Seq<char> {
    match i {
        InstView::Alloca { dist } => var_text(dist) + " = alloca"@,
        InstView::Store { op1, op2 } => "store "@ + operand_text(op1) + ", "@ + operand_text(op2),
        InstView::Load { dist, op1 } => var_text(dist) + " = load "@ + operand_text(op1),
        InstView::Bin { op, dist, op1, op2 } => var_text(dist) + " = "@ + op_bin_text(op) + " "@
            + operand_text(op1) + ", "@ + operand_text(op2),
        InstView::Un { dist, op1, .. } => var_text(dist) + " = copy "@ + operand_text(op1),
        InstView::Phi { dist, incomes } => var_text(dist) + " = phi { "@ + incomes_text(incomes)
            + " }"@,
        InstView::Jmp { label } => "jmp "@ + block_text(label),
        InstView::Cond { op1, then_, else_ } => "cond "@ + operand_text(op1) + ", "@ + block_text(
            then_,
        ) + ", "@ + block_text(else_),
        InstView::Ret { op1 } => "ret "@ + operand_text(op1),
    }
}

/// The instructions of a block, one per line, each indented by a tab.
pub open spec fn insts_text(s: Seq<InstView>) -> Seq<char>
    decreases s.len(),
{
    if s.len() == 0 {
        Seq::empty()
    } else {
        insts_text(s.drop_last()) + "\t"@ + inst_text(s.last()) + "\n"@
    }
}

/// The blocks of a function, each as its header line `'n:`, its instructions and
/// an empty line.
pub open spec fn func_text(f: Seq<(Block, Seq<InstView>)>) -> Seq<char>
    decreases f.len(),
{
    if f.len() == 0 {
        Seq::empty()
    } else {
        func_text(f.drop_last()) + block_text(f.last().0) + ":\n"@ + insts_text(f.last().1) + "\n"@
    }
}

/// Each function of a module as `func name() {`, its blocks, and `}`.
pub open spec fn mod_text(m: Seq<(String, Func)>) -> Seq<char>
    decreases m.len(),
{
    if m.len() == 0 {
        Seq::empty()
    } else {
        mod_text(m.drop_last()) + "func "@ + m.last().0@ + "() {\n"@ + func_text(m.last().1@)
            + "\n}\n"@
    }
}

fn push_digit(s: &mut String, d: u64)
    requires
        d < 10,
    ensures
        final(s)@ == old(s)@ + digit_text(d as nat),
{
    if d == 0 {
        s.append("0");
    } else if d == 1 {
        s.append("1");
    } else if d == 2 {
        s.append("2");
    } else if d == 3 {
        s.append("3");
    } else if d == 4 {
        s.append("4");
    } else if d == 5 {
        s.append("5");
    } else if d == 6 {
        s.append("6");
    } else if d == 7 {
        s.append("7");
    } else if d == 8 {
        s.append("8");
    } else {
        s.append("9");
    }
}

fn push_decimal(s: &mut String, n: u64)
    ensures
        final(s)@ == old(s)@ + decimal(n as nat),
    decreases n,
{
    if n >= 10 {
        push_decimal(s, n / 10);
        push_digit(s, n % 10);
        assert(decimal(n as nat) == decimal((n / 10) as nat) + digit_text((n % 10) as nat));
    } else {
        push_digit(s, n);
    }
}

fn push_operand(s: &mut String, op: Operand)
    ensures
        final(s)@ == old(s)@ + operand_text(op),
{
    match op {
        Operand::Var(v) => {
            s.append("$");
            push_decimal(s, v.0 as u64);
        },
        Operand::Const(c) => {
            if c < 0 {
                s.append("-");
                let m: u64 = if c == i64::MIN {
                    0x8000_0000_0000_0000
                } else {
                    (-c) as u64
                };
                push_decimal(s, m);
            } else {
                push_decimal(s, c as u64);
            }
        },
    }
}

fn push_block(s: &mut String, b: Block)
    ensures
        final(s)@ == old(s)@ + block_text(b),
{
    s.append("'");
    push_decimal(s, b.0 as u64);
}

fn push_var(s: &mut String, v: Var)
    ensures
        final(s)@ == old(s)@ + var_text(v),
{
    s.append("$");
    push_decimal(s, v.0 as u64);
}

fn push_op_bin(s: &mut String, op: OpBin)
    ensures
        final(s)@ == old(s)@ + op_bin_text(op),
{
    match op {
        OpBin::Add => s.append("add"),
        OpBin::Sub => s.append("sub"),
        OpBin::Mul => s.append("mul"),
        OpBin::Div => s.append("div"),
        OpBin::Mod => s.append("mod"),
        OpBin::Eq => s.append("eq"),
        OpBin::Ne => s.append("ne"),
        OpBin::Gt => s.append("gt"),
        OpBin::Ge => s.append("ge"),
        OpBin::Lt => s.append("lt"),
        OpBin::Le => s.append("le"),
    }
}

impl Inst {
    /// This instruction in the textual form (see [`inst_text`]).
    pub fn to_text(&self) -> (r: String)
        ensures
            r@ == inst_text(self@),
    {
        let mut s = String::new();
        match self {
            Inst::Alloca { dist } => {
                push_var(&mut s, *dist);
                s.append(" = alloca");
            },
            Inst::Store { op1, op2 } => {
                s.append("store ");
                push_operand(&mut s, *op1);
                s.append(", ");
                push_operand(&mut s, *op2);
            },
            Inst::Load { dist, op1 } => {
                push_var(&mut s, *dist);
                s.append(" = load ");
                push_operand(&mut s, *op1);
            },
            Inst::Bin { op, dist, op1, op2 } => {
                push_var(&mut s, *dist);
                s.append(" = ");
                push_op_bin(&mut s, *op);
                s.append(" ");
                push_operand(&mut s, *op1);
                s.append(", ");
                push_operand(&mut s, *op2);
            },
            Inst::Un { dist, op1, .. } => {
                push_var(&mut s, *dist);
                s.append(" = copy ");
                push_operand(&mut s, *op1);
            },
            Inst::Phi { dist, incomes } => {
                push_var(&mut s, *dist);
                s.append(" = phi { ");
                let ghost base = s@;
                let mut k: usize = 0;
                while k < incomes.len()
                    invariant
                        k <= incomes.len(),
                        s@ == base + incomes_text(incomes@.take(k as int)),
                    decreases incomes.len() - k,
                {
                    proof {
                        assert(incomes@.take(k + 1).drop_last() == incomes@.take(k as int));
                        assert(incomes@.take(k + 1).last() == incomes@[k as int]);
                    }
                    if k > 0 {
                        s.append(", ");
                    }
                    push_block(&mut s, incomes[k].0);
                    s.append(": ");
                    push_operand(&mut s, incomes[k].1);
                    k += 1;
                }
                proof {
                    assert(incomes@.take(incomes.len() as int) == incomes@);
                }
                s.append(" }");
            },
            Inst::Jmp { label } => {
                s.append("jmp ");
                push_block(&mut s, *label);
            },
            Inst::Cond { op1, then_, else_ } => {
                s.append("cond ");
                push_operand(&mut s, *op1);
                s.append(", ");
                push_block(&mut s, *then_);
                s.append(", ");
                push_block(&mut s, *else_);
            },
            Inst::Ret { op1 } => {
                s.append("ret ");
                push_operand(&mut s, *op1);
            },
        }
        s
    }
}

impl Operand {
    /// This operand in the textual form: `$n` or a decimal integer.
    pub fn to_text(&self) -> (r: String)
        ensures
            r@ == operand_text(*self),
    {
        let mut s = String::new();
        push_operand(&mut s, *self);
        s
    }
}

impl BlockData {
    /// The instructions, one per line, each indented by a tab.
    pub fn to_text(&self) -> (r: String)
        ensures
            r@ == insts_text(self@),
    {
        let mut s = String::new();
        let mut k: usize = 0;
        while k < self.insts.len()
            invariant
                k <= self.insts.len(),
                s@ == insts_text(self@.take(k as int)),
            decreases self.insts.len() - k,
        {
            proof {
                assert(self@.take(k + 1).drop_last() == self@.take(k as int));
                assert(self@.take(k + 1).last() == self.insts@[k as int]@);
            }
            s.append("\t");
            let t = self.insts[k].to_text();
            s.append(t.as_str());
            s.append("\n");
            k += 1;
        }
        proof {
            assert(self@.take(self.insts.len() as int) == self@);
        }
        s
    }
}

impl Func {
    /// Each block as its header line `'n:`, its instructions and an empty line.
    pub fn to_text(&self) -> (r: String)
        ensures
            r@ == func_text(self@),
    {
        let mut s = String::new();
        let mut k: usize = 0;
        while k < self.blocks.len()
            invariant
                k <= self.blocks.len(),
                s@ == func_text(self@.take(k as int)),
            decreases self.blocks.len() - k,
        {
            proof {
                assert(self@.take(k + 1).drop_last() == self@.take(k as int));
                assert(self@.take(k + 1).last() == self@[k as int]);
            }
            push_block(&mut s, self.blocks[k].0);
            s.append(":\n");
            let t = self.blocks[k].1.to_text();
            s.append(t.as_str());
            s.append("\n");
            k += 1;
        }
        proof {
            assert(self@.take(self.blocks.len() as int) == self@);
        }
        s
    }
}

impl Mod {
    /// Each function as `func name() {`, its blocks, and `}`.
    pub fn to_text(&self) -> (r: String)
        ensures
            r@ == mod_text(self.funcs@),
    {
        let mut s = String::new();
        let mut k: usize = 0;
        while k < self.funcs.len()
            invariant
                k <= self.funcs.len(),
                s@ == mod_text(self.funcs@.take(k as int)),
            decreases self.funcs.len() - k,
        {
            proof {
                assert(self.funcs@.take(k + 1).drop_last() == self.funcs@.take(k as int));
                assert(self.funcs@.take(k + 1).last() == self.funcs@[k as int]);
            }
            s.append("func ");
            s.append(self.funcs[k].0.as_str());
            s.append("() {\n");
            let t = self.funcs[k].1.to_text();
            s.append(t.as_str());
            s.append("\n}\n");
            k += 1;
        }
        proof {
            assert(self.funcs@.take(self.funcs.len() as int) == self.funcs@);
        }
        s
    }
}

} // verus!
