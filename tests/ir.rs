use minicc::builder::Builder;
use minicc::func::{BlockData, Func, Mod};
use minicc::inst::{Block, Inst, Loc, OpBin, OpUn, Operand, Var};
use minicc::sccp::{eval_bin, Fold};
use minicc::to2op::to2addr;

fn v(n: usize) -> Operand {
    Operand::Var(Var(n))
}

fn c(n: i64) -> Operand {
    Operand::Const(n)
}

#[test]
fn fold_wraps_on_overflow() {
    assert_eq!(eval_bin(OpBin::Add, c(i64::MAX), c(1)), Fold::Value(i64::MIN));
    assert_eq!(eval_bin(OpBin::Sub, c(i64::MIN), c(1)), Fold::Value(i64::MAX));
    assert_eq!(eval_bin(OpBin::Mul, c(i64::MAX), c(2)), Fold::Value(-2));
    assert_eq!(eval_bin(OpBin::Div, c(i64::MIN), c(-1)), Fold::Value(i64::MIN));
    assert_eq!(eval_bin(OpBin::Mod, c(i64::MIN), c(-1)), Fold::Value(0));
}

#[test]
fn fold_truncates_toward_zero() {
    assert_eq!(eval_bin(OpBin::Div, c(-7), c(2)), Fold::Value(-3));
    assert_eq!(eval_bin(OpBin::Div, c(7), c(-2)), Fold::Value(-3));
    assert_eq!(eval_bin(OpBin::Mod, c(-7), c(2)), Fold::Value(-1));
    assert_eq!(eval_bin(OpBin::Mod, c(7), c(-2)), Fold::Value(1));
    assert_eq!(eval_bin(OpBin::Add, c(2), c(3)), Fold::Value(5));
    assert_eq!(eval_bin(OpBin::Sub, c(2), c(3)), Fold::Value(-1));
    assert_eq!(eval_bin(OpBin::Mul, c(-4), c(3)), Fold::Value(-12));
}

#[test]
fn fold_leaves_comparisons_and_values() {
    assert_eq!(eval_bin(OpBin::Lt, c(1), c(2)), Fold::Opaque);
    assert_eq!(eval_bin(OpBin::Eq, c(1), c(1)), Fold::Opaque);
    assert_eq!(eval_bin(OpBin::Add, v(0), c(2)), Fold::Opaque);
    assert_eq!(eval_bin(OpBin::Div, c(1), c(0)), Fold::DivByZero);
    assert_eq!(eval_bin(OpBin::Mod, c(1), c(0)), Fold::DivByZero);
    assert_eq!(eval_bin(OpBin::Div, v(3), c(0)), Fold::DivByZero);
    assert_eq!(eval_bin(OpBin::Mod, v(3), c(0)), Fold::DivByZero);
    assert_eq!(eval_bin(OpBin::Add, v(3), c(0)), Fold::Opaque);
}

#[test]
fn inst_dist_ops_terminator() {
    let phi = Inst::Phi { dist: Var(4), incomes: vec![(Block(0), v(1)), (Block(2), c(3)), (Block(3), v(2))] };
    assert_eq!(phi.dist(), Some(Var(4)));
    assert_eq!(phi.ops(), vec![Var(1), Var(2)]);
    let st = Inst::Store { op1: v(0), op2: v(5) };
    assert_eq!(st.dist(), None);
    assert_eq!(st.ops(), vec![Var(0), Var(5)]);
    let un = Inst::Un { op: OpUn::Copy, dist: Var(7), op1: v(6) };
    assert_eq!(un.dist(), Some(Var(7)));
    assert_eq!(un.ops(), vec![Var(6)]);
    assert!(Inst::Ret { op1: c(0) }.terminator());
    assert!(Inst::Jmp { label: Block(1) }.terminator());
    assert!(!st.terminator());
}

#[test]
fn inst_rename_var() {
    let mut i = Inst::Bin { op: OpBin::Add, dist: Var(1), op1: v(1), op2: v(2) };
    i.rename_var(Var(1), v(8));
    assert_eq!(i, Inst::Bin { op: OpBin::Add, dist: Var(8), op1: v(8), op2: v(2) });
    let mut j = Inst::Bin { op: OpBin::Add, dist: Var(1), op1: v(1), op2: v(2) };
    j.rename_var(Var(1), c(4));
    assert_eq!(j, Inst::Bin { op: OpBin::Add, dist: Var(1), op1: c(4), op2: v(2) });
    let mut p = Inst::Phi { dist: Var(3), incomes: vec![(Block(0), v(1))] };
    p.rename_var(Var(1), c(9));
    assert_eq!(p, Inst::Phi { dist: Var(3), incomes: vec![(Block(0), c(9))] });
}

#[test]
fn block_succ_and_terminator() {
    let b = BlockData {
        insts: vec![
            Inst::Alloca { dist: Var(0) },
            Inst::Cond { op1: v(0), then_: Block(2), else_: Block(1) },
        ],
    };
    assert_eq!(b.succ(), vec![Block(2), Block(1)]);
    assert_eq!(b.terminator(), &Inst::Cond { op1: v(0), then_: Block(2), else_: Block(1) });
    let same = BlockData { insts: vec![Inst::Cond { op1: c(1), then_: Block(1), else_: Block(1) }] };
    assert_eq!(same.succ(), vec![Block(1)]);
    let r = BlockData { insts: vec![Inst::Ret { op1: c(1) }] };
    assert_eq!(r.succ(), vec![]);
}

#[test]
fn func_blocks_and_vars() {
    let mut f = Func::new();
    assert_eq!(f.new_var(), Var(0));
    assert_eq!(f.new_block(), Block(0));
    assert_eq!(f.new_block(), Block(1));
    f.blocks[1].1.insts.push(Inst::Alloca { dist: Var(5) });
    f.blocks[0].1.insts.push(Inst::Load { dist: Var(2), op1: v(5) });
    f.blocks[0].1.insts.push(Inst::Un { op: OpUn::Copy, dist: Var(7), op1: v(2) });
    f.blocks[0].1.insts.push(Inst::Alloca { dist: Var(2) });
    assert_eq!(f.all_vars(), vec![Var(2), Var(5), Var(7)]);
    assert_eq!(f.new_var(), Var(8));
    f.rename_var(Var(2), v(3));
    assert_eq!(f.blocks[0].1.insts[0], Inst::Load { dist: Var(3), op1: v(5) });
    assert_eq!(f.blocks[0].1.insts[1], Inst::Un { op: OpUn::Copy, dist: Var(7), op1: v(3) });
    let g = Func { blocks: vec![(Block(4), BlockData::new())] };
    let mut g2 = g.clone();
    assert_eq!(g2.new_block(), Block(5));
}

#[test]
fn builder_builds_a_function() {
    let mut b = Builder::new();
    b.move_to_new_func("main".to_string());
    let b0 = b.move_to_new_block();
    let x = b.new_var();
    b.push_inst(Inst::Alloca { dist: x });
    let y = b.new_var();
    b.push_inst(Inst::Bin { op: OpBin::Add, dist: y, op1: c(1), op2: c(2) });
    let b1 = b.new_block();
    b.push_inst(Inst::Jmp { label: b1 });
    b.move_to_block(b1);
    b.push_inst(Inst::Ret { op1: Operand::Var(y) });
    assert_eq!((b0, x, y, b1), (Block(0), Var(0), Var(1), Block(1)));
    let f = &b.mod_.funcs[0];
    assert_eq!(f.0, "main");
    assert_eq!(f.1.blocks[0].1.insts.len(), 3);
    assert_eq!(f.1.blocks[1].1.insts, vec![Inst::Ret { op1: v(1) }]);
    b.new_func("other".to_string());
    assert_eq!(b.mod_.funcs.len(), 2);
    b.move_to_func("other".to_string());
    assert_eq!(b.new_block(), Block(0));
    assert_eq!(b.mod_.find_func(&"other".to_string()), Some(1));
    assert_eq!(Mod::new().funcs.len(), 0);
}

#[test]
fn two_address_form() {
    let mut f = Func {
        blocks: vec![(
            Block(0),
            BlockData {
                insts: vec![
                    Inst::Bin { op: OpBin::Sub, dist: Var(1), op1: v(0), op2: c(2) },
                    Inst::Ret { op1: v(1) },
                ],
            },
        )],
    };
    to2addr(&mut f);
    assert_eq!(
        f.blocks[0].1.insts,
        vec![
            Inst::Un { op: OpUn::Copy, dist: Var(1), op1: v(0) },
            Inst::Bin { op: OpBin::Sub, dist: Var(1), op1: v(1), op2: c(2) },
            Inst::Ret { op1: v(1) },
        ]
    );
}

#[test]
fn loc_orders_by_block_then_index() {
    let a = Loc { block: Block(0), inst_idx: 5 };
    let b = Loc { block: Block(1), inst_idx: 0 };
    assert!(a < b);
}
