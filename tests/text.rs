use minicc::func::{BlockData, Func, Mod};
use minicc::inst::{Block, Inst, OpBin, OpUn, Operand, Var};

fn v(n: usize) -> Operand {
    Operand::Var(Var(n))
}

fn c(n: i64) -> Operand {
    Operand::Const(n)
}

#[test]
fn instruction_text() {
    assert_eq!(Inst::Bin { op: OpBin::Add, dist: Var(3), op1: v(1), op2: c(5) }.to_text(), "$3 = add $1, 5");
    assert_eq!(Inst::Store { op1: v(0), op2: c(10) }.to_text(), "store $0, 10");
    assert_eq!(Inst::Jmp { label: Block(2) }.to_text(), "jmp '2");
    assert_eq!(Inst::Cond { op1: v(4), then_: Block(3), else_: Block(4) }.to_text(), "cond $4, '3, '4");
    assert_eq!(
        Inst::Phi { dist: Var(5), incomes: vec![(Block(1), v(2)), (Block(2), c(0))] }.to_text(),
        "$5 = phi { '1: $2, '2: 0 }"
    );
    assert_eq!(Inst::Alloca { dist: Var(0) }.to_text(), "$0 = alloca");
    assert_eq!(Inst::Load { dist: Var(1), op1: v(0) }.to_text(), "$1 = load $0");
    assert_eq!(Inst::Un { op: OpUn::Copy, dist: Var(7), op1: c(-3) }.to_text(), "$7 = copy -3");
    assert_eq!(Inst::Ret { op1: c(i64::MIN) }.to_text(), "ret -9223372036854775808");
    assert_eq!(Inst::Bin { op: OpBin::Le, dist: Var(12), op1: c(120), op2: v(30) }.to_text(), "$12 = le 120, $30");
    assert_eq!(Inst::Phi { dist: Var(1), incomes: vec![] }.to_text(), "$1 = phi {  }");
}

#[test]
fn operand_text() {
    assert_eq!(v(42).to_text(), "$42");
    assert_eq!(c(0).to_text(), "0");
    assert_eq!(c(-7).to_text(), "-7");
    assert_eq!(c(i64::MAX).to_text(), "9223372036854775807");
}

#[test]
fn function_and_module_text() {
    let f = Func {
        blocks: vec![
            (Block(0), BlockData { insts: vec![Inst::Jmp { label: Block(1) }] }),
            (Block(1), BlockData { insts: vec![Inst::Ret { op1: c(5) }] }),
        ],
    };
    assert_eq!(f.to_text(), "'0:\n\tjmp '1\n\n'1:\n\tret 5\n\n");
    let m = Mod { funcs: vec![("main".to_string(), f)] };
    assert_eq!(m.to_text(), "func main() {\n'0:\n\tjmp '1\n\n'1:\n\tret 5\n\n\n}\n");
    assert_eq!(BlockData::new().to_text(), "");
}
