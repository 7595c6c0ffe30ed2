use minicc::dom::{dom, dom_frontier};
use minicc::func::{BlockData, Func};
use minicc::inst::{Block, Inst, OpBin, Operand, Var};
use minicc::mem2reg::mem2reg;
use minicc::pred::pred_blocks;
use minicc::sccp::{sccp, SccpError};

fn v(n: usize) -> Operand {
    Operand::Var(Var(n))
}

fn c(n: i64) -> Operand {
    Operand::Const(n)
}

fn func(blocks: Vec<Vec<Inst>>) -> Func {
    Func {
        blocks: blocks
            .into_iter()
            .enumerate()
            .map(|(i, insts)| (Block(i), BlockData { insts }))
            .collect(),
    }
}

fn promote(f: &mut Func) {
    let preds = pred_blocks(f);
    let doms = dom(f, &preds);
    let df = dom_frontier(f, &preds, &doms);
    mem2reg(f, &df);
}

fn bin(op: OpBin, d: usize, a: Operand, b: Operand) -> Inst {
    Inst::Bin { op, dist: Var(d), op1: a, op2: b }
}

fn straight_line() -> Func {
    func(vec![vec![
        Inst::Alloca { dist: Var(0) },
        Inst::Store { op1: v(0), op2: c(2) },
        Inst::Load { dist: Var(1), op1: v(0) },
        bin(OpBin::Add, 2, v(1), c(3)),
        Inst::Ret { op1: v(2) },
    ]])
}

fn if_else() -> Func {
    func(vec![
        vec![Inst::Alloca { dist: Var(0) }, Inst::Cond { op1: c(1), then_: Block(1), else_: Block(2) }],
        vec![Inst::Store { op1: v(0), op2: c(1) }, Inst::Jmp { label: Block(3) }],
        vec![Inst::Store { op1: v(0), op2: c(2) }, Inst::Jmp { label: Block(3) }],
        vec![Inst::Load { dist: Var(2), op1: v(0) }, Inst::Ret { op1: v(2) }],
    ])
}

fn counter_loop() -> Func {
    func(vec![
        vec![
            Inst::Alloca { dist: Var(0) },
            Inst::Store { op1: v(0), op2: c(0) },
            Inst::Jmp { label: Block(1) },
        ],
        vec![
            Inst::Load { dist: Var(1), op1: v(0) },
            bin(OpBin::Lt, 2, v(1), c(10)),
            Inst::Cond { op1: v(2), then_: Block(2), else_: Block(3) },
        ],
        vec![
            Inst::Load { dist: Var(3), op1: v(0) },
            bin(OpBin::Add, 4, v(3), c(1)),
            Inst::Store { op1: v(0), op2: v(4) },
            Inst::Jmp { label: Block(1) },
        ],
        vec![Inst::Load { dist: Var(5), op1: v(0) }, Inst::Ret { op1: v(5) }],
    ])
}

fn insts_of(f: &Func, b: usize) -> Vec<Inst> {
    f.blocks.iter().find(|p| p.0 == Block(b)).unwrap().1.insts.clone()
}

fn all_insts(f: &Func) -> Vec<Inst> {
    f.blocks.iter().flat_map(|p| p.1.insts.clone()).collect()
}

fn defs(f: &Func) -> Vec<Var> {
    all_insts(f).iter().filter_map(|i| i.dist()).collect()
}

#[test]
fn straight_line_constant_fold() {
    let mut f = straight_line();
    promote(&mut f);
    assert_eq!(insts_of(&f, 0), vec![bin(OpBin::Add, 2, c(2), c(3)), Inst::Ret { op1: v(2) }]);
    assert_eq!(sccp(&mut f), Ok(()));
    assert_eq!(insts_of(&f, 0), vec![Inst::Ret { op1: c(5) }]);
}

#[test]
fn if_else_merge() {
    let mut f = if_else();
    promote(&mut f);
    let phi = Inst::Phi { dist: Var(0), incomes: vec![(Block(1), c(1)), (Block(2), c(2))] };
    assert_eq!(insts_of(&f, 3), vec![phi.clone(), Inst::Ret { op1: v(0) }]);
    assert_eq!(insts_of(&f, 0), vec![Inst::Cond { op1: c(1), then_: Block(1), else_: Block(2) }]);
    assert_eq!(insts_of(&f, 1), vec![Inst::Jmp { label: Block(3) }]);
    assert_eq!(insts_of(&f, 2), vec![Inst::Jmp { label: Block(3) }]);
    let before = f.clone();
    assert_eq!(sccp(&mut f), Ok(()));
    assert_eq!(f, before);
}

#[test]
fn loop_carried_counter() {
    let mut f = counter_loop();
    promote(&mut f);
    let phi = Inst::Phi { dist: Var(0), incomes: vec![(Block(0), c(0)), (Block(2), v(4))] };
    assert_eq!(
        insts_of(&f, 1),
        vec![phi, bin(OpBin::Lt, 2, v(0), c(10)), Inst::Cond { op1: v(2), then_: Block(2), else_: Block(3) }]
    );
    assert_eq!(insts_of(&f, 2), vec![bin(OpBin::Add, 4, v(0), c(1)), Inst::Jmp { label: Block(1) }]);
    assert_eq!(insts_of(&f, 3), vec![Inst::Ret { op1: v(0) }]);
    assert_eq!(insts_of(&f, 0), vec![Inst::Jmp { label: Block(1) }]);
}

#[test]
fn single_store_shortcut() {
    let mut f = func(vec![vec![
        Inst::Alloca { dist: Var(0) },
        Inst::Store { op1: v(0), op2: c(7) },
        bin(OpBin::Add, 1, v(0), c(1)),
        Inst::Ret { op1: v(1) },
    ]]);
    promote(&mut f);
    assert_eq!(insts_of(&f, 0), vec![bin(OpBin::Add, 1, c(7), c(1)), Inst::Ret { op1: v(1) }]);
    assert!(all_insts(&f).iter().all(|i| !matches!(i, Inst::Phi { .. })));
    assert_eq!(sccp(&mut f), Ok(()));
    assert_eq!(insts_of(&f, 0), vec![Inst::Ret { op1: c(8) }]);
}

#[test]
fn division_by_zero_fold() {
    let mut f = func(vec![vec![bin(OpBin::Div, 0, c(4), c(0)), Inst::Ret { op1: v(0) }]]);
    assert_eq!(sccp(&mut f), Err(SccpError::DivByZero { dist: Var(0) }));
    let mut g = func(vec![vec![bin(OpBin::Mod, 3, c(4), c(0)), Inst::Ret { op1: v(3) }]]);
    assert_eq!(sccp(&mut g), Err(SccpError::DivByZero { dist: Var(3) }));
}

#[test]
fn division_by_zero_after_folding() {
    let mut f = func(vec![vec![
        bin(OpBin::Sub, 0, c(3), c(3)),
        bin(OpBin::Div, 1, c(9), v(0)),
        Inst::Ret { op1: v(1) },
    ]]);
    assert_eq!(sccp(&mut f), Err(SccpError::DivByZero { dist: Var(1) }));
}

#[test]
fn sccp_folds_chains_to_the_end() {
    let mut f = func(vec![vec![
        bin(OpBin::Mul, 0, c(6), c(7)),
        bin(OpBin::Sub, 1, v(0), c(2)),
        bin(OpBin::Mod, 2, v(1), c(7)),
        Inst::Ret { op1: v(2) },
    ]]);
    assert_eq!(sccp(&mut f), Ok(()));
    assert_eq!(insts_of(&f, 0), vec![Inst::Ret { op1: c(5) }]);
}

#[test]
fn sccp_leaves_comparisons_and_values() {
    let orig = func(vec![vec![
        bin(OpBin::Lt, 0, c(1), c(2)),
        bin(OpBin::Add, 1, v(0), c(2)),
        Inst::Ret { op1: v(1) },
    ]]);
    let mut f = orig.clone();
    assert_eq!(sccp(&mut f), Ok(()));
    assert_eq!(f, orig);
}

#[test]
fn sccp_substitutes_phi_incomes() {
    let mut f = func(vec![
        vec![bin(OpBin::Add, 1, c(1), c(1)), Inst::Jmp { label: Block(1) }],
        vec![
            Inst::Phi { dist: Var(2), incomes: vec![(Block(0), v(1)), (Block(1), v(2))] },
            Inst::Ret { op1: v(2) },
        ],
    ]);
    assert_eq!(sccp(&mut f), Ok(()));
    assert_eq!(insts_of(&f, 0), vec![Inst::Jmp { label: Block(1) }]);
    assert_eq!(
        insts_of(&f, 1)[0],
        Inst::Phi { dist: Var(2), incomes: vec![(Block(0), c(2)), (Block(1), v(2))] }
    );
}

#[test]
fn sccp_twice_is_sccp_once() {
    for mut f in [straight_line(), if_else(), counter_loop()] {
        promote(&mut f);
        assert_eq!(sccp(&mut f), Ok(()));
        let once = f.clone();
        assert_eq!(sccp(&mut f), Ok(()));
        assert_eq!(f, once);
    }
}

#[test]
fn mem2reg_twice_is_mem2reg_once() {
    for mut f in [straight_line(), if_else(), counter_loop()] {
        promote(&mut f);
        let once = f.clone();
        promote(&mut f);
        assert_eq!(f, once);
    }
}

#[test]
fn mem2reg_removes_every_slot() {
    for mut f in [straight_line(), if_else(), counter_loop()] {
        promote(&mut f);
        assert!(all_insts(&f)
            .iter()
            .all(|i| !matches!(i, Inst::Alloca { .. } | Inst::Store { .. } | Inst::Load { .. })));
    }
}

#[test]
fn mem2reg_leaves_single_definitions() {
    for mut f in [straight_line(), if_else(), counter_loop()] {
        promote(&mut f);
        let mut d = defs(&f);
        let n = d.len();
        d.sort();
        d.dedup();
        assert_eq!(d.len(), n);
    }
}

#[test]
fn phi_incomes_match_predecessors() {
    for mut f in [if_else(), counter_loop()] {
        promote(&mut f);
        let preds = pred_blocks(&f);
        for (label, block) in &f.blocks {
            for inst in &block.insts {
                if let Inst::Phi { incomes, .. } = inst {
                    let keys: Vec<Block> = incomes.iter().map(|p| p.0).collect();
                    let ps = &preds.iter().find(|p| p.0 == *label).unwrap().1;
                    assert_eq!(&keys, ps);
                }
            }
        }
    }
}

#[test]
fn uses_are_dominated_after_mem2reg() {
    let mut f = counter_loop();
    promote(&mut f);
    let preds = pred_blocks(&f);
    let doms = dom(&f, &preds);
    let def_block = |x: Var| {
        f.blocks.iter().find(|p| p.1.insts.iter().any(|i| i.dist() == Some(x))).map(|p| p.0)
    };
    for (label, block) in &f.blocks {
        for inst in &block.insts {
            if matches!(inst, Inst::Phi { .. }) {
                continue;
            }
            for u in inst.ops() {
                let d = def_block(u).unwrap();
                let ds = &doms.iter().find(|p| p.0 == *label).unwrap().1;
                assert!(ds.contains(&d));
            }
        }
    }
}

#[test]
fn zero_store_slot_stays() {
    let orig = func(vec![vec![
        Inst::Alloca { dist: Var(0) },
        Inst::Load { dist: Var(1), op1: v(0) },
        Inst::Ret { op1: v(1) },
    ]]);
    let mut f = orig.clone();
    promote(&mut f);
    assert_eq!(f, orig);
}

#[test]
fn division_by_zero_with_value_dividend() {
    let mut f = func(vec![vec![bin(OpBin::Div, 1, v(0), c(0)), Inst::Ret { op1: v(1) }]]);
    assert_eq!(sccp(&mut f), Err(SccpError::DivByZero { dist: Var(1) }));
    let mut g = func(vec![vec![bin(OpBin::Mod, 2, v(0), c(0)), Inst::Ret { op1: v(2) }]]);
    assert_eq!(sccp(&mut g), Err(SccpError::DivByZero { dist: Var(2) }));
}
