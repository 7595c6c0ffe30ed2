use minicc::func::{BlockData, Func};
use minicc::inst::{Block, Inst, OpBin, Operand, Var};
use minicc::regalloc::{
    insert_alloca, liveness, regalloc, regalloc_with, sort_intervals, Interval, LinearScan, VarLoc,
};

fn v(n: usize) -> Operand {
    Operand::Var(Var(n))
}

fn c(n: i64) -> Operand {
    Operand::Const(n)
}

fn pressure() -> Func {
    Func {
        blocks: vec![(
            Block(0),
            BlockData {
                insts: vec![
                    Inst::Bin { op: OpBin::Add, dist: Var(0), op1: c(1), op2: c(2) },
                    Inst::Bin { op: OpBin::Add, dist: Var(1), op1: c(3), op2: c(4) },
                    Inst::Bin { op: OpBin::Add, dist: Var(2), op1: c(5), op2: c(6) },
                    Inst::Store { op1: v(0), op2: v(1) },
                    Inst::Ret { op1: v(2) },
                ],
            },
        )],
    }
}

fn allocate(f: &Func, k: usize) -> Vec<(Var, VarLoc)> {
    let mut scan = LinearScan::new(liveness(f), k);
    scan.linear_scan();
    scan.alloced
}

#[test]
fn live_intervals_of_straight_line() {
    assert_eq!(
        liveness(&pressure()),
        vec![
            (Var(0), Interval { start: 0, end: 3 }),
            (Var(1), Interval { start: 1, end: 3 }),
            (Var(2), Interval { start: 2, end: 4 }),
        ]
    );
}

#[test]
fn unused_value_ends_where_it_starts() {
    let f = Func {
        blocks: vec![(
            Block(0),
            BlockData {
                insts: vec![
                    Inst::Alloca { dist: Var(3) },
                    Inst::Bin { op: OpBin::Add, dist: Var(4), op1: c(1), op2: c(2) },
                    Inst::Ret { op1: c(0) },
                ],
            },
        )],
    };
    assert_eq!(
        liveness(&f),
        vec![(Var(3), Interval { start: 0, end: 0 }), (Var(4), Interval { start: 1, end: 1 })]
    );
}

#[test]
fn spill_under_pressure() {
    let a = allocate(&pressure(), 2);
    assert_eq!(a, vec![(Var(0), VarLoc::Reg(0)), (Var(1), VarLoc::Reg(1)), (Var(2), VarLoc::Spilled)]);
    assert_eq!(a.iter().filter(|p| p.1 == VarLoc::Spilled).count(), 1);
}

#[test]
fn spill_evicts_the_longer_interval() {
    let mut scan = LinearScan::new(
        vec![
            (Var(0), Interval { start: 0, end: 9 }),
            (Var(1), Interval { start: 1, end: 2 }),
        ],
        1,
    );
    scan.linear_scan();
    assert_eq!(scan.alloced, vec![(Var(0), VarLoc::Spilled), (Var(1), VarLoc::Reg(0))]);
}

#[test]
fn expired_register_is_reused() {
    let mut scan = LinearScan::new(
        vec![
            (Var(0), Interval { start: 0, end: 1 }),
            (Var(1), Interval { start: 1, end: 3 }),
            (Var(2), Interval { start: 2, end: 3 }),
        ],
        2,
    );
    scan.linear_scan();
    assert_eq!(
        scan.alloced,
        vec![(Var(0), VarLoc::Reg(0)), (Var(1), VarLoc::Reg(1)), (Var(2), VarLoc::Reg(0))]
    );
}

#[test]
fn no_registers_spills_everything() {
    let a = allocate(&pressure(), 0);
    assert!(a.iter().all(|p| p.1 == VarLoc::Spilled));
}

#[test]
fn register_budget_holds() {
    let f = pressure();
    for k in 0..4 {
        let a = allocate(&f, k);
        let live = liveness(&f);
        for t in 0..5 {
            let mut regs: Vec<usize> = live
                .iter()
                .zip(a.iter())
                .filter(|(iv, _)| iv.1.start <= t && t <= iv.1.end)
                .filter_map(|(_, loc)| match loc.1 {
                    VarLoc::Reg(r) => Some(r),
                    VarLoc::Spilled => None,
                })
                .collect();
            assert!(regs.len() <= k);
            assert!(regs.iter().all(|&r| r < k));
            regs.sort();
            regs.dedup();
            assert!(regs.len() <= k);
        }
    }
}

#[test]
fn spills_are_materialised() {
    let mut f = pressure();
    let a = allocate(&f, 2);
    insert_alloca(&mut f, &a);
    assert_eq!(
        f.blocks[0].1.insts,
        vec![
            Inst::Alloca { dist: Var(2) },
            Inst::Bin { op: OpBin::Add, dist: Var(0), op1: c(1), op2: c(2) },
            Inst::Bin { op: OpBin::Add, dist: Var(1), op1: c(3), op2: c(4) },
            Inst::Bin { op: OpBin::Add, dist: Var(2), op1: c(5), op2: c(6) },
            Inst::Store { op1: v(2), op2: v(2) },
            Inst::Store { op1: v(0), op2: v(1) },
            Inst::Load { dist: Var(2), op1: v(2) },
            Inst::Ret { op1: v(2) },
        ]
    );
}

#[test]
fn linear_scan_takes_intervals_by_start() {
    let mut scan = LinearScan::new(
        vec![
            (Var(0), Interval { start: 5, end: 6 }),
            (Var(1), Interval { start: 8, end: 9 }),
            (Var(2), Interval { start: 0, end: 7 }),
        ],
        1,
    );
    scan.linear_scan();
    assert_eq!(
        scan.interval,
        vec![
            (Var(2), Interval { start: 0, end: 7 }),
            (Var(0), Interval { start: 5, end: 6 }),
            (Var(1), Interval { start: 8, end: 9 }),
        ]
    );
    assert_eq!(
        scan.alloced,
        vec![(Var(2), VarLoc::Spilled), (Var(0), VarLoc::Reg(0)), (Var(1), VarLoc::Reg(0))]
    );
}

#[test]
fn sort_keeps_order_of_equal_starts() {
    let l = vec![
        (Var(3), Interval { start: 2, end: 2 }),
        (Var(1), Interval { start: 1, end: 4 }),
        (Var(2), Interval { start: 2, end: 3 }),
    ];
    assert_eq!(
        sort_intervals(&l),
        vec![
            (Var(1), Interval { start: 1, end: 4 }),
            (Var(3), Interval { start: 2, end: 2 }),
            (Var(2), Interval { start: 2, end: 3 }),
        ]
    );
}

#[test]
fn spill_slots_in_value_order() {
    let mut f = Func {
        blocks: vec![(
            Block(0),
            BlockData {
                insts: vec![
                    Inst::Bin { op: OpBin::Add, dist: Var(1), op1: c(1), op2: c(2) },
                    Inst::Bin { op: OpBin::Add, dist: Var(0), op1: c(3), op2: c(4) },
                    Inst::Ret { op1: c(0) },
                ],
            },
        )],
    };
    let a = vec![(Var(1), VarLoc::Spilled), (Var(0), VarLoc::Spilled)];
    insert_alloca(&mut f, &a);
    assert_eq!(f.blocks[0].1.insts[0], Inst::Alloca { dist: Var(0) });
    assert_eq!(f.blocks[0].1.insts[1], Inst::Alloca { dist: Var(1) });
}

#[test]
fn regalloc_with_two_registers_spills_one() {
    let mut f = pressure();
    regalloc_with(&mut f, 2);
    assert_eq!(f.blocks[0].1.insts[0], Inst::Alloca { dist: Var(2) });
    assert_eq!(f.blocks[0].1.insts.iter().filter(|i| matches!(i, Inst::Alloca { .. })).count(), 1);
}

#[test]
fn regalloc_with_seven_registers_spills_nothing_here() {
    let mut f = pressure();
    let before = f.clone();
    regalloc(&mut f);
    assert_eq!(f, before);
}
