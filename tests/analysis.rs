use minicc::dom::{dom, dom_frontier};
use minicc::func::{BlockData, Func};
use minicc::inst::{Block, Inst, Operand, Var};
use minicc::pred::pred_blocks;

fn func(blocks: Vec<Vec<Inst>>) -> Func {
    Func {
        blocks: blocks
            .into_iter()
            .enumerate()
            .map(|(i, insts)| (Block(i), BlockData { insts }))
            .collect(),
    }
}

fn jmp(b: usize) -> Inst {
    Inst::Jmp { label: Block(b) }
}

fn cond(t: usize, e: usize) -> Inst {
    Inst::Cond { op1: Operand::Var(Var(9)), then_: Block(t), else_: Block(e) }
}

fn ret() -> Inst {
    Inst::Ret { op1: Operand::Const(0) }
}

fn blocks(v: &[usize]) -> Vec<Block> {
    v.iter().map(|&b| Block(b)).collect()
}

fn diamond() -> Func {
    func(vec![vec![cond(1, 2)], vec![jmp(3)], vec![jmp(3)], vec![ret()]])
}

fn looping() -> Func {
    func(vec![vec![jmp(1)], vec![cond(2, 3)], vec![jmp(1)], vec![ret()]])
}

#[test]
fn preds_of_diamond() {
    let p = pred_blocks(&diamond());
    assert_eq!(
        p,
        vec![
            (Block(0), vec![]),
            (Block(1), blocks(&[0])),
            (Block(2), blocks(&[0])),
            (Block(3), blocks(&[1, 2])),
        ]
    );
}

#[test]
fn preds_deduplicate_equal_branches() {
    let f = func(vec![vec![cond(1, 1)], vec![ret()]]);
    assert_eq!(pred_blocks(&f), vec![(Block(0), vec![]), (Block(1), blocks(&[0]))]);
}

#[test]
fn preds_with_label_holes() {
    let f = Func {
        blocks: vec![
            (Block(0), BlockData { insts: vec![jmp(5)] }),
            (Block(5), BlockData { insts: vec![ret()] }),
        ],
    };
    assert_eq!(pred_blocks(&f), vec![(Block(0), vec![]), (Block(5), blocks(&[0]))]);
}

#[test]
fn dominators_of_diamond() {
    let f = diamond();
    let d = dom(&f, &pred_blocks(&f));
    assert_eq!(
        d,
        vec![
            (Block(0), blocks(&[0])),
            (Block(1), blocks(&[0, 1])),
            (Block(2), blocks(&[0, 2])),
            (Block(3), blocks(&[0, 3])),
        ]
    );
}

#[test]
fn dominators_of_loop() {
    let f = looping();
    let d = dom(&f, &pred_blocks(&f));
    assert_eq!(
        d,
        vec![
            (Block(0), blocks(&[0])),
            (Block(1), blocks(&[0, 1])),
            (Block(2), blocks(&[0, 1, 2])),
            (Block(3), blocks(&[0, 1, 3])),
        ]
    );
}

#[test]
fn unreachable_block_keeps_every_dominator() {
    let f = func(vec![vec![ret()], vec![ret()]]);
    let d = dom(&f, &pred_blocks(&f));
    assert_eq!(d, vec![(Block(0), blocks(&[0])), (Block(1), blocks(&[0, 1]))]);
}

#[test]
fn frontier_of_diamond() {
    let f = diamond();
    let p = pred_blocks(&f);
    let d = dom(&f, &p);
    let df = dom_frontier(&f, &p, &d);
    assert_eq!(
        df,
        vec![
            (Block(0), vec![]),
            (Block(1), blocks(&[3])),
            (Block(2), blocks(&[3])),
            (Block(3), vec![]),
        ]
    );
}

#[test]
fn frontier_of_loop() {
    let f = looping();
    let p = pred_blocks(&f);
    let d = dom(&f, &p);
    let df = dom_frontier(&f, &p, &d);
    assert_eq!(
        df,
        vec![
            (Block(0), vec![]),
            (Block(1), blocks(&[1])),
            (Block(2), blocks(&[1])),
            (Block(3), vec![]),
        ]
    );
}
