//! The middle end of a small C-subset compiler: an SSA intermediate representation,
//! control-flow analyses over it, and the passes that promote stack slots to
//! registers, fold constants and allocate machine registers.
pub mod builder;
pub mod cfg;
pub mod dom;
pub mod elim;
pub mod func;
pub mod idem;
pub mod inst;
pub mod mem2reg;
pub mod phi;
pub mod pred;
pub mod regalloc;
pub mod sccp;
pub mod ssa;
pub mod text;
pub mod to2op;

pub use builder::Builder;
pub use func::{BlockData, Func, Mod};
pub use inst::{Block, Inst, Loc, OpBin, OpUn, Operand, Var};
pub use pred::pred_blocks;
pub use regalloc::{regalloc, VarLoc};
pub use to2op::to2addr;

