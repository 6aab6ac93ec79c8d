//! A second, simpler code form: per-procedure instruction lists with
//! relative jumps, without the type layer.

use vstd::prelude::*;

use crate::common::SourceLocation;

verus! {

/// One instruction, location-stamped.
#[derive(Debug)]
pub struct IR {
    pub location: SourceLocation,
    pub kind: IRKind,
}

/// The instruction kinds. Jumps are relative to the instruction's own index
/// within its procedure; `PushProc` names a procedure by its index.
#[derive(Debug, PartialEq)]
pub enum IRKind {
    Exit,
    PushProc { id: usize },
    PushInt { value: isize },
    Add,
    Sub,
    Mul,
    Div,
    LessThan,
    GreaterThan,
    LessThanEqual,
    GreaterThanEqual,
    Equal,
    NotEqual,
    Not,
    Dup,
    Drop,
    Swap,
    Jump { relative_position: isize },
    JumpFalse { relative_position: isize },
    Call,
    Return,
    Print,
}

/// The instruction at `(p, i)` stays inside its world: relative jumps land
/// inside procedure `p` (or one past its current end), and procedure
/// references name an existing procedure.
pub open spec fn ir_ok(procs: Seq<Vec<IR>>, p: int, i: int) -> bool {
    match procs[p]@[i].kind {
        IRKind::Jump { relative_position } => 0 <= i + relative_position <= procs[p]@.len(),
        IRKind::JumpFalse { relative_position } => 0 <= i + relative_position <= procs[p]@.len(),
        IRKind::PushProc { id } => id < procs.len(),
        _ => true,
    }
}

/// Every instruction of every procedure is well formed.
pub open spec fn irs_wf(procs: Seq<Vec<IR>>) -> bool {
    forall|p: int, i: int|
        0 <= p < procs.len() && 0 <= i < procs[p]@.len() ==> #[trigger] ir_ok(procs, p, i)
}

} // verus!
