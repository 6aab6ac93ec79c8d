//! The bytecode: a flat list of location-stamped instructions, and the
//! single-pass compiler that emits it.

use vstd::prelude::*;

use crate::common::{Error, SourceLocation, push_char, str_is};
use crate::execution::{RunStatus, Value, run_ops};
use crate::token::{Token, TokenData, TokenKind};
use crate::tokenizer::{TokenArray, Tokenizer};
use crate::types::{Type, sty_of};

verus! {

/// One bytecode instruction. Jump targets are absolute indices into the
/// same op list; procedure bodies are inline, guarded by a leading
/// `SkipProc` whose target lies one past the body's closing `Return`.
#[derive(Debug)]
#[allow(inconsistent_fields)]
pub enum Op {
    Exit { location: SourceLocation },
    PushFunctionPointer { location: SourceLocation, value: usize },
    PushType { location: SourceLocation, value: Type },
    PushInteger { location: SourceLocation, value: isize },
    AddInteger { location: SourceLocation },
    SubtractInteger { location: SourceLocation },
    MultiplyInteger { location: SourceLocation },
    DivideInteger { location: SourceLocation },
    LessThanInteger { location: SourceLocation },
    GreaterThanInteger { location: SourceLocation },
    LessThanEqualInteger { location: SourceLocation },
    GreaterThanEqualInteger { location: SourceLocation },
    Equal { location: SourceLocation },
    NotEqual { location: SourceLocation },
    Not { location: SourceLocation },
    Dup { location: SourceLocation },
    Drop { location: SourceLocation },
    Swap { location: SourceLocation },
    Jump { location: SourceLocation, position: usize },
    ConditonalJump { location: SourceLocation, position: usize },
    Print { location: SourceLocation },
    SkipProc {
        location: SourceLocation,
        position: usize,
        parameters: Vec<Type>,
        return_types: Vec<Type>,
    },
    Call { location: SourceLocation },
    Return { location: SourceLocation },
}

/// The location stamped on an op.
pub open spec fn op_location(op: Op) -> SourceLocation {
    match op {
        Op::Exit { location } => location,
        Op::PushFunctionPointer { location, .. } => location,
        Op::PushType { location, .. } => location,
        Op::PushInteger { location, .. } => location,
        Op::AddInteger { location } => location,
        Op::SubtractInteger { location } => location,
        Op::MultiplyInteger { location } => location,
        Op::DivideInteger { location } => location,
        Op::LessThanInteger { location } => location,
        Op::GreaterThanInteger { location } => location,
        Op::LessThanEqualInteger { location } => location,
        Op::GreaterThanEqualInteger { location } => location,
        Op::Equal { location } => location,
        Op::NotEqual { location } => location,
        Op::Not { location } => location,
        Op::Dup { location } => location,
        Op::Drop { location } => location,
        Op::Swap { location } => location,
        Op::Jump { location, .. } => location,
        Op::ConditonalJump { location, .. } => location,
        Op::Print { location } => location,
        Op::SkipProc { location, .. } => location,
        Op::Call { location } => location,
        Op::Return { location } => location,
    }
}

impl Op {
    /// The location stamped on this op.
    pub fn get_location(self: &Op) -> (r: SourceLocation)
        ensures
            r == op_location(*self),
    {
        match self {
            Op::Exit { location } => location.clone(),
            Op::PushFunctionPointer { location, .. } => location.clone(),
            Op::PushType { location, .. } => location.clone(),
            Op::PushInteger { location, .. } => location.clone(),
            Op::AddInteger { location } => location.clone(),
            Op::SubtractInteger { location } => location.clone(),
            Op::MultiplyInteger { location } => location.clone(),
            Op::DivideInteger { location } => location.clone(),
            Op::LessThanInteger { location } => location.clone(),
            Op::GreaterThanInteger { location } => location.clone(),
            Op::LessThanEqualInteger { location } => location.clone(),
            Op::GreaterThanEqualInteger { location } => location.clone(),
            Op::Equal { location } => location.clone(),
            Op::NotEqual { location } => location.clone(),
            Op::Not { location } => location.clone(),
            Op::Dup { location } => location.clone(),
            Op::Drop { location } => location.clone(),
            Op::Swap { location } => location.clone(),
            Op::Jump { location, .. } => location.clone(),
            Op::ConditonalJump { location, .. } => location.clone(),
            Op::Print { location } => location.clone(),
            Op::SkipProc { location, .. } => location.clone(),
            Op::Call { location } => location.clone(),
            Op::Return { location } => location.clone(),
        }
    }

    /// The integer a `PushInteger` pushes.
    pub fn get_push_integer_value(self: &Op) -> (r: isize)
        requires
            self is PushInteger,
        ensures
            r == self->PushInteger_value,
    {
        if let Op::PushInteger { value, .. } = self {
            *value
        } else {
            vstd::pervasive::unreached()
        }
    }

    /// Mutable access to a `PushInteger`'s value.
    pub fn get_push_integer_value_mut(self: &mut Op) -> (r: &mut isize)
        requires
            (*old(self)) is PushInteger,
        ensures
            *r == old(self)->PushInteger_value,
            *final(self) == (Op::PushInteger {
                location: old(self)->PushInteger_location,
                value: *final(r),
            }),
    {
        if let Op::PushInteger { value, .. } = self {
            value
        } else {
            vstd::pervasive::unreached()
        }
    }

    /// The target a `PushFunctionPointer` pushes.
    pub fn get_push_function_pointer_value(self: &Op) -> (r: usize)
        requires
            self is PushFunctionPointer,
        ensures
            r == self->PushFunctionPointer_value,
    {
        if let Op::PushFunctionPointer { value, .. } = self {
            *value
        } else {
            vstd::pervasive::unreached()
        }
    }

    /// Mutable access to a `PushFunctionPointer`'s target.
    pub fn get_push_function_pointer_value_mut(self: &mut Op) -> (r: &mut usize)
        requires
            (*old(self)) is PushFunctionPointer,
        ensures
            *r == old(self)->PushFunctionPointer_value,
            *final(self) == (Op::PushFunctionPointer {
                location: old(self)->PushFunctionPointer_location,
                value: *final(r),
            }),
    {
        if let Op::PushFunctionPointer { value, .. } = self {
            value
        } else {
            vstd::pervasive::unreached()
        }
    }

    /// The type a `PushType` pushes.
    pub fn get_push_type_value(self: &Op) -> (r: Type)
        requires
            self is PushType,
        ensures
            crate::types::sty_of(r) == crate::types::sty_of(self->PushType_value),
    {
        if let Op::PushType { value, .. } = self {
            value.clone()
        } else {
            vstd::pervasive::unreached()
        }
    }

    /// Mutable access to a `PushType`'s type.
    pub fn get_push_type_value_mut(self: &mut Op) -> (r: &mut Type)
        requires
            (*old(self)) is PushType,
        ensures
            *r == old(self)->PushType_value,
            *final(self) == (Op::PushType {
                location: old(self)->PushType_location,
                value: *final(r),
            }),
    {
        if let Op::PushType { value, .. } = self {
            value
        } else {
            vstd::pervasive::unreached()
        }
    }

    /// A `Jump`'s absolute target.
    pub fn get_jump_location(self: &Op) -> (r: usize)
        requires
            self is Jump,
        ensures
            r == self->Jump_position,
    {
        if let Op::Jump { position, .. } = self {
            *position
        } else {
            vstd::pervasive::unreached()
        }
    }

    /// Mutable access to a `Jump`'s target, for back-patching.
    pub fn get_jump_location_mut(self: &mut Op) -> (r: &mut usize)
        requires
            (*old(self)) is Jump,
        ensures
            *r == old(self)->Jump_position,
            *final(self) == (Op::Jump {
                location: old(self)->Jump_location,
                position: *final(r),
            }),
    {
        if let Op::Jump { position, .. } = self {
            position
        } else {
            vstd::pervasive::unreached()
        }
    }

    /// A `ConditonalJump`'s absolute target.
    pub fn get_condtional_jump_location(self: &Op) -> (r: usize)
        requires
            self is ConditonalJump,
        ensures
            r == self->ConditonalJump_position,
    {
        if let Op::ConditonalJump { position, .. } = self {
            *position
        } else {
            vstd::pervasive::unreached()
        }
    }

    /// Mutable access to a `ConditonalJump`'s target, for back-patching.
    pub fn get_condtional_jump_location_mut(self: &mut Op) -> (r: &mut usize)
        requires
            (*old(self)) is ConditonalJump,
        ensures
            *r == old(self)->ConditonalJump_position,
            *final(self) == (Op::ConditonalJump {
                location: old(self)->ConditonalJump_location,
                position: *final(r),
            }),
    {
        if let Op::ConditonalJump { position, .. } = self {
            position
        } else {
            vstd::pervasive::unreached()
        }
    }

    /// A `SkipProc`'s absolute target (one past the body's `Return`).
    pub fn get_skip_procedure_jump_location(self: &Op) -> (r: usize)
        requires
            self is SkipProc,
        ensures
            r == self->SkipProc_position,
    {
        if let Op::SkipProc { position, .. } = self {
            *position
        } else {
            vstd::pervasive::unreached()
        }
    }

    /// Mutable access to a `SkipProc`'s target, for back-patching.
    pub fn get_skip_procedure_jump_location_mut(self: &mut Op) -> (r: &mut usize)
        requires
            (*old(self)) is SkipProc,
        ensures
            *r == old(self)->SkipProc_position,
            *final(self) == (Op::SkipProc {
                location: old(self)->SkipProc_location,
                position: *final(r),
                parameters: old(self)->SkipProc_parameters,
                return_types: old(self)->SkipProc_return_types,
            }),
    {
        if let Op::SkipProc { position, .. } = self {
            position
        } else {
            vstd::pervasive::unreached()
        }
    }
}

// ------------------------------------------------------------------
// Well-formedness of emitted code
// ------------------------------------------------------------------

/// The op at `i` stays inside the list: jump targets reach at most one past
/// the end (the slot a terminating `Exit` will fill), and a function pointer
/// points one past its defining `SkipProc`.
pub open spec fn op_wf(ops: Seq<Op>, i: int) -> bool {
    &&& (ops[i] matches Op::Jump { position, .. } ==> position <= ops.len())
    &&& (ops[i] matches Op::ConditonalJump { position, .. } ==> position <= ops.len())
    &&& (ops[i] matches Op::SkipProc { position, .. } ==> position <= ops.len() && (position == 0
        || ops[position - 1] is Return))
    &&& (ops[i] matches Op::PushFunctionPointer { value, .. } ==> 1 <= value <= ops.len() && ops[
        value - 1
    ] is SkipProc)
    &&& (ops[i] is ConditonalJump ==> i >= 1 && ops[i - 1] is Not)
}

/// Every op from `lo` on is well formed.
pub open spec fn region_wf(ops: Seq<Op>, lo: int) -> bool {
    forall|i: int| lo <= i < ops.len() ==> #[trigger] op_wf(ops, i)
}

/// An open block on the compiler's block stack, recording the op positions
/// to back-patch when the block closes.
enum BlockType {
    If { position: usize },
    Else { skip_position: usize },
    While { position: usize },
    WhileBody { begin_position: usize, end_jump_position: usize },
    Proc { jump_past_position: usize },
}

/// An open block's recorded positions point at ops of the right shape.
spec fn block_wf(ops: Seq<Op>, b: BlockType, lo: int) -> bool {
    match b {
        BlockType::If { position } => ops[position as int] matches Op::ConditonalJump {
            position: t,
            ..
        } && lo <= position < ops.len() && t == 0,
        BlockType::Else { skip_position } => ops[skip_position as int] matches Op::Jump {
            position: t,
            ..
        } && lo <= skip_position < ops.len() && t == 0,
        BlockType::While { position } => lo <= position <= ops.len(),
        BlockType::WhileBody { begin_position, end_jump_position } => ops[
            end_jump_position as int
        ] matches Op::ConditonalJump { position: t, .. } && lo <= begin_position
            <= end_jump_position < ops.len() && t == 0,
        BlockType::Proc { jump_past_position } => ops[jump_past_position as int] matches
            Op::SkipProc { position: t, .. } && lo <= jump_past_position < ops.len() && t == 0,
    }
}

/// The op position an open block will back-patch at its close, if any.
spec fn patch_pos(b: BlockType) -> Option<int> {
    match b {
        BlockType::If { position } => Some(position as int),
        BlockType::Else { skip_position } => Some(skip_position as int),
        BlockType::While { .. } => None,
        BlockType::WhileBody { end_jump_position, .. } => Some(end_jump_position as int),
        BlockType::Proc { jump_past_position } => Some(jump_past_position as int),
    }
}

/// No two open blocks will patch the same op.
#[verifier::opaque]
spec fn blocks_distinct(bs: Seq<BlockType>) -> bool {
    forall|k1: int, k2: int|
        0 <= k1 < k2 < bs.len() ==> (patch_pos(#[trigger] bs[k1]) is Some && patch_pos(
            #[trigger] bs[k2],
        ) is Some ==> patch_pos(bs[k1]) != patch_pos(bs[k2]))
}

/// Some open block will patch the op at `i`.
spec fn block_holds(bs: Seq<BlockType>, i: int) -> bool {
    exists|k: int| 0 <= k < bs.len() && patch_pos(#[trigger] bs[k]) == Some(i)
}

/// The loop-exit pair of the backward `Jump` at `i`: between the jump's
/// target (the condition start) and the jump itself sits the
/// `ConditonalJump` that leaves the loop, patched to land one past the
/// back edge.
pub open spec fn back_pair(ops: Seq<Op>, i: int) -> bool {
    exists|e: int|
        (#[trigger] ops[e]) matches Op::ConditonalJump { position: t, .. }
            && ops[i]->Jump_position <= e < i && t == i + 1
}

/// Every backward `Jump` closes a while loop: it is paired with the
/// loop-exit `ConditonalJump` that lands one past it.
pub open spec fn loops_paired(ops: Seq<Op>, lo: int) -> bool {
    forall|i: int|
        lo <= i < ops.len() && (#[trigger] ops[i]) is Jump && ops[i]->Jump_position <= i
            ==> back_pair(ops, i)
}

/// Every settled backward `Jump` (one no open block still patches) closes a
/// while loop: it is paired with its loop-exit `ConditonalJump`.
#[verifier::opaque]
spec fn back_edges_ok(ops: Seq<Op>, bs: Seq<BlockType>, lo: int) -> bool {
    forall|i: int|
        (#[trigger] ops[i]) matches Op::Jump { position, .. } && lo <= i < ops.len() && position
            <= i && !block_holds(bs, i) ==> back_pair(ops, i)
}

/// Every open block is well formed.
spec fn blocks_wf(ops: Seq<Op>, bs: Seq<BlockType>, lo: int) -> bool {
    forall|k: int| 0 <= k < bs.len() ==> block_wf(ops, #[trigger] bs[k], lo)
}

/// Every name any scope declares resolves to a `SkipProc` op.
spec fn scopes_wf(ops: Seq<Op>, ss: Seq<Vec<(String, usize)>>, lo: int) -> bool {
    forall|s: int, k: int|
        0 <= s < ss.len() && 0 <= k < ss[s]@.len() ==> lo <= (#[trigger] ss[s]@[k]).1 < ops.len()
            && ops[ss[s]@[k].1 as int] is SkipProc
}

/// The number of blocks that own a lexical scope (every kind but `While`,
/// whose scope is only created when its body opens).
spec fn non_while_count(bs: Seq<BlockType>) -> nat
    decreases bs.len(),
{
    if bs.len() == 0 {
        0
    } else {
        non_while_count(bs.drop_last()) + if bs.last() is While {
            0nat
        } else {
            1nat
        }
    }
}

/// `non_while_count` over a push.
proof fn lemma_nwc_push(bs: Seq<BlockType>, b: BlockType)
    ensures
        non_while_count(bs.push(b)) == non_while_count(bs) + if b is While {
            0nat
        } else {
            1nat
        },
{
    assert(bs.push(b).drop_last() =~= bs);
}

/// Appending an op preserves all three well-formedness invariants, provided
/// the new op is itself well formed in the extended list.
proof fn lemma_wfs_push(
    ops0: Seq<Op>,
    op: Op,
    lo: int,
    bs: Seq<BlockType>,
    ss: Seq<Vec<(String, usize)>>,
)
    requires
        0 <= lo <= ops0.len(),
        region_wf(ops0, lo),
        blocks_wf(ops0, bs, lo),
        scopes_wf(ops0, ss, lo),
        op_wf(ops0.push(op), ops0.len() as int),
    ensures
        region_wf(ops0.push(op), lo),
        blocks_wf(ops0.push(op), bs, lo),
        scopes_wf(ops0.push(op), ss, lo),
        ops0.push(op).subrange(0, lo) == ops0.subrange(0, lo),
{
    let ops1 = ops0.push(op);
    assert forall|i: int| lo <= i < ops1.len() implies #[trigger] op_wf(ops1, i) by {
        if i < ops0.len() {
            assert(op_wf(ops0, i));
            assert(ops1[i] == ops0[i]);
            if ops0[i] is PushFunctionPointer {
                let value = ops0[i]->PushFunctionPointer_value;
                assert(ops1[value - 1] == ops0[value - 1]);
            }
            if ops0[i] is ConditonalJump {
                assert(ops1[i - 1] == ops0[i - 1]);
            }
            if ops0[i] is SkipProc {
                let position = ops0[i]->SkipProc_position;
                if position >= 1 {
                    assert(ops1[position - 1] == ops0[position - 1]);
                }
            }
        }
    }
    assert forall|k: int| 0 <= k < bs.len() implies block_wf(ops1, #[trigger] bs[k], lo) by {
        assert(block_wf(ops0, bs[k], lo));
        match patch_pos(bs[k]) {
            Some(q) => {
                assert(ops1[q] == ops0[q]);
            },
            None => {
            },
        }
    }
    assert forall|s: int, k: int|
        0 <= s < ss.len() && 0 <= k < ss[s]@.len() implies lo <= (#[trigger] ss[s]@[k]).1
        < ops1.len() && ops1[ss[s]@[k].1 as int] is SkipProc by {
        assert(lo <= ss[s]@[k].1 < ops0.len());
        assert(ops1[ss[s]@[k].1 as int] == ops0[ss[s]@[k].1 as int]);
    }
    assert(ops1.subrange(0, lo) =~= ops0.subrange(0, lo));
}

/// Appending an op keeps every settled back edge paired, provided a pushed
/// backward jump is still awaiting its patch on the block stack.
proof fn lemma_back_edges_op_push(ops0: Seq<Op>, op: Op, bs: Seq<BlockType>, lo: int)
    requires
        0 <= lo,
        back_edges_ok(ops0, bs, lo),
        op matches Op::Jump { position, .. } ==> block_holds(bs, ops0.len() as int),
    ensures
        back_edges_ok(ops0.push(op), bs, lo),
{
    reveal(back_edges_ok);
    let ops1 = ops0.push(op);
    assert forall|i: int|
        (#[trigger] ops1[i]) matches Op::Jump { position, .. } && lo <= i < ops1.len() && position
            <= i && !block_holds(bs, i) implies back_pair(ops1, i) by {
        if i < ops0.len() {
            assert(ops1[i] == ops0[i]);
            assert(back_pair(ops0, i));
            let e = choose|e: int|
                (#[trigger] ops0[e]) matches Op::ConditonalJump { position: t, .. }
                    && ops0[i]->Jump_position <= e < i && t == i + 1;
            assert(ops1[e] == ops0[e]);
        }
    }
}

/// A new open block only narrows which back edges are settled.
proof fn lemma_back_edges_bs_push(ops: Seq<Op>, bs: Seq<BlockType>, x: BlockType, lo: int)
    requires
        back_edges_ok(ops, bs, lo),
    ensures
        back_edges_ok(ops, bs.push(x), lo),
{
    reveal(back_edges_ok);
    assert forall|i: int|
        (#[trigger] ops[i]) matches Op::Jump { position, .. } && lo <= i < ops.len() && position
            <= i && !block_holds(bs.push(x), i) implies back_pair(ops, i) by {
        if block_holds(bs, i) {
            let k = choose|k: int| 0 <= k < bs.len() && patch_pos(#[trigger] bs[k]) == Some(i);
            assert(bs.push(x)[k] == bs[k]);
            assert(block_holds(bs.push(x), i));
        }
    }
}

/// Closing a block whose patch slot is not a jump keeps every back edge
/// paired.
proof fn lemma_back_edges_bs_pop(ops: Seq<Op>, bs: Seq<BlockType>, lo: int)
    requires
        back_edges_ok(ops, bs, lo),
        bs.len() >= 1,
        match patch_pos(bs.last()) {
            Some(p) => 0 <= p < ops.len() && !(ops[p] is Jump),
            None => true,
        },
    ensures
        back_edges_ok(ops, bs.drop_last(), lo),
{
    reveal(back_edges_ok);
    let bs1 = bs.drop_last();
    assert forall|i: int|
        (#[trigger] ops[i]) matches Op::Jump { position, .. } && lo <= i < ops.len() && position
            <= i && !block_holds(bs1, i) implies back_pair(ops, i) by {
        if block_holds(bs, i) {
            let k = choose|k: int| 0 <= k < bs.len() && patch_pos(#[trigger] bs[k]) == Some(i);
            if k < bs.len() - 1 {
                assert(bs1[k] == bs[k]);
                assert(block_holds(bs1, i));
            }
        }
    }
}

/// Back-patching a placeholder that is not a backward jump (or that becomes a
/// forward jump) keeps every settled back edge paired: pair witnesses carry
/// positive targets, so the zero-target placeholder is never one of them.
proof fn lemma_back_edges_patch(
    ops0: Seq<Op>,
    ops1: Seq<Op>,
    p: int,
    bs: Seq<BlockType>,
    lo: int,
)
    requires
        0 <= lo <= p < ops0.len(),
        back_edges_ok(ops0, bs, lo),
        ops1.len() == ops0.len(),
        forall|i: int| 0 <= i < ops0.len() && i != p ==> ops1[i] == ops0[i],
        ({
            ||| (ops0[p] matches Op::ConditonalJump { position: t, .. } && t == 0 && ops1[p]
                is ConditonalJump)
            ||| (ops0[p] matches Op::SkipProc { position: t, .. } && t == 0 && ops1[p]
                is SkipProc)
            ||| (ops0[p] matches Op::Jump { position: t, .. } && t == 0 && (ops1[p] matches
                Op::Jump { position: t2, .. } && t2 > p))
        }),
    ensures
        back_edges_ok(ops1, bs, lo),
{
    reveal(back_edges_ok);
    assert forall|i: int|
        (#[trigger] ops1[i]) matches Op::Jump { position, .. } && lo <= i < ops1.len() && position
            <= i && !block_holds(bs, i) implies back_pair(ops1, i) by {
        if i != p {
            assert(ops1[i] == ops0[i]);
            assert(back_pair(ops0, i));
            let e = choose|e: int|
                (#[trigger] ops0[e]) matches Op::ConditonalJump { position: t, .. }
                    && ops0[i]->Jump_position <= e < i && t == i + 1;
            assert(ops0[e]->ConditonalJump_position == i + 1 > 0);
            assert(e != p);
            assert(ops1[e] == ops0[e]);
        }
    }
}

/// Patching an else placeholder into its forward jump, as its block closes,
/// keeps every settled back edge paired.
proof fn lemma_back_edges_else_patch(
    ops0: Seq<Op>,
    ops1: Seq<Op>,
    p: int,
    bs0: Seq<BlockType>,
    lo: int,
)
    requires
        0 <= lo <= p < ops0.len(),
        back_edges_ok(ops0, bs0, lo),
        bs0.len() >= 1,
        patch_pos(bs0.last()) == Some(p),
        ops0[p] is Jump,
        ops1.len() == ops0.len(),
        forall|i: int| 0 <= i < ops0.len() && i != p ==> ops1[i] == ops0[i],
        ops1[p] matches Op::Jump { position: t2, .. } && t2 > p,
    ensures
        back_edges_ok(ops1, bs0.drop_last(), lo),
{
    reveal(back_edges_ok);
    let bs1 = bs0.drop_last();
    assert forall|i: int|
        (#[trigger] ops1[i]) matches Op::Jump { position, .. } && lo <= i < ops1.len() && position
            <= i && !block_holds(bs1, i) implies back_pair(ops1, i) by {
        if i != p {
            assert(ops1[i] == ops0[i]);
            if block_holds(bs0, i) {
                let k = choose|k: int| 0 <= k < bs0.len() && patch_pos(#[trigger] bs0[k]) == Some(i);
                assert(k < bs0.len() - 1);
                assert(bs1[k] == bs0[k]);
                assert(block_holds(bs1, i));
            } else {
                assert(back_pair(ops0, i));
                let e = choose|e: int|
                    (#[trigger] ops0[e]) matches Op::ConditonalJump { position: t, .. } && ops0[
                        i
                    ]->Jump_position <= e < i && t == i + 1;
                assert(e != p);
                assert(ops1[e] == ops0[e]);
            }
        }
    }
}

/// Closing a while loop pairs its back edge: the body's closing jump targets
/// the condition start, and the exit jump is patched to land one past it.
/// Older back edges keep their pairs.
proof fn lemma_back_edges_while_close(
    ops0: Seq<Op>,
    ops2: Seq<Op>,
    bs0: Seq<BlockType>,
    lo: int,
    begin: int,
    ejp: int,
)
    requires
        0 <= lo,
        back_edges_ok(ops0, bs0, lo),
        bs0.len() >= 1,
        patch_pos(bs0.last()) == Some(ejp),
        lo <= begin <= ejp < ops0.len(),
        ops0[ejp] matches Op::ConditonalJump { position: t0, .. } && t0 == 0,
        ops2.len() == ops0.len() + 1,
        forall|i: int| 0 <= i < ops0.len() && i != ejp ==> ops2[i] == ops0[i],
        ops2[ops0.len() as int] matches Op::Jump { position: b2, .. } && b2 == begin,
        ops2[ejp] matches Op::ConditonalJump { position: t2, .. } && t2 == ops0.len() + 1,
    ensures
        back_edges_ok(ops2, bs0.drop_last(), lo),
{
    reveal(back_edges_ok);
    let bs1 = bs0.drop_last();
    let n0 = ops0.len() as int;
    assert forall|i: int|
        (#[trigger] ops2[i]) matches Op::Jump { position, .. } && lo <= i < ops2.len() && position
            <= i && !block_holds(bs1, i) implies back_pair(ops2, i) by {
        if i == n0 {
            assert(ops2[ejp] matches Op::ConditonalJump { position: t, .. } && ops2[
                i
            ]->Jump_position <= ejp < i && t == i + 1);
            assert(back_pair(ops2, i));
        } else if i == ejp {
            assert(ops2[i] is ConditonalJump);
        } else {
            assert(ops2[i] == ops0[i]);
            if block_holds(bs0, i) {
                let k = choose|k: int| 0 <= k < bs0.len() && patch_pos(#[trigger] bs0[k]) == Some(i);
                assert(k < bs0.len() - 1);
                assert(bs1[k] == bs0[k]);
                assert(block_holds(bs1, i));
            } else {
                assert(back_pair(ops0, i));
                let e = choose|e: int|
                    (#[trigger] ops0[e]) matches Op::ConditonalJump { position: t, .. } && ops0[
                        i
                    ]->Jump_position <= e < i && t == i + 1;
                assert(e != ejp);
                assert(ops2[e] == ops0[e]);
            }
        }
    }
}

/// A freshly opened block records a patch slot no other open block shares.
proof fn lemma_distinct_push(ops: Seq<Op>, bs: Seq<BlockType>, x: BlockType, lo: int)
    requires
        blocks_distinct(bs),
        blocks_wf(ops, bs, lo),
        patch_pos(x) matches Some(p) ==> p >= ops.len(),
    ensures
        blocks_distinct(bs.push(x)),
{
    reveal(blocks_distinct);
    let bs1 = bs.push(x);
    assert forall|k1: int, k2: int|
        0 <= k1 < k2 < bs1.len() && patch_pos(#[trigger] bs1[k1]) is Some && patch_pos(
        #[trigger] bs1[k2],
    ) is Some implies patch_pos(bs1[k1]) != patch_pos(bs1[k2]) by {
        assert(bs1[k1] == bs[k1]);
        if k2 < bs.len() {
            assert(bs1[k2] == bs[k2]);
        } else {
            assert(block_wf(ops, bs[k1], lo));
        }
    }
}

/// Dropping the innermost block keeps the remaining patch slots distinct.
proof fn lemma_distinct_pop(bs: Seq<BlockType>)
    requires
        blocks_distinct(bs),
        bs.len() >= 1,
    ensures
        blocks_distinct(bs.drop_last()),
{
    reveal(blocks_distinct);
    let bs1 = bs.drop_last();
    assert forall|k1: int, k2: int|
        0 <= k1 < k2 < bs1.len() && patch_pos(#[trigger] bs1[k1]) is Some && patch_pos(
        #[trigger] bs1[k2],
    ) is Some implies patch_pos(bs1[k1]) != patch_pos(bs1[k2]) by {
        assert(bs1[k1] == bs[k1]);
        assert(bs1[k2] == bs[k2]);
    }
}

/// The patched op at `p` keeps its variant.
spec fn variant_kept(a: Op, b: Op) -> bool {
    &&& (a is Jump <==> b is Jump)
    &&& (a is ConditonalJump <==> b is ConditonalJump)
    &&& (a is SkipProc <==> b is SkipProc)
    &&& (a is PushFunctionPointer <==> b is PushFunctionPointer)
    &&& (a is Not <==> b is Not)
    &&& (a is Return <==> b is Return)
}

/// Back-patching one op preserves all three well-formedness invariants,
/// provided the patched op keeps its variant and stays well formed.
proof fn lemma_wfs_patch(
    ops0: Seq<Op>,
    ops1: Seq<Op>,
    p: int,
    lo: int,
    bs: Seq<BlockType>,
    ss: Seq<Vec<(String, usize)>>,
)
    requires
        0 <= lo <= p < ops0.len(),
        ops1.len() == ops0.len(),
        forall|i: int| 0 <= i < ops0.len() && i != p ==> ops1[i] == ops0[i],
        variant_kept(ops0[p], ops1[p]),
        region_wf(ops0, lo),
        blocks_wf(ops0, bs, lo),
        scopes_wf(ops0, ss, lo),
        op_wf(ops1, p),
        forall|k: int| 0 <= k < bs.len() ==> patch_pos(#[trigger] bs[k]) != Some(p),
    ensures
        region_wf(ops1, lo),
        blocks_wf(ops1, bs, lo),
        scopes_wf(ops1, ss, lo),
        ops1.subrange(0, lo) == ops0.subrange(0, lo),
{
    assert forall|i: int| lo <= i < ops1.len() implies #[trigger] op_wf(ops1, i) by {
        if i != p {
            assert(op_wf(ops0, i));
            assert(ops1[i] == ops0[i]);
            if ops0[i] is PushFunctionPointer {
                let value = ops0[i]->PushFunctionPointer_value;
                assert(ops0[value - 1] is SkipProc);
                assert(ops1[value - 1] is SkipProc);
            }
            if ops0[i] is ConditonalJump {
                assert(ops0[i - 1] is Not);
                assert(ops1[i - 1] is Not);
            }
            if ops0[i] is SkipProc {
                let position = ops0[i]->SkipProc_position;
                if position >= 1 {
                    assert(ops0[position - 1] is Return);
                    assert(ops1[position - 1] is Return);
                }
            }
        }
    }
    assert forall|k: int| 0 <= k < bs.len() implies block_wf(ops1, #[trigger] bs[k], lo) by {
        assert(block_wf(ops0, bs[k], lo));
        match patch_pos(bs[k]) {
            Some(q) => {
                assert(q != p);
                assert(ops1[q] == ops0[q]);
            },
            None => {
            },
        }
    }
    assert forall|s: int, k: int|
        0 <= s < ss.len() && 0 <= k < ss[s]@.len() implies lo <= (#[trigger] ss[s]@[k]).1
        < ops1.len() && ops1[ss[s]@[k].1 as int] is SkipProc by {
        assert(lo <= ss[s]@[k].1 < ops0.len());
        assert(ops0[ss[s]@[k].1 as int] is SkipProc);
    }
    assert(ops1.subrange(0, lo) =~= ops0.subrange(0, lo));
}


/// Appending a non-jump op keeps every back edge paired.
proof fn lemma_loops_paired_push(ops0: Seq<Op>, op: Op, lo: int)
    requires
        loops_paired(ops0, lo),
        !(op is Jump),
    ensures
        loops_paired(ops0.push(op), lo),
{
    let ops1 = ops0.push(op);
    assert forall|i: int|
        lo <= i < ops1.len() && (#[trigger] ops1[i]) is Jump && ops1[i]->Jump_position
            <= i implies back_pair(ops1, i) by {
        if i < ops0.len() {
            assert(ops1[i] == ops0[i]);
            assert(back_pair(ops0, i));
            let e = choose|e: int|
                (#[trigger] ops0[e]) matches Op::ConditonalJump { position: t, .. } && ops0[
                    i
                ]->Jump_position <= e < i && t == i + 1;
            assert(ops1[e] == ops0[e]);
        }
    }
}

/// The step budget for running a signature expression at compile time: large
/// enough that only a program that would never finish exhausts it.
pub const SIGNATURE_FUEL: u64 = 0xffff_ffff_ffff_ffff;

/// A fatal diagnostic at `location`.
fn err_at(location: SourceLocation, msg: &str) -> (e: Error)
    ensures
        e.location == location,
{
    Error { location, message: msg.to_owned() }
}

/// Collect the `Type` values a signature expression left on its stack;
/// any other value is a fatal signature error at `at`.
fn harvest_types(stack_values: &Vec<Value>, at: SourceLocation) -> (r: Result<Vec<Type>, Error>)
    ensures
        r matches Err(e) ==> e.location == at,
{
    let mut types: Vec<Type> = Vec::new();
    let mut i: usize = 0;
    while i < stack_values.len()
        invariant
            i <= stack_values@.len(),
        decreases stack_values@.len() - i,
    {
        match &stack_values[i] {
            Value::Type(t) => {
                types.push(t.clone());
            },
            _ => {
                return Err(err_at(at, "expected a type on the signature stack"));
            },
        }
        i += 1;
    }
    Ok(types)
}

/// Evaluate one parenthesized signature expression: slice the token span
/// between the parentheses (tracking nesting depth), compile it through a
/// fresh token-array tokenizer, run it, and harvest the `Type` values it
/// leaves on the stack. Any other value, a trap, or a budget overrun is a
/// fatal signature error.
fn evaluate_signature_types(tokenizer: &mut TokenArray) -> (r: Result<Vec<Type>, Error>)
    requires
        old(tokenizer).wf(),
    ensures
        final(tokenizer).wf(),
        final(tokenizer).measure() <= old(tokenizer).measure(),
        r is Ok ==> final(tokenizer).measure() < old(tokenizer).measure(),
    decreases tokenizer.measure(),
{
    let open_paren = match tokenizer.expect_token(TokenKind::OpenParenthesis) {
        Ok(t) => t,
        Err(e) => {
            return Err(e);
        },
    };
    let ghost budget = tokenizer.measure();
    let mut depth: u128 = 0;
    let mut sig_tokens: Vec<Token> = Vec::new();
    loop
        invariant
            tokenizer.wf(),
            tokenizer.path() == old(tokenizer).path(),
            tokenizer.measure() + sig_tokens@.len() <= budget,
            budget < old(tokenizer).measure(),
            depth <= sig_tokens@.len(),
            forall|i: int|
                0 <= i < sig_tokens@.len() ==> (#[trigger] sig_tokens@[i]).kind
                    != TokenKind::EndOfFile,
            forall|i: int|
                0 <= i < sig_tokens@.len() ==> (#[trigger] sig_tokens@[i]).location.filepath@
                    == old(tokenizer).path(),
            forall|i: int|
                0 <= i < sig_tokens@.len() ==> crate::token::token_wf(
                    crate::token::token_view(#[trigger] sig_tokens@[i]),
                ),
        ensures
            tokenizer.wf(),
            tokenizer.path() == old(tokenizer).path(),
            tokenizer.measure() + sig_tokens@.len() <= budget,
            budget < old(tokenizer).measure(),
            forall|i: int|
                0 <= i < sig_tokens@.len() ==> (#[trigger] sig_tokens@[i]).kind
                    != TokenKind::EndOfFile,
            forall|i: int|
                0 <= i < sig_tokens@.len() ==> (#[trigger] sig_tokens@[i]).location.filepath@
                    == old(tokenizer).path(),
            forall|i: int|
                0 <= i < sig_tokens@.len() ==> crate::token::token_wf(
                    crate::token::token_view(#[trigger] sig_tokens@[i]),
                ),
        decreases tokenizer.measure(),
    {
        let k = match tokenizer.peek_kind() {
            Ok(k) => k,
            Err(e) => {
                return Err(e);
            },
        };
        if (depth == 0 && k == TokenKind::CloseParenthesis) || k == TokenKind::EndOfFile {
            break;
        }
        let t = match tokenizer.next_token() {
            Ok(t) => t,
            Err(e) => {
                return Err(e);
            },
        };
        if t.kind == TokenKind::EndOfFile {
            break;
        }
        if t.kind == TokenKind::OpenParenthesis {
            proof {
                assert(sig_tokens.len() == sig_tokens@.len());
            }
            depth = depth + 1;
        } else if t.kind == TokenKind::CloseParenthesis {
            if depth > 0 {
                depth = depth - 1;
            }
        }
        sig_tokens.push(t);
    }
    let close_paren = match tokenizer.expect_token(TokenKind::CloseParenthesis) {
        Ok(t) => t,
        Err(e) => {
            return Err(e);
        },
    };
    let ghost span_len = sig_tokens@.len();
    let mut sub = TokenArray {
        filepath: open_paren.location.filepath.clone(),
        tokens: sig_tokens,
        position: 0,
    };
    proof {
        assert(sub.wf());
        assert(sub.measure() == span_len);
        assert(span_len < old(tokenizer).measure());
    }
    let mut sig_ops: Vec<Op> = Vec::new();
    proof {
        assert(sub.measure() < old(tokenizer).measure());
    }
    match compile_array(&mut sub, &mut sig_ops) {
        Ok(()) => {},
        Err(e) => {
            return Err(e);
        },
    }
    sig_ops.push(Op::Exit { location: close_paren.location });
    let result = run_ops(&sig_ops, SIGNATURE_FUEL);
    match result.status {
        RunStatus::Halted(stack_values) => harvest_types(&stack_values, open_paren.location),
        RunStatus::Trapped(e) => Err(e),
        RunStatus::OutOfFuel => Err(
            err_at(open_paren.location, "signature expression did not terminate"),
        ),
    }
}

/// Compile tokens until end of file, appending ops to `ops`.
///
/// The stream is first drained to a token array (a lexical error anywhere
/// aborts before compilation proceeds), then compiled in a single forward
/// pass. Back-patching touches only ops this call emitted: the ops already
/// in the list are preserved exactly. On success the whole token stream was
/// consumed and the emitted region is well formed (`region_wf`): every jump
/// target lands inside the list or one past its end (where the terminating
/// `Exit` goes), every function pointer points one past a `SkipProc` whose
/// own resolved target sits one past the body's `Return`, and every
/// `ConditonalJump` follows the `Not` that lowers `if`/`while` onto the one
/// jump-if-true primitive. Every backward `Jump` closes a while loop, paired
/// with the exit jump patched to land one past it (`loops_paired`). An empty
/// stream owes success with nothing emitted; a stream opening on a stray
/// closing brace owes failure.
pub fn compile_ops<T: Tokenizer>(tokenizer: &mut T, ops: &mut Vec<Op>) -> (r: Result<(), Error>)
    requires
        old(tokenizer).wf(),
    ensures
        final(tokenizer).wf(),
        final(tokenizer).measure() <= old(tokenizer).measure(),
        final(ops)@.len() >= old(ops)@.len(),
        final(ops)@.subrange(0, old(ops)@.len() as int) == old(ops)@,
        r is Ok ==> region_wf(final(ops)@, old(ops)@.len() as int),
        r is Ok ==> loops_paired(final(ops)@, old(ops)@.len() as int),
        r is Ok ==> (final(tokenizer).front() matches Ok(tv) && tv.kind == TokenKind::EndOfFile),
        (old(tokenizer).front() matches Ok(tv) && tv.kind == TokenKind::EndOfFile) ==> (r is Ok
            && final(ops)@ == old(ops)@ && final(tokenizer).front() == old(tokenizer).front()),
        (old(tokenizer).front() matches Ok(tv) && tv.kind == TokenKind::CloseBrace) ==> r is Err,
{
    let ghost entry_eof: bool = old(tokenizer).front() matches Ok(tv) && tv.kind
        == TokenKind::EndOfFile;
    let ghost entry_close: bool = old(tokenizer).front() matches Ok(tv) && tv.kind
        == TokenKind::CloseBrace;
    let mut tokens: Vec<Token> = Vec::new();
    let mut filepath: String = String::new();
    loop
        invariant
            tokenizer.wf(),
            tokenizer.path() == old(tokenizer).path(),
            tokenizer.measure() + tokens@.len() <= old(tokenizer).measure(),
            entry_eof == (old(tokenizer).front() matches Ok(tv) && tv.kind
                == TokenKind::EndOfFile),
            entry_eof ==> tokens@.len() == 0 && tokenizer.front() == old(tokenizer).front(),
            entry_close == (old(tokenizer).front() matches Ok(tv) && tv.kind
                == TokenKind::CloseBrace),
            entry_close ==> ((tokens@.len() == 0 && tokenizer.front() == old(
                tokenizer,
            ).front()) || (tokens@.len() > 0 && tokens@[0].kind == TokenKind::CloseBrace)),
            forall|i: int|
                0 <= i < tokens@.len() ==> (#[trigger] tokens@[i]).kind != TokenKind::EndOfFile,
            tokens@.len() > 0 ==> filepath@ == old(tokenizer).path(),
            forall|i: int|
                0 <= i < tokens@.len() ==> (#[trigger] tokens@[i]).location.filepath@ == old(
                    tokenizer,
                ).path(),
            forall|i: int|
                0 <= i < tokens@.len() ==> crate::token::token_wf(
                    crate::token::token_view(#[trigger] tokens@[i]),
                ),
        ensures
            tokenizer.wf(),
            tokenizer.measure() + tokens@.len() <= old(tokenizer).measure(),
            tokenizer.front() matches Ok(tv) && tv.kind == TokenKind::EndOfFile,
            entry_eof ==> tokens@.len() == 0 && tokenizer.front() == old(tokenizer).front(),
            entry_close ==> (tokens@.len() > 0 && tokens@[0].kind == TokenKind::CloseBrace),
            tokens@.len() > 0 ==> filepath@ == old(tokenizer).path(),
            forall|i: int|
                0 <= i < tokens@.len() ==> (#[trigger] tokens@[i]).kind != TokenKind::EndOfFile,
            forall|i: int|
                0 <= i < tokens@.len() ==> (#[trigger] tokens@[i]).location.filepath@ == old(
                    tokenizer,
                ).path(),
            forall|i: int|
                0 <= i < tokens@.len() ==> crate::token::token_wf(
                    crate::token::token_view(#[trigger] tokens@[i]),
                ),
        decreases tokenizer.measure(),
    {
        let t = match tokenizer.next_token() {
            Ok(t) => t,
            Err(e) => {
                return Err(e);
            },
        };
        if t.kind == TokenKind::EndOfFile {
            break;
        }
        filepath = t.location.filepath.clone();
        tokens.push(t);
    }
    let mut arr = TokenArray { filepath, tokens, position: 0 };
    compile_array(&mut arr, ops)
}

/// Compile a pre-lexed token array until end of file, appending ops to
/// `ops`. This is the compiler proper; procedure signature expressions
/// re-enter it through `evaluate_signature_types` over a sliced sub-array.
#[verifier::rlimit(100)]
#[verifier::spinoff_prover]
fn compile_array(tokenizer: &mut TokenArray, ops: &mut Vec<Op>) -> (r: Result<(), Error>)
    requires
        old(tokenizer).wf(),
    ensures
        final(tokenizer).wf(),
        final(tokenizer).measure() <= old(tokenizer).measure(),
        final(ops)@.len() >= old(ops)@.len(),
        final(ops)@.subrange(0, old(ops)@.len() as int) == old(ops)@,
        r is Ok ==> region_wf(final(ops)@, old(ops)@.len() as int),
        r is Ok ==> loops_paired(final(ops)@, old(ops)@.len() as int),
        r is Ok ==> (final(tokenizer).front() matches Ok(tv) && tv.kind == TokenKind::EndOfFile),
        (old(tokenizer).front() matches Ok(tv) && tv.kind == TokenKind::EndOfFile) ==> (r is Ok
            && final(ops)@ == old(ops)@ && final(tokenizer).front() == old(tokenizer).front()),
        (old(tokenizer).front() matches Ok(tv) && tv.kind == TokenKind::CloseBrace) ==> r is Err,
    decreases tokenizer.measure(),
{
    let ghost entry_eof: bool = old(tokenizer).front() matches Ok(tv) && tv.kind
        == TokenKind::EndOfFile;
    let ghost entry_close: bool = old(tokenizer).front() matches Ok(tv) && tv.kind
        == TokenKind::CloseBrace;
    let ghost lo = old(ops)@.len() as int;
    let mut block_stack: Vec<BlockType> = Vec::new();
    let mut scopes: Vec<Vec<(String, usize)>> = Vec::new();
    scopes.push(Vec::new());
    proof {
        assert(ops@.subrange(0, lo) =~= old(ops)@);
        assert(non_while_count(block_stack@) == 0);
        reveal(blocks_distinct);
        reveal(back_edges_ok);
    }
    loop
        invariant
            tokenizer.wf(),
            tokenizer.measure() <= old(tokenizer).measure(),
            ops@.len() >= old(ops)@.len(),
            ops@.subrange(0, lo) == old(ops)@,
            lo == old(ops)@.len(),
            region_wf(ops@, lo),
            blocks_wf(ops@, block_stack@, lo),
            scopes_wf(ops@, scopes@, lo),
            blocks_distinct(block_stack@),
            back_edges_ok(ops@, block_stack@, lo),
            scopes@.len() == 1 + non_while_count(block_stack@),
            entry_eof == (old(tokenizer).front() matches Ok(tv) && tv.kind
                == TokenKind::EndOfFile),
            entry_eof ==> ops@ == old(ops)@ && block_stack@.len() == 0 && tokenizer.front()
                == old(tokenizer).front(),
            entry_close == (old(tokenizer).front() matches Ok(tv) && tv.kind
                == TokenKind::CloseBrace),
            entry_close ==> block_stack@.len() == 0 && tokenizer.front() == old(
                tokenizer,
            ).front(),
        ensures
            tokenizer.wf(),
            tokenizer.measure() <= old(tokenizer).measure(),
            ops@.len() >= old(ops)@.len(),
            ops@.subrange(0, lo) == old(ops)@,
            region_wf(ops@, lo),
            block_stack@.len() == 0,
            back_edges_ok(ops@, block_stack@, lo),
            tokenizer.front() matches Ok(tv) && tv.kind == TokenKind::EndOfFile,
            entry_eof ==> ops@ == old(ops)@ && tokenizer.front() == old(tokenizer).front(),
            !entry_close,
        decreases tokenizer.measure(),
    {
        let token = match tokenizer.next_token() {
            Ok(t) => t,
            Err(e) => {
                return Err(e);
            },
        };
        let ghost ops0 = ops@;
        let ghost bs0 = block_stack@;
        let ghost ss0 = scopes@;
        match token.kind {
            TokenKind::EndOfFile => {
                if block_stack.len() > 0 {
                    return Err(err_at(token.location, "missing closing brace"));
                }
                break;
            },
            TokenKind::Integer => {
                let integer = token.data.get_integer();
                ops.push(Op::PushInteger { location: token.location, value: integer });
                proof {
                    lemma_wfs_push(
                        ops0,
                        ops@.last(),
                        lo,
                        bs0,
                        ss0,
                    );
                    lemma_back_edges_op_push(ops0, ops@.last(), bs0, lo);
                }
            },
            TokenKind::Name => {
                let name = token.data.get_string();
                if str_is(&name, "int") {
                    ops.push(Op::PushType { location: token.location, value: Type::Integer });
                    proof {
                        lemma_wfs_push(ops0, ops@.last(), lo, bs0, ss0);
                        lemma_back_edges_op_push(ops0, ops@.last(), bs0, lo);
                    }
                } else if str_is(&name, "bool") {
                    ops.push(Op::PushType { location: token.location, value: Type::Bool });
                    proof {
                        lemma_wfs_push(ops0, ops@.last(), lo, bs0, ss0);
                        lemma_back_edges_op_push(ops0, ops@.last(), bs0, lo);
                    }
                } else if str_is(&name, "type") {
                    ops.push(Op::PushType { location: token.location, value: Type::Type });
                    proof {
                        lemma_wfs_push(ops0, ops@.last(), lo, bs0, ss0);
                        lemma_back_edges_op_push(ops0, ops@.last(), bs0, lo);
                    }
                } else if str_is(&name, "true") || str_is(&name, "false") {
                    // Boolean literals: the op set has no boolean push, so
                    // they compile to a comparison with the fitting outcome.
                    ops.push(Op::PushInteger { location: token.location.clone(), value: 1 });
                    proof {
                        lemma_wfs_push(ops0, ops@.last(), lo, bs0, ss0);
                        lemma_back_edges_op_push(ops0, ops@.last(), bs0, lo);
                    }
                    let ghost ops1 = ops@;
                    ops.push(Op::PushInteger { location: token.location.clone(), value: 1 });
                    proof {
                        lemma_wfs_push(ops1, ops@.last(), lo, bs0, ss0);
                        lemma_back_edges_op_push(ops1, ops@.last(), bs0, lo);
                    }
                    let ghost ops2 = ops@;
                    if str_is(&name, "true") {
                        ops.push(Op::Equal { location: token.location });
                    } else {
                        ops.push(Op::NotEqual { location: token.location });
                    }
                    proof {
                        lemma_wfs_push(ops2, ops@.last(), lo, bs0, ss0);
                        lemma_back_edges_op_push(ops2, ops@.last(), bs0, lo);
                    }
                } else {
                    // Search the scopes innermost to outermost, latest
                    // declaration first.
                    let mut found = false;
                    let mut target: usize = 0;
                    let mut si = scopes.len();
                    while si > 0 && !found
                        invariant
                            si <= scopes@.len(),
                            scopes_wf(ops@, scopes@, lo),
                            found ==> 1 <= target <= ops@.len() && lo <= target - 1 && ops@[
                                target - 1
                            ] is SkipProc,
                        decreases si,
                    {
                        si = si - 1;
                        let mut ki = scopes[si].len();
                        while ki > 0 && !found
                            invariant
                                si < scopes@.len(),
                                ki <= scopes@[si as int]@.len(),
                                scopes_wf(ops@, scopes@, lo),
                                found ==> 1 <= target <= ops@.len() && lo <= target - 1 && ops@[
                                    target - 1
                                ] is SkipProc,
                            decreases ki,
                        {
                            ki = ki - 1;
                            proof {
                                assert(ops.len() == ops@.len());
                                assert(lo <= scopes@[si as int]@[ki as int].1 < ops@.len()
                                    && ops@[scopes@[si as int]@[ki as int].1 as int] is SkipProc);
                            }
                            if scopes[si][ki].0.eq(&name) {
                                let position = scopes[si][ki].1;
                                target = position + 1;
                                found = true;
                            }
                        }
                    }
                    if found {
                        ops.push(
                            Op::PushFunctionPointer { location: token.location, value: target },
                        );
                        proof {
                            lemma_wfs_push(ops0, ops@.last(), lo, bs0, ss0);
                    lemma_back_edges_op_push(ops0, ops@.last(), bs0, lo);
                        }
                    } else {
                        let mut message: String = "unable to find name ".to_owned();
                        message.append(name.as_str());
                        return Err(Error { location: token.location, message });
                    }
                }
            },
            TokenKind::Print => {
                ops.push(Op::Print { location: token.location });
                proof {
                    lemma_wfs_push(ops0, ops@.last(), lo, bs0, ss0);
                    lemma_back_edges_op_push(ops0, ops@.last(), bs0, lo);
                }
            },
            TokenKind::If => {
                ops.push(Op::Not { location: token.location.clone() });
                let pos = ops.len();
                block_stack.push(BlockType::If { position: pos });
                scopes.push(Vec::new());
                ops.push(Op::ConditonalJump { location: token.location, position: 0 });
                proof {
                    lemma_wfs_push(ops0, ops0.push(ops@[ops0.len() as int]).last(), lo, bs0, ss0);
                    lemma_wfs_push(
                        ops0.push(ops@[ops0.len() as int]),
                        ops@.last(),
                        lo,
                        bs0,
                        ss0,
                    );
                    assert(ops@ =~= ops0.push(ops@[ops0.len() as int]).push(ops@.last()));
                    lemma_nwc_push(bs0, block_stack@.last());
                    assert forall|k: int|
                        0 <= k < block_stack@.len() implies block_wf(
                        ops@,
                        #[trigger] block_stack@[k],
                        lo,
                    ) by {
                        if k < bs0.len() {
                            assert(block_wf(ops0.push(ops@[ops0.len() as int]).push(ops@.last()), bs0[k], lo));
                        }
                    }
                    assert forall|sx: int, k: int|
                        0 <= sx < scopes@.len() && 0 <= k < scopes@[sx]@.len() implies lo <= (
                    #[trigger] scopes@[sx]@[k]).1 < ops@.len() && ops@[scopes@[sx]@[k].1 as int]
                        is SkipProc by {
                        assert(scopes@[sx] == ss0[sx]);
                    }
                    let ops1 = ops0.push(ops@[ops0.len() as int]);
                    lemma_back_edges_op_push(ops0, ops1.last(), bs0, lo);
                    lemma_distinct_push(ops1, bs0, block_stack@.last(), lo);
                    lemma_back_edges_bs_push(ops1, bs0, block_stack@.last(), lo);
                    assert(block_stack@ =~= bs0.push(block_stack@.last()));
                    lemma_back_edges_op_push(ops1, ops@.last(), block_stack@, lo);
                }
                match tokenizer.expect_token(TokenKind::OpenBrace) {
                    Ok(_) => {},
                    Err(e) => {
                        return Err(e);
                    },
                }
            },
            TokenKind::While => {
                block_stack.push(BlockType::While { position: ops.len() });
                proof {
                    lemma_distinct_push(ops@, bs0, block_stack@.last(), lo);
                    lemma_back_edges_bs_push(ops@, bs0, block_stack@.last(), lo);
                    assert(block_stack@ =~= bs0.push(block_stack@.last()));
                    lemma_nwc_push(bs0, block_stack@.last());
                    assert forall|k: int|
                        0 <= k < block_stack@.len() implies block_wf(
                        ops@,
                        #[trigger] block_stack@[k],
                        lo,
                    ) by {
                        if k < bs0.len() {
                            assert(block_wf(ops@, bs0[k], lo));
                        }
                    }
                }
            },
            TokenKind::Call => {
                ops.push(Op::Call { location: token.location });
                proof {
                    lemma_wfs_push(ops0, ops@.last(), lo, bs0, ss0);
                    lemma_back_edges_op_push(ops0, ops@.last(), bs0, lo);
                }
            },
            TokenKind::OpenBrace => {
                let mut while_position: Option<usize> = None;
                if block_stack.len() > 0 {
                    match &block_stack[block_stack.len() - 1] {
                        BlockType::While { position } => {
                            while_position = Some(*position);
                        },
                        _ => {},
                    }
                }
                match while_position {
                    Some(position) => {
                        let popped = block_stack.pop();
                        let ghost bs1 = block_stack@;
                        ops.push(Op::Not { location: token.location.clone() });
                        let ejp = ops.len();
                        block_stack.push(
                            BlockType::WhileBody {
                                begin_position: position,
                                end_jump_position: ejp,
                            },
                        );
                        ops.push(Op::ConditonalJump { location: token.location, position: 0 });
                        scopes.push(Vec::new());
                        proof {
                            let ops1 = ops0.push(ops@[ops0.len() as int]);
                            assert(bs1 =~= bs0.drop_last());
                            assert(non_while_count(bs0) == non_while_count(bs1));
                            assert forall|k: int|
                                0 <= k < bs1.len() implies block_wf(ops0, #[trigger] bs1[k], lo) by {
                                assert(bs1[k] == bs0[k]);
                                assert(block_wf(ops0, bs0[k], lo));
                            }
                            lemma_wfs_push(ops0, ops1.last(), lo, bs1, ss0);
                            lemma_wfs_push(ops1, ops@.last(), lo, bs1, ss0);
                            assert(ops@ =~= ops1.push(ops@.last()));
                            lemma_nwc_push(bs1, block_stack@.last());
                            assert forall|k: int|
                                0 <= k < block_stack@.len() implies block_wf(
                                ops@,
                                #[trigger] block_stack@[k],
                                lo,
                            ) by {
                                if k < bs1.len() {
                                    assert(block_wf(ops1.push(ops@.last()), bs1[k], lo));
                                }
                            }
                            assert forall|sx: int, k: int|
                                0 <= sx < scopes@.len() && 0 <= k < scopes@[sx]@.len() implies lo
                                <= (#[trigger] scopes@[sx]@[k]).1 < ops@.len() && ops@[
                                scopes@[sx]@[k].1 as int
                            ] is SkipProc by {
                                assert(scopes@[sx] == ss0[sx]);
                            }
                            lemma_distinct_pop(bs0);
                            lemma_back_edges_bs_pop(ops0, bs0, lo);
                            lemma_back_edges_op_push(ops0, ops1.last(), bs1, lo);
                            lemma_distinct_push(ops1, bs1, block_stack@.last(), lo);
                            lemma_back_edges_bs_push(ops1, bs1, block_stack@.last(), lo);
                            assert(block_stack@ =~= bs1.push(block_stack@.last()));
                            lemma_back_edges_op_push(ops1, ops@.last(), block_stack@, lo);
                        }
                    },
                    None => {
                        return Err(err_at(token.location, "unexpected token"));
                    },
                }
            },
            TokenKind::Dup => {
                ops.push(Op::Dup { location: token.location });
                proof {
                    lemma_wfs_push(ops0, ops@.last(), lo, bs0, ss0);
                    lemma_back_edges_op_push(ops0, ops@.last(), bs0, lo);
                }
            },
            TokenKind::Drop => {
                ops.push(Op::Drop { location: token.location });
                proof {
                    lemma_wfs_push(ops0, ops@.last(), lo, bs0, ss0);
                    lemma_back_edges_op_push(ops0, ops@.last(), bs0, lo);
                }
            },
            TokenKind::Swap => {
                ops.push(Op::Swap { location: token.location });
                proof {
                    lemma_wfs_push(ops0, ops@.last(), lo, bs0, ss0);
                    lemma_back_edges_op_push(ops0, ops@.last(), bs0, lo);
                }
            },
            TokenKind::Proc => {
                let has_name = {
                    let k = match tokenizer.peek_kind() {
                        Ok(k) => k,
                        Err(e) => {
                            return Err(e);
                        },
                    };
                    k != TokenKind::OpenParenthesis
                };
                let name_token = if has_name {
                    match tokenizer.expect_token(TokenKind::Name) {
                        Ok(t) => Some(t),
                        Err(e) => {
                            return Err(e);
                        },
                    }
                } else {
                    None
                };
                let parameters = match evaluate_signature_types(tokenizer) {
                    Ok(ts) => ts,
                    Err(e) => {
                        return Err(e);
                    },
                };
                let next_kind = match tokenizer.peek_kind() {
                    Ok(k) => k,
                    Err(e) => {
                        return Err(e);
                    },
                };
                // The return list follows an arrow, or stands directly as a
                // second parenthesized list.
                let return_types = if next_kind == TokenKind::RightArrow {
                    match tokenizer.expect_token(TokenKind::RightArrow) {
                        Ok(_) => {},
                        Err(e) => {
                            return Err(e);
                        },
                    }
                    match evaluate_signature_types(tokenizer) {
                        Ok(ts) => ts,
                        Err(e) => {
                            return Err(e);
                        },
                    }
                } else if next_kind == TokenKind::OpenParenthesis {
                    match evaluate_signature_types(tokenizer) {
                        Ok(ts) => ts,
                        Err(e) => {
                            return Err(e);
                        },
                    }
                } else {
                    Vec::new()
                };
                match name_token {
                    Some(name_token) => {
                        match tokenizer.expect_token(TokenKind::OpenBrace) {
                            Ok(_) => {},
                            Err(e) => {
                                return Err(e);
                            },
                        }
                        let pos = ops.len();
                        block_stack.push(BlockType::Proc { jump_past_position: pos });
                        let name_string = name_token.data.get_string();
                        let si = scopes.len() - 1;
                        scopes[si].push((name_string, pos));
                        let ghost ss1 = scopes@;
                        scopes.push(Vec::new());
                        ops.push(
                            Op::SkipProc {
                                location: token.location,
                                position: 0,
                                parameters,
                                return_types,
                            },
                        );
                        proof {
                            lemma_wfs_push(ops0, ops@.last(), lo, bs0, ss0);
                            lemma_distinct_push(ops0, bs0, block_stack@.last(), lo);
                            lemma_back_edges_bs_push(ops0, bs0, block_stack@.last(), lo);
                            assert(block_stack@ =~= bs0.push(block_stack@.last()));
                            lemma_back_edges_op_push(ops0, ops@.last(), block_stack@, lo);
                            lemma_nwc_push(bs0, block_stack@.last());
                            assert forall|k: int|
                                0 <= k < block_stack@.len() implies block_wf(
                                ops@,
                                #[trigger] block_stack@[k],
                                lo,
                            ) by {
                                if k < bs0.len() {
                                    assert(block_wf(ops0.push(ops@.last()), bs0[k], lo));
                                    assert(ops@ =~= ops0.push(ops@.last()));
                                }
                            }
                            assert forall|sx: int, k: int|
                                0 <= sx < scopes@.len() && 0 <= k < scopes@[sx]@.len() implies lo
                                <= (#[trigger] scopes@[sx]@[k]).1 < ops@.len() && ops@[
                                scopes@[sx]@[k].1 as int
                            ] is SkipProc by {
                                assert(ops@ =~= ops0.push(ops@.last()));
                                if sx < ss1.len() {
                                    assert(scopes@[sx] == ss1[sx]);
                                    if sx == si {
                                        if k < ss0[sx]@.len() {
                                            assert(ss1[sx]@[k] == ss0[sx]@[k]);
                                            assert(lo <= ss0[sx]@[k].1 < ops0.len());
                                            assert(ops0[ss0[sx]@[k].1 as int] is SkipProc);
                                        } else {
                                            assert(ss1[sx]@[k].1 == pos);
                                        }
                                    } else {
                                        assert(ss1[sx] == ss0[sx]);
                                        assert(lo <= ss0[sx]@[k].1 < ops0.len());
                                        assert(ops0[ss0[sx]@[k].1 as int] is SkipProc);
                                    }
                                }
                            }
                        }
                    },
                    None => {
                        ops.push(
                            Op::PushType {
                                location: token.location,
                                value: Type::Procedure { parameters, return_types },
                            },
                        );
                        proof {
                            lemma_wfs_push(ops0, ops@.last(), lo, bs0, ss0);
                    lemma_back_edges_op_push(ops0, ops@.last(), bs0, lo);
                        }
                    },
                }
            },
            TokenKind::CloseBrace => {
                let block = match block_stack.pop() {
                    Some(b) => b,
                    None => {
                        return Err(err_at(token.location, "unexpected token"));
                    },
                };
                proof {
                    assert(bs0.drop_last() =~= block_stack@);
                    assert(block_wf(ops@, bs0.last(), lo));
                }
                match block {
                    BlockType::While { .. } => {
                        return Err(err_at(token.location, "unexpected token"));
                    },
                    BlockType::If { position } => {
                        proof {
                            assert(non_while_count(bs0) == non_while_count(block_stack@) + 1);
                            lemma_distinct_pop(bs0);
                            lemma_back_edges_bs_pop(ops0, bs0, lo);
                        }
                        let _ = scopes.pop();
                        let ghost ss1 = scopes@;
                        let peeked = match tokenizer.peek_kind() {
                            Ok(k) => k,
                            Err(e) => {
                                return Err(e);
                            },
                        };
                        if peeked == TokenKind::Else {
                            let else_token = match tokenizer.next_token() {
                                Ok(t) => t,
                                Err(e) => {
                                    return Err(e);
                                },
                            };
                            let sp = ops.len();
                            block_stack.push(BlockType::Else { skip_position: sp });
                            scopes.push(Vec::new());
                            ops.push(Op::Jump { location: else_token.location, position: 0 });
                            proof {
                                assert(block_stack@.drop_last() =~= bs0.drop_last());
                                assert forall|k: int|
                                    0 <= k < bs0.drop_last().len() implies block_wf(
                                    ops0,
                                    #[trigger] bs0.drop_last()[k],
                                    lo,
                                ) by {
                                    assert(bs0.drop_last()[k] == bs0[k]);
                                    assert(block_wf(ops0, bs0[k], lo));
                                }
                                lemma_wfs_push(ops0, ops@.last(), lo, bs0.drop_last(), ss1);
                                lemma_nwc_push(bs0.drop_last(), block_stack@.last());
                                assert(block_stack@ =~= bs0.drop_last().push(block_stack@.last()));
                                assert forall|k: int|
                                    0 <= k < block_stack@.len() implies block_wf(
                                    ops@,
                                    #[trigger] block_stack@[k],
                                    lo,
                                ) by {
                                    if k < bs0.drop_last().len() {
                                        assert(block_wf(ops0.push(ops@.last()), bs0.drop_last()[k], lo));
                                        assert(ops@ =~= ops0.push(ops@.last()));
                                    } else {
                                        assert(block_stack@[k] == block_stack@.last());
                                    }
                                }
                                lemma_distinct_push(ops0, bs0.drop_last(), block_stack@.last(), lo);
                                lemma_back_edges_bs_push(ops0, bs0.drop_last(), block_stack@.last(), lo);
                                assert(patch_pos(block_stack@[block_stack@.len() - 1]) == Some(
                                    ops0.len() as int,
                                ));
                                assert(block_holds(block_stack@, ops0.len() as int));
                                lemma_back_edges_op_push(ops0, ops@.last(), block_stack@, lo);
                            }
                            match tokenizer.expect_token(TokenKind::OpenBrace) {
                                Ok(_) => {},
                                Err(e) => {
                                    return Err(e);
                                },
                            }
                        }
                        let n = ops.len();
                        let ghost ops_before = ops@;
                        let pr = ops[position].get_condtional_jump_location_mut();
                        *pr = n;
                        proof {
                            assert(op_wf(ops_before, position as int));
                            assert(ops@[position - 1] == ops_before[position - 1]);
                            assert((ops_before[position as int] matches Op::ConditonalJump {
                                position: t,
                                ..
                            } && t == 0));
                            reveal(blocks_distinct);
                            assert forall|k: int|
                                0 <= k < block_stack@.len() implies patch_pos(
                                #[trigger] block_stack@[k],
                            ) != Some(position as int) by {
                                if k < bs0.len() - 1 {
                                    assert(block_stack@[k] == bs0[k]);
                                    assert(patch_pos(bs0[bs0.len() - 1]) == Some(position as int));
                                }
                            }
                            lemma_wfs_patch(
                                ops_before,
                                ops@,
                                position as int,
                                lo,
                                block_stack@,
                                scopes@,
                            );
                            lemma_back_edges_patch(
                                ops_before,
                                ops@,
                                position as int,
                                block_stack@,
                                lo,
                            );
                            assert(ops@.subrange(0, lo) =~= ops_before.subrange(0, lo));
                        }
                    },
                    BlockType::Else { skip_position } => {
                        proof {
                            assert(non_while_count(bs0) == non_while_count(block_stack@) + 1);
                            lemma_distinct_pop(bs0);
                        }
                        let _ = scopes.pop();
                        let n = ops.len();
                        let ghost ops_before = ops@;
                        let pr = ops[skip_position].get_jump_location_mut();
                        *pr = n;
                        proof {
                            assert((ops_before[skip_position as int] matches Op::Jump {
                                position: t,
                                ..
                            } && t == 0));
                            reveal(blocks_distinct);
                            assert forall|k: int|
                                0 <= k < block_stack@.len() implies patch_pos(
                                #[trigger] block_stack@[k],
                            ) != Some(skip_position as int) by {
                                assert(block_stack@[k] == bs0[k]);
                                assert(patch_pos(bs0[bs0.len() - 1]) == Some(skip_position as int));
                            }
                            lemma_wfs_patch(
                                ops_before,
                                ops@,
                                skip_position as int,
                                lo,
                                block_stack@,
                                scopes@,
                            );
                            lemma_back_edges_else_patch(
                                ops_before,
                                ops@,
                                skip_position as int,
                                bs0,
                                lo,
                            );
                        }
                    },
                    BlockType::WhileBody { begin_position, end_jump_position } => {
                        proof {
                            assert(non_while_count(bs0) == non_while_count(block_stack@) + 1);
                            lemma_distinct_pop(bs0);
                        }
                        let _ = scopes.pop();
                        ops.push(Op::Jump { location: token.location, position: begin_position });
                        proof {
                            lemma_wfs_push(ops0, ops@.last(), lo, block_stack@, scopes@);
                        }
                        let n = ops.len();
                        let ghost ops_before = ops@;
                        let pr = ops[end_jump_position].get_condtional_jump_location_mut();
                        *pr = n;
                        proof {
                            assert(op_wf(ops_before, end_jump_position as int));
                            assert(ops@[end_jump_position - 1] == ops_before[end_jump_position - 1]);
                            assert((ops_before[end_jump_position as int] matches
                                Op::ConditonalJump { position: t, .. } && t == 0));
                            reveal(blocks_distinct);
                            assert forall|k: int|
                                0 <= k < block_stack@.len() implies patch_pos(
                                #[trigger] block_stack@[k],
                            ) != Some(end_jump_position as int) by {
                                assert(block_stack@[k] == bs0[k]);
                                assert(patch_pos(bs0[bs0.len() - 1]) == Some(
                                    end_jump_position as int,
                                ));
                            }
                            lemma_wfs_patch(
                                ops_before,
                                ops@,
                                end_jump_position as int,
                                lo,
                                block_stack@,
                                scopes@,
                            );
                            assert forall|i: int|
                                0 <= i < ops0.len() && i != end_jump_position implies ops@[i]
                                == ops0[i] by {
                                assert(ops@[i] == ops_before[i]);
                            }
                            lemma_back_edges_while_close(
                                ops0,
                                ops@,
                                bs0,
                                lo,
                                begin_position as int,
                                end_jump_position as int,
                            );
                        }
                    },
                    BlockType::Proc { jump_past_position } => {
                        proof {
                            assert(non_while_count(bs0) == non_while_count(block_stack@) + 1);
                            lemma_distinct_pop(bs0);
                            lemma_back_edges_bs_pop(ops0, bs0, lo);
                        }
                        let _ = scopes.pop();
                        ops.push(Op::Return { location: token.location });
                        proof {
                            lemma_wfs_push(ops0, ops@.last(), lo, block_stack@, scopes@);
                            lemma_back_edges_op_push(ops0, ops@.last(), block_stack@, lo);
                        }
                        let n = ops.len();
                        let ghost ops_before = ops@;
                        let pr = ops[jump_past_position].get_skip_procedure_jump_location_mut();
                        *pr = n;
                        proof {
                            assert(ops_before[n - 1] is Return);
                            assert(ops@[n - 1] == ops_before[n - 1]);
                            assert((ops_before[jump_past_position as int] matches Op::SkipProc {
                                position: t,
                                ..
                            } && t == 0));
                            reveal(blocks_distinct);
                            assert forall|k: int|
                                0 <= k < block_stack@.len() implies patch_pos(
                                #[trigger] block_stack@[k],
                            ) != Some(jump_past_position as int) by {
                                assert(block_stack@[k] == bs0[k]);
                                assert(patch_pos(bs0[bs0.len() - 1]) == Some(
                                    jump_past_position as int,
                                ));
                            }
                            lemma_back_edges_patch(
                                ops_before,
                                ops@,
                                jump_past_position as int,
                                block_stack@,
                                lo,
                            );
                            lemma_wfs_patch(
                                ops_before,
                                ops@,
                                jump_past_position as int,
                                lo,
                                block_stack@,
                                scopes@,
                            );
                        }
                    },
                }
            },
            TokenKind::Plus => {
                ops.push(Op::AddInteger { location: token.location });
                proof {
                    lemma_wfs_push(ops0, ops@.last(), lo, bs0, ss0);
                    lemma_back_edges_op_push(ops0, ops@.last(), bs0, lo);
                }
            },
            TokenKind::Minus => {
                ops.push(Op::SubtractInteger { location: token.location });
                proof {
                    lemma_wfs_push(ops0, ops@.last(), lo, bs0, ss0);
                    lemma_back_edges_op_push(ops0, ops@.last(), bs0, lo);
                }
            },
            TokenKind::Asterisk => {
                ops.push(Op::MultiplyInteger { location: token.location });
                proof {
                    lemma_wfs_push(ops0, ops@.last(), lo, bs0, ss0);
                    lemma_back_edges_op_push(ops0, ops@.last(), bs0, lo);
                }
            },
            TokenKind::Slash => {
                ops.push(Op::DivideInteger { location: token.location });
                proof {
                    lemma_wfs_push(ops0, ops@.last(), lo, bs0, ss0);
                    lemma_back_edges_op_push(ops0, ops@.last(), bs0, lo);
                }
            },
            TokenKind::LessThan => {
                ops.push(Op::LessThanInteger { location: token.location });
                proof {
                    lemma_wfs_push(ops0, ops@.last(), lo, bs0, ss0);
                    lemma_back_edges_op_push(ops0, ops@.last(), bs0, lo);
                }
            },
            TokenKind::GreaterThan => {
                ops.push(Op::GreaterThanInteger { location: token.location });
                proof {
                    lemma_wfs_push(ops0, ops@.last(), lo, bs0, ss0);
                    lemma_back_edges_op_push(ops0, ops@.last(), bs0, lo);
                }
            },
            TokenKind::LessThanEqual => {
                ops.push(Op::LessThanEqualInteger { location: token.location });
                proof {
                    lemma_wfs_push(ops0, ops@.last(), lo, bs0, ss0);
                    lemma_back_edges_op_push(ops0, ops@.last(), bs0, lo);
                }
            },
            TokenKind::GreaterThanEqual => {
                ops.push(Op::GreaterThanEqualInteger { location: token.location });
                proof {
                    lemma_wfs_push(ops0, ops@.last(), lo, bs0, ss0);
                    lemma_back_edges_op_push(ops0, ops@.last(), bs0, lo);
                }
            },
            TokenKind::Equal => {
                ops.push(Op::Equal { location: token.location });
                proof {
                    lemma_wfs_push(ops0, ops@.last(), lo, bs0, ss0);
                    lemma_back_edges_op_push(ops0, ops@.last(), bs0, lo);
                }
            },
            TokenKind::NotEqual => {
                ops.push(Op::NotEqual { location: token.location });
                proof {
                    lemma_wfs_push(ops0, ops@.last(), lo, bs0, ss0);
                    lemma_back_edges_op_push(ops0, ops@.last(), bs0, lo);
                }
            },
            TokenKind::Not => {
                ops.push(Op::Not { location: token.location });
                proof {
                    lemma_wfs_push(ops0, ops@.last(), lo, bs0, ss0);
                    lemma_back_edges_op_push(ops0, ops@.last(), bs0, lo);
                }
            },
            _ => {
                return Err(err_at(token.location, "unexpected token"));
            },
        }
    }
    proof {
        reveal(back_edges_ok);
        assert forall|i: int|
            lo <= i < ops@.len() && (#[trigger] ops@[i]) is Jump && ops@[i]->Jump_position
                <= i implies back_pair(ops@, i) by {
            assert(!block_holds(block_stack@, i));
        }
    }
    Ok(())
}

/// The op at `i` is fully resolved: every target is a valid index and every
/// function pointer enters a procedure body guarded by its `SkipProc`.
pub open spec fn op_resolved(ops: Seq<Op>, i: int) -> bool {
    &&& (ops[i] matches Op::Jump { position, .. } ==> position < ops.len())
    &&& (ops[i] matches Op::ConditonalJump { position, .. } ==> position < ops.len())
    &&& (ops[i] matches Op::SkipProc { position, .. } ==> position < ops.len() && (position == 0
        || ops[position - 1] is Return))
    &&& (ops[i] matches Op::PushFunctionPointer { value, .. } ==> 1 <= value < ops.len() && ops[
        value - 1
    ] is SkipProc)
    &&& (ops[i] is ConditonalJump ==> i >= 1 && ops[i - 1] is Not)
}

/// Back-patch completeness over a finished program: every jump target is a
/// valid index into the op list.
pub open spec fn program_wf(ops: Seq<Op>) -> bool {
    forall|i: int| 0 <= i < ops.len() ==> #[trigger] op_resolved(ops, i)
}

/// Compile a whole program: everything the tokenizer yields, terminated by
/// one `Exit` at the end-of-file position.
///
/// On success the program is non-empty, ends in `Exit` stamped with the
/// end-of-file location, and satisfies back-patch completeness
/// (`program_wf`): every `Jump`/`ConditonalJump`/`SkipProc` target is a
/// valid index into the finished list, every function pointer enters right
/// past its `SkipProc`, every conditional jump follows its `Not`, and every
/// while back edge is paired with its exit jump (`loops_paired`). The empty
/// program owes exactly `[Exit]`.
pub fn compile_program<T: Tokenizer>(tokenizer: &mut T) -> (r: Result<Vec<Op>, Error>)
    requires
        old(tokenizer).wf(),
    ensures
        final(tokenizer).wf(),
        r matches Ok(ops) ==> ops@.len() >= 1 && ops@.last() is Exit && program_wf(ops@)
            && loops_paired(ops@, 0),
        r matches Ok(ops) ==> (final(tokenizer).front() matches Ok(tv)
            && crate::common::loc_view(op_location(ops@.last())) == tv.loc),
        (old(tokenizer).front() matches Ok(tv) && tv.kind == TokenKind::EndOfFile) ==> (r is Ok
            && final(tokenizer).front() == old(tokenizer).front() && (r matches Ok(ops)
            ==> ops@.len() == 1 && ops@[0] is Exit)),
{
    let mut ops: Vec<Op> = Vec::new();
    match compile_ops(tokenizer, &mut ops) {
        Ok(()) => {},
        Err(e) => {
            return Err(e);
        },
    }
    let ghost ops0 = ops@;
    let eof_token = match tokenizer.next_token() {
        Ok(t) => t,
        Err(e) => {
            return Err(e);
        },
    };
    ops.push(Op::Exit { location: eof_token.location });
    proof {
        lemma_loops_paired_push(ops0, ops@.last(), 0);
        assert forall|i: int| 0 <= i < ops@.len() implies #[trigger] op_resolved(ops@, i) by {
            if i < ops0.len() {
                assert(op_wf(ops0, i));
                assert(ops@[i] == ops0[i]);
                if ops0[i] is PushFunctionPointer {
                    let value = ops0[i]->PushFunctionPointer_value;
                    assert(ops@[value - 1] == ops0[value - 1]);
                }
                if ops0[i] is ConditonalJump {
                    assert(ops@[i - 1] == ops0[i - 1]);
                }
                if ops0[i] is SkipProc {
                    let position = ops0[i]->SkipProc_position;
                    if position >= 1 {
                        assert(ops@[position - 1] == ops0[position - 1]);
                    }
                }
            }
        }
    }
    Ok(ops)
}


} // verus!
