//! Basic blocks of the block-local instruction stream.

use vstd::prelude::*;

verus! {

use crate::lower::instr::InstrIdx;

/// The identity of a block, a dense index.
#[derive(Debug, Clone, Copy, PartialEq, Eq, Structural, PartialOrd, Ord, Hash)]
pub struct BlockIdx(pub u32);

impl BlockIdx {
    /// Wrap a raw index.
    pub fn from_u32(x: u32) -> (r: BlockIdx)
        ensures
            r.0 == x,
    {
        BlockIdx(x)
    }

    /// The raw index.
    pub fn as_u32(self) -> (r: u32)
        ensures
            r == self.0,
    {
        self.0
    }
}

/// The index used for instruction fields of a block that has no
/// instructions yet.
pub const PLACEHOLDER_INSTR_IDX: u32 = 0xffff_fffe;

/// A basic block: a range of instructions, and its fill and seal state.
#[derive(Debug)]
pub struct Block {
    pub idx: BlockIdx,
    /// First instruction of the block.
    pub first_instr: InstrIdx,
    /// Last instruction of the block.
    pub last_instr: InstrIdx,
    /// A block is filled when its terminator has been added.
    pub filled: bool,
    /// A block is sealed after all predecessors have been added to it.
    pub sealed: bool,
}

impl Block {
    /// A fresh, empty, unsealed block.
    pub fn new(idx: BlockIdx) -> (b: Block)
        ensures
            b.idx == idx,
            b.first_instr.0 == PLACEHOLDER_INSTR_IDX,
            b.last_instr.0 == PLACEHOLDER_INSTR_IDX,
            !b.filled,
            !b.sealed,
    {
        Block {
            idx,
            first_instr: InstrIdx::from_u32(PLACEHOLDER_INSTR_IDX),
            last_instr: InstrIdx::from_u32(PLACEHOLDER_INSTR_IDX),
            filled: false,
            sealed: false,
        }
    }
}

/// Does this instruction index stand for "no instruction yet"?
pub fn is_placeholder_instr(instr_idx: InstrIdx) -> (r: bool)
    ensures
        r == (instr_idx.0 == PLACEHOLDER_INSTR_IDX),
{
    instr_idx.as_u32() == PLACEHOLDER_INSTR_IDX
}

} // verus!
