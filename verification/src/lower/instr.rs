//! Instruction identities of the block-local instruction stream.

use vstd::prelude::*;

verus! {

/// The identity of an instruction, a dense index.
#[derive(Debug, Clone, Copy, PartialEq, Eq, Structural, PartialOrd, Ord, Hash)]
pub struct InstrIdx(pub u32);

impl InstrIdx {
    /// Wrap a raw index.
    pub fn from_u32(x: u32) -> (r: InstrIdx)
        ensures
            r.0 == x,
    {
        InstrIdx(x)
    }

    /// The raw index.
    pub fn as_u32(self) -> (r: u32)
        ensures
            r == self.0,
    {
        self.0
    }
}

} // verus!
