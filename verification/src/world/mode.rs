use crate::sparse::SparseIndex;
use vstd::prelude::*;

verus! {

/// The index of a registered world mode.
#[derive(Debug, Clone, Copy, PartialEq, Eq, Structural, Hash)]
pub struct ModeId(pub u32);

impl SparseIndex for ModeId {
    open spec fn key(self) -> usize {
        self.0 as usize
    }

    open spec fn max_key() -> nat {
        if usize::MAX < u32::MAX {
            usize::MAX as nat
        } else {
            u32::MAX as nat
        }
    }

    fn to_usize(self) -> (r: usize) {
        self.0 as usize
    }

    fn from_usize(index: usize) -> (r: ModeId)
        ensures
            r.0 == index as u32,
    {
        ModeId(index as u32)
    }
}

} // verus!
