//! Blocks: the units of 512 bytes in which the store is given out.

use vstd::prelude::*;
use vstd::std_specs::ops::AddSpecImpl;

verus! {

/// A block of the store, known by its index.
///
/// Block `i` covers the bytes `[i * 512, (i + 1) * 512)` of the store.
#[derive(Clone, Copy, PartialEq, Debug, PartialOrd)]
pub struct Block {
    pub index: usize,
}

impl Block {
    /// The number of bytes in a block.
    pub const SIZE: usize = 512;

    pub fn at(index: usize) -> (block: Self)
        ensures
            block.index == index,
    {
        Block { index }
    }

    /// The offset in the store of the block's first byte.
    pub open spec fn start(self) -> int {
        self.index * 512
    }
}

impl core::ops::Add<usize> for Block {
    type Output = Block;

    fn add(self, rhs: usize) -> (sum: Block) {
        Block { index: self.index + rhs }
    }
}

impl AddSpecImpl<usize> for Block {
    open spec fn obeys_add_spec() -> bool {
        true
    }

    open spec fn add_req(self, rhs: usize) -> bool {
        self.index + rhs <= usize::MAX
    }

    open spec fn add_spec(self, rhs: usize) -> Block {
        Block { index: (self.index + rhs) as usize }
    }
}

} // verus!
