//! The smallest addressable unit of the world and its closed set of kinds.

use vstd::prelude::*;

verus! {

/// Kind of a single block. `NoBlock` marks an empty cell; every other
/// variant is a solid block.
#[derive(Clone, Copy, Debug, PartialEq, Eq, Structural)]
pub enum BlockType {
    NoBlock,
    Grass,
}

impl BlockType {
    /// Whether a block of this kind occludes and is rendered: true for every
    /// variant except `NoBlock`.
    pub fn is_solid(&self) -> (r: bool)
        ensures
            r == self.is_solid_spec(),
    {
        match self {
            BlockType::NoBlock => false,
            BlockType::Grass => true,
        }
    }

    pub open spec fn is_solid_spec(self) -> bool {
        self != BlockType::NoBlock
    }
}

impl Default for BlockType {
    /// A fresh cell holds no block.
    fn default() -> (r: Self)
        ensures
            r == BlockType::NoBlock,
    {
        BlockType::NoBlock
    }
}

} // verus!
