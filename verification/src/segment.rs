//! The three nested levels of the segment hierarchy. A leaf (L1) segment is
//! a dense cube of blocks; an L2 segment is a cube of optional L1 segments;
//! an L3 segment is a cube of optional L2 segments. `None` entries mean
//! "not yet generated", not "empty".

use vstd::prelude::*;
use crate::block::BlockType;

verus! {

/// Edge length of a leaf segment, in blocks.
pub const L1_EDGE: u64 = 32;

/// Edge length of an L2 segment, in L1 segments.
pub const L2_EDGE: u64 = 8;

/// Edge length of an L3 segment, in L2 segments.
pub const L3_EDGE: u64 = 8;

/// Edge length of a leaf segment, in blocks (same as `L1_EDGE`).
pub const L1_EDGE_BL: u64 = 32;

/// Edge length of an L2 segment, in blocks: `L1_EDGE_BL * L2_EDGE`.
pub const L2_EDGE_BL: u64 = 256;

/// Edge length of an L3 segment, in blocks: `L2_EDGE_BL * L3_EDGE`.
pub const L3_EDGE_BL: u64 = 2048;

/// Number of blocks in a leaf segment: `L1_EDGE` cubed.
pub const L1_VOLUME: u64 = 32768;

/// Number of child slots of an L2 segment: `L2_EDGE` cubed.
pub const L2_VOLUME: u64 = 512;

/// Number of child slots of an L3 segment: `L3_EDGE` cubed.
pub const L3_VOLUME: u64 = 512;

/// A leaf segment: a dense `L1_EDGE` cubed grid of blocks, linearized in
/// z-fastest order (index `= L1_EDGE * L1_EDGE * x + L1_EDGE * y + z`).
#[derive(Clone, Debug)]
pub struct L1Segment {
    pub blocks: Vec<BlockType>,
}

/// Number of solid blocks in a prefix of a block sequence.
pub open spec fn count_solid(s: Seq<BlockType>) -> int
    decreases s.len(),
{
    if s.len() == 0 {
        0
    } else {
        count_solid(s.drop_last()) + if s.last().is_solid_spec() {
            1int
        } else {
            0int
        }
    }
}

impl L1Segment {
    /// A leaf segment always holds exactly `L1_VOLUME` blocks.
    pub open spec fn wf(self) -> bool {
        self.blocks@.len() == L1_VOLUME
    }

    /// The block at linear index `i`.
    pub open spec fn block_at(self, i: int) -> BlockType {
        self.blocks@[i]
    }

    /// How many blocks of this leaf are solid.
    pub fn number_of_solid_blocks(&self) -> (r: usize)
        ensures
            r == count_solid(self.blocks@),
    {
        let mut n: usize = 0;
        let mut i: usize = 0;
        while i < self.blocks.len()
            invariant
                i <= self.blocks@.len(),
                n == count_solid(self.blocks@.take(i as int)),
                n <= i,
            decreases self.blocks@.len() - i,
        {
            proof {
                assert(self.blocks@.take(i + 1).drop_last() =~= self.blocks@.take(i as int));
                assert(self.blocks@.take(i + 1).last() == self.blocks@[i as int]);
            }
            if self.blocks[i].is_solid() {
                n = n + 1;
            }
            i = i + 1;
        }
        proof {
            assert(self.blocks@.take(self.blocks@.len() as int) =~= self.blocks@);
        }
        n
    }
}

impl Default for L1Segment {
    /// A fresh leaf segment holds `L1_VOLUME` empty cells.
    fn default() -> (r: Self)
        ensures
            r.wf(),
            forall|i: int| 0 <= i < L1_VOLUME ==> r.blocks@[i] == BlockType::NoBlock,
    {
        let mut blocks: Vec<BlockType> = Vec::new();
        let mut i: usize = 0;
        while i < 32768
            invariant
                i <= 32768,
                blocks@.len() == i,
                forall|j: int| 0 <= j < i ==> blocks@[j] == BlockType::NoBlock,
            decreases 32768 - i,
        {
            blocks.push(BlockType::NoBlock);
            i = i + 1;
        }
        L1Segment { blocks }
    }
}

/// Number of present (`Some`) entries in a prefix of a slot sequence.
pub open spec fn count_some<T>(s: Seq<Option<T>>) -> int
    decreases s.len(),
{
    if s.len() == 0 {
        0
    } else {
        count_some(s.drop_last()) + if s.last() is Some {
            1int
        } else {
            0int
        }
    }
}

/// A middle-level segment: a cube of lazily created leaf segments.
#[derive(Clone)]
pub struct L2Segment {
    pub sub_segments: Vec<Option<L1Segment>>,
}

impl L2Segment {
    /// Exactly `L2_VOLUME` slots, and every present child is well formed.
    pub open spec fn wf(self) -> bool {
        &&& self.sub_segments@.len() == L2_VOLUME
        &&& forall|i: int|
            0 <= i < L2_VOLUME ==> (#[trigger] self.sub_segments@[i] matches Some(s)
                ==> s.wf())
    }

    /// How many of this segment's child slots are filled.
    pub fn number_of_l1_segments(&self) -> (r: usize)
        ensures
            r == count_some(self.sub_segments@),
    {
        let mut n: usize = 0;
        let mut i: usize = 0;
        while i < self.sub_segments.len()
            invariant
                i <= self.sub_segments@.len(),
                n == count_some(self.sub_segments@.take(i as int)),
                n <= i,
            decreases self.sub_segments@.len() - i,
        {
            proof {
                assert(self.sub_segments@.take(i + 1).drop_last() =~= self.sub_segments@.take(
                    i as int,
                ));
                assert(self.sub_segments@.take(i + 1).last() == self.sub_segments@[i as int]);
            }
            if self.sub_segments[i].is_some() {
                n = n + 1;
            }
            i = i + 1;
        }
        proof {
            assert(self.sub_segments@.take(self.sub_segments@.len() as int)
                =~= self.sub_segments@);
        }
        n
    }
}

impl Default for L2Segment {
    /// A fresh L2 segment has every child absent.
    fn default() -> (r: Self)
        ensures
            r.wf(),
            forall|i: int| 0 <= i < L2_VOLUME ==> r.sub_segments@[i] is None,
    {
        let mut sub_segments: Vec<Option<L1Segment>> = Vec::new();
        let mut i: usize = 0;
        while i < 512
            invariant
                i <= 512,
                sub_segments@.len() == i,
                forall|j: int| 0 <= j < i ==> sub_segments@[j] is None,
            decreases 512 - i,
        {
            sub_segments.push(None);
            i = i + 1;
        }
        L2Segment { sub_segments }
    }
}

/// A top-level segment: a cube of lazily created L2 segments.
#[derive(Clone)]
pub struct L3Segment {
    pub sub_segments: Vec<Option<L2Segment>>,
}

impl L3Segment {
    /// Exactly `L3_VOLUME` slots, and every present child is well formed.
    pub open spec fn wf(self) -> bool {
        &&& self.sub_segments@.len() == L3_VOLUME
        &&& forall|i: int|
            0 <= i < L3_VOLUME ==> (#[trigger] self.sub_segments@[i] matches Some(s)
                ==> s.wf())
    }

    /// How many of this segment's child slots are filled.
    pub fn number_of_l2_segments(&self) -> (r: usize)
        ensures
            r == count_some(self.sub_segments@),
    {
        let mut n: usize = 0;
        let mut i: usize = 0;
        while i < self.sub_segments.len()
            invariant
                i <= self.sub_segments@.len(),
                n == count_some(self.sub_segments@.take(i as int)),
                n <= i,
            decreases self.sub_segments@.len() - i,
        {
            proof {
                assert(self.sub_segments@.take(i + 1).drop_last() =~= self.sub_segments@.take(
                    i as int,
                ));
                assert(self.sub_segments@.take(i + 1).last() == self.sub_segments@[i as int]);
            }
            if self.sub_segments[i].is_some() {
                n = n + 1;
            }
            i = i + 1;
        }
        proof {
            assert(self.sub_segments@.take(self.sub_segments@.len() as int)
                =~= self.sub_segments@);
        }
        n
    }
}

impl Default for L3Segment {
    /// A fresh L3 segment has every child absent.
    fn default() -> (r: Self)
        ensures
            r.wf(),
            forall|i: int| 0 <= i < L3_VOLUME ==> r.sub_segments@[i] is None,
    {
        let mut sub_segments: Vec<Option<L2Segment>> = Vec::new();
        let mut i: usize = 0;
        while i < 512
            invariant
                i <= 512,
                sub_segments@.len() == i,
                forall|j: int| 0 <= j < i ==> sub_segments@[j] is None,
            decreases 512 - i,
        {
            sub_segments.push(None);
            i = i + 1;
        }
        L3Segment { sub_segments }
    }
}

} // verus!
