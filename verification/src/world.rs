//! The world facade: a sparse, unbounded top level of L3 segments keyed
//! by their global segment coordinate, block read/write traversal that
//! creates missing levels lazily on write, terrain population of leaf
//! segments, and mesh generation over every populated leaf.
//!
//! Reading a block whose segment chain is partially absent yields
//! `NoBlock`: on the read path, "absent" and "explicitly empty" are
//! intentionally indistinguishable.

use vstd::prelude::*;
use vstd::arithmetic::div_mod::{
    lemma_fundamental_div_mod, lemma_fundamental_div_mod_converse_div,
    lemma_fundamental_div_mod_converse_mod, lemma_mod_division_less_than_divisor,
    lemma_div_pos_is_pos,
};
use crate::block::BlockType;
use crate::icoords::{
    ICoords, l3_glob_of, l2_loc_of, l1_loc_of, bl_loc_of, lemma_recompose_axis,
    lemma_aligned_decompose,
};
use crate::segment::{L1Segment, L2Segment, L3Segment};
use crate::meshing::{MeshVertex, emit, used_below, vertex_list_upto, neighbours_wf, nb_view, mesh_l1_segment};

verus! {

/// One entry of the sparse top level: an L3 segment together with its
/// global segment coordinate.
pub struct L3Entry {
    pub key: ICoords,
    pub seg: L3Segment,
}

/// Why a write was rejected.
#[derive(Clone, Copy, Debug, PartialEq, Eq, Structural)]
pub enum WorldError {
    /// The coordinate lies beyond the configured maximum extent.
    OutOfBounds,
}

/// The mesh of one populated leaf segment: its world-space block offset
/// and the compacted vertex and triangle index arrays.
pub struct SegmentMesh {
    pub offset: ICoords,
    pub vertices: Vec<MeshVertex>,
    pub indices: Vec<u32>,
}

impl SegmentMesh {
    /// Read-only view of the compacted vertex array.
    pub fn vertices(&self) -> (r: &Vec<MeshVertex>)
        ensures
            r == &self.vertices,
    {
        &self.vertices
    }

    /// Read-only view of the triangle index array.
    pub fn indices(&self) -> (r: &Vec<u32>)
        ensures
            r == &self.indices,
    {
        &self.indices
    }
}

/// The world: the sparse top level, the meshes built from it, and the
/// seed handed to the terrain generator.
pub struct World {
    pub terrain: Vec<L3Entry>,
    pub meshes: Vec<SegmentMesh>,
    pub seed: u32,
}

/// Global coordinate of the L3 segment that owns block coordinate `c`.
pub open spec fn l3_key_of(c: ICoords) -> ICoords {
    ICoords {
        x: l3_glob_of(c.x as int) as i64,
        y: l3_glob_of(c.y as int) as i64,
        z: l3_glob_of(c.z as int) as i64,
    }
}

/// Slot of the owning L2 segment inside its L3 segment.
pub open spec fn l2_index_of(c: ICoords) -> int {
    64 * l2_loc_of(c.x as int) + 8 * l2_loc_of(c.y as int) + l2_loc_of(c.z as int)
}

/// Slot of the owning leaf segment inside its L2 segment.
pub open spec fn l1_index_of(c: ICoords) -> int {
    64 * l1_loc_of(c.x as int) + 8 * l1_loc_of(c.y as int) + l1_loc_of(c.z as int)
}

/// Cell of the block inside its leaf segment.
pub open spec fn bl_index_of(c: ICoords) -> int {
    1024 * bl_loc_of(c.x as int) + 32 * bl_loc_of(c.y as int) + bl_loc_of(c.z as int)
}

/// First entry of the sparse top level with key `k`, if any.
pub open spec fn find_l3(s: Seq<L3Entry>, k: ICoords) -> Option<L3Segment>
    decreases s.len(),
{
    if s.len() == 0 {
        None
    } else if s[0].key == k {
        Some(s[0].seg)
    } else {
        find_l3(s.drop_first(), k)
    }
}

/// The leaf segment that owns block coordinate `c`, if the whole chain
/// down to it is present.
pub open spec fn leaf_at(w: World, c: ICoords) -> Option<L1Segment> {
    match find_l3(w.terrain@, l3_key_of(c)) {
        None => None,
        Some(l3) => match l3.sub_segments@[l2_index_of(c)] {
            None => None,
            Some(l2) => l2.sub_segments@[l1_index_of(c)],
        },
    }
}

/// The block at global coordinate `c`: `NoBlock` wherever the segment
/// chain is absent.
pub open spec fn block_at(w: World, c: ICoords) -> BlockType {
    match leaf_at(w, c) {
        None => BlockType::NoBlock,
        Some(l1) => l1.blocks@[bl_index_of(c)],
    }
}

impl World {
    /// Keys of the sparse top level are unique and every segment tree
    /// hanging from it is well formed.
    pub open spec fn wf(self) -> bool {
        &&& forall|i: int, j: int|
            0 <= i < j < self.terrain@.len() ==> (#[trigger] self.terrain@[i]).key != (
            #[trigger] self.terrain@[j]).key
        &&& forall|i: int| 0 <= i < self.terrain@.len() ==> (#[trigger] self.terrain@[i]).seg.wf()
    }
}

/// `find_l3` returns the entry at the first index whose key matches.
proof fn lemma_find_l3_first(s: Seq<L3Entry>, k: ICoords, i: int)
    requires
        0 <= i < s.len(),
        s[i].key == k,
        forall|j: int| 0 <= j < i ==> s[j].key != k,
    ensures
        find_l3(s, k) == Some(s[i].seg),
    decreases i,
{
    if i > 0 {
        assert forall|j: int| 0 <= j < i - 1 implies s.drop_first()[j].key != k by {
            assert(s[j + 1].key != k);
        }
        lemma_find_l3_first(s.drop_first(), k, i - 1);
    }
}

/// `find_l3` finds nothing when no key matches.
proof fn lemma_find_l3_absent(s: Seq<L3Entry>, k: ICoords)
    requires
        forall|j: int| 0 <= j < s.len() ==> s[j].key != k,
    ensures
        find_l3(s, k) is None,
    decreases s.len(),
{
    if s.len() > 0 {
        lemma_find_l3_absent(s.drop_first(), k);
    }
}

impl World {
    /// A fresh world: no terrain, no meshes, the given generator seed.
    pub fn new(seed: u32) -> (w: World)
        ensures
            w.wf(),
            w.terrain@.len() == 0,
            w.meshes@.len() == 0,
            w.seed == seed,
            forall|d: ICoords| #[trigger] block_at(w, d) == BlockType::NoBlock,
    {
        World { terrain: Vec::new(), meshes: Vec::new(), seed }
    }

    /// Index of the top-level entry that owns `key`, scanning from the
    /// front, or `None` when no entry has that key.
    fn find_entry(&self, key: ICoords) -> (r: Option<usize>)
        ensures
            match r {
                Some(i) => i < self.terrain@.len() && self.terrain@[i as int].key == key
                    && (forall|j: int| 0 <= j < i ==> self.terrain@[j].key != key),
                None => forall|j: int|
                    0 <= j < self.terrain@.len() ==> self.terrain@[j].key != key,
            },
    {
        let mut i: usize = 0;
        while i < self.terrain.len()
            invariant
                i <= self.terrain@.len(),
                forall|j: int| 0 <= j < i ==> self.terrain@[j].key != key,
            decreases self.terrain@.len() - i,
        {
            if self.terrain[i].key == key {
                return Some(i);
            }
            i = i + 1;
        }
        None
    }

    /// The leaf segment that owns block coordinate `coords`, or `None`
    /// if any level of its chain is absent.
    pub fn l1_segment(&self, coords: ICoords) -> (r: Option<&L1Segment>)
        requires
            self.wf(),
        ensures
            match r {
                Some(l1) => leaf_at(*self, coords) == Some(*l1) && l1.wf(),
                None => leaf_at(*self, coords) is None,
            },
    {
        let key = coords.l3_glob();
        proof {
            assert(key == l3_key_of(coords));
        }
        match self.find_entry(key) {
            None => {
                proof {
                    lemma_find_l3_absent(self.terrain@, key);
                }
                None
            },
            Some(i) => {
                proof {
                    lemma_find_l3_first(self.terrain@, key, i as int);
                }
                let l2l = coords.l2_loc();
                let l2i = (64 * l2l.x + 8 * l2l.y + l2l.z) as usize;
                match &self.terrain[i].seg.sub_segments[l2i] {
                    None => None,
                    Some(l2) => {
                        let l1l = coords.l1_loc();
                        let l1i = (64 * l1l.x + 8 * l1l.y + l1l.z) as usize;
                        match &l2.sub_segments[l1i] {
                            None => None,
                            Some(l1) => Some(l1),
                        }
                    },
                }
            },
        }
    }

    /// The block at global coordinate `coords`; `NoBlock` wherever the
    /// segment chain is absent.
    pub fn get_block(&self, coords: ICoords) -> (r: BlockType)
        requires
            self.wf(),
        ensures
            r == block_at(*self, coords),
    {
        match self.l1_segment(coords) {
            None => BlockType::NoBlock,
            Some(l1) => {
                let bl = coords.bl_loc();
                let bli = (1024 * bl.x + 32 * bl.y + bl.z) as usize;
                l1.blocks[bli]
            },
        }
    }
}


/// Removing an element and inserting another at the same place is a
/// point update.
proof fn lemma_remove_insert<T>(s: Seq<T>, i: int, e: T)
    requires
        0 <= i < s.len(),
    ensures
        s.remove(i).insert(i, e) =~= s.update(i, e),
{
}

/// A point update at the first index whose key is `k` makes the new
/// entry what `find_l3` returns for `k`.
proof fn lemma_find_l3_update_same(s: Seq<L3Entry>, i: int, e: L3Entry)
    requires
        0 <= i < s.len(),
        s[i].key == e.key,
        forall|j: int| 0 <= j < i ==> s[j].key != e.key,
    ensures
        find_l3(s.update(i, e), e.key) == Some(e.seg),
    decreases i,
{
    if i == 0 {
        assert(s.update(i, e)[0] == e);
    } else {
        assert(s.update(i, e).drop_first() =~= s.drop_first().update(i - 1, e));
        assert forall|j: int| 0 <= j < i - 1 implies s.drop_first()[j].key != e.key by {
            assert(s[j + 1].key != e.key);
        }
        lemma_find_l3_update_same(s.drop_first(), i - 1, e);
    }
}

/// A point update with key `k` leaves lookups of every other key as
/// they were.
proof fn lemma_find_l3_update_other(s: Seq<L3Entry>, i: int, e: L3Entry, k2: ICoords)
    requires
        0 <= i < s.len(),
        s[i].key == e.key,
        k2 != e.key,
    ensures
        find_l3(s.update(i, e), k2) == find_l3(s, k2),
    decreases i,
{
    if i == 0 {
        assert(s.update(i, e)[0] == e);
        assert(s.update(i, e).drop_first() =~= s.drop_first());
    } else {
        assert(s.update(i, e)[0] == s[0]);
        assert(s.update(i, e).drop_first() =~= s.drop_first().update(i - 1, e));
        lemma_find_l3_update_other(s.drop_first(), i - 1, e, k2);
    }
}

/// Appending an entry changes only lookups of its key, and only when
/// that key was absent.
proof fn lemma_find_l3_push(s: Seq<L3Entry>, e: L3Entry, k2: ICoords)
    ensures
        find_l3(s.push(e), k2) == if find_l3(s, k2) is Some {
            find_l3(s, k2)
        } else if e.key == k2 {
            Some(e.seg)
        } else {
            None
        },
    decreases s.len(),
{
    if s.len() == 0 {
        assert(s.push(e).len() == 1);
        assert(s.push(e)[0] == e);
        if e.key == k2 {
            assert(find_l3(s.push(e), k2) == Some(e.seg));
        } else {
            assert(s.push(e).drop_first() =~= Seq::<L3Entry>::empty());
            assert(find_l3(s.push(e), k2) == find_l3(Seq::<L3Entry>::empty(), k2));
        }
    } else {
        assert(s.push(e)[0] == s[0]);
        assert(s.push(e).drop_first() =~= s.drop_first().push(e));
        lemma_find_l3_push(s.drop_first(), e, k2);
        if s[0].key != k2 {
            assert(find_l3(s.push(e), k2) == find_l3(s.drop_first().push(e), k2));
            assert(find_l3(s, k2) == find_l3(s.drop_first(), k2));
        }
    }
}

/// The four per-level indices of a coordinate pin the coordinate: two
/// coordinates with the same L3 key and the same three slot indices are
/// the same coordinate.
/// The per-axis location values of any coordinate are in range.
proof fn lemma_loc_ranges(v: int)
    ensures
        0 <= l2_loc_of(v) < 8,
        0 <= l1_loc_of(v) < 8,
        0 <= bl_loc_of(v) < 32,
{
    vstd::arithmetic::div_mod::lemma_mod_division_less_than_divisor(v / 256, 8);
    vstd::arithmetic::div_mod::lemma_mod_division_less_than_divisor(v / 32, 8);
    vstd::arithmetic::div_mod::lemma_mod_division_less_than_divisor(v, 32);
}

/// Base-8 digits of a slot index are unique.
proof fn lemma_digits8(a1: int, b1: int, c1: int, a2: int, b2: int, c2: int)
    requires
        0 <= a1 < 8,
        0 <= b1 < 8,
        0 <= c1 < 8,
        0 <= a2 < 8,
        0 <= b2 < 8,
        0 <= c2 < 8,
        64 * a1 + 8 * b1 + c1 == 64 * a2 + 8 * b2 + c2,
    ensures
        a1 == a2,
        b1 == b2,
        c1 == c2,
{
}

/// Base-32 digits of a block cell index are unique.
proof fn lemma_digits32(a1: int, b1: int, c1: int, a2: int, b2: int, c2: int)
    requires
        0 <= a1 < 32,
        0 <= b1 < 32,
        0 <= c1 < 32,
        0 <= a2 < 32,
        0 <= b2 < 32,
        0 <= c2 < 32,
        1024 * a1 + 32 * b1 + c1 == 1024 * a2 + 32 * b2 + c2,
    ensures
        a1 == a2,
        b1 == b2,
        c1 == c2,
{
}

/// A coordinate component is pinned by its four per-level parts.
proof fn lemma_axis_injective(v: int, w: int)
    requires
        l3_glob_of(v) == l3_glob_of(w),
        l2_loc_of(v) == l2_loc_of(w),
        l1_loc_of(v) == l1_loc_of(w),
        bl_loc_of(v) == bl_loc_of(w),
    ensures
        v == w,
{
    lemma_recompose_axis(v);
    lemma_recompose_axis(w);
}

/// The four per-level indices of a coordinate pin the coordinate: two
/// coordinates with the same L3 key and the same three slot indices are
/// the same coordinate.
proof fn lemma_indices_injective(c: ICoords, d: ICoords)
    requires
        l3_key_of(c) == l3_key_of(d),
        l2_index_of(c) == l2_index_of(d),
        l1_index_of(c) == l1_index_of(d),
        bl_index_of(c) == bl_index_of(d),
    ensures
        c == d,
{
    crate::icoords::lemma_div_in_range(c.x as int, 2048);
    crate::icoords::lemma_div_in_range(c.y as int, 2048);
    crate::icoords::lemma_div_in_range(c.z as int, 2048);
    crate::icoords::lemma_div_in_range(d.x as int, 2048);
    crate::icoords::lemma_div_in_range(d.y as int, 2048);
    crate::icoords::lemma_div_in_range(d.z as int, 2048);
    assert(l3_glob_of(c.x as int) == l3_glob_of(d.x as int));
    assert(l3_glob_of(c.y as int) == l3_glob_of(d.y as int));
    assert(l3_glob_of(c.z as int) == l3_glob_of(d.z as int));
    lemma_loc_ranges(c.x as int);
    lemma_loc_ranges(c.y as int);
    lemma_loc_ranges(c.z as int);
    lemma_loc_ranges(d.x as int);
    lemma_loc_ranges(d.y as int);
    lemma_loc_ranges(d.z as int);
    lemma_digits8(
        l2_loc_of(c.x as int),
        l2_loc_of(c.y as int),
        l2_loc_of(c.z as int),
        l2_loc_of(d.x as int),
        l2_loc_of(d.y as int),
        l2_loc_of(d.z as int),
    );
    lemma_digits8(
        l1_loc_of(c.x as int),
        l1_loc_of(c.y as int),
        l1_loc_of(c.z as int),
        l1_loc_of(d.x as int),
        l1_loc_of(d.y as int),
        l1_loc_of(d.z as int),
    );
    lemma_digits32(
        bl_loc_of(c.x as int),
        bl_loc_of(c.y as int),
        bl_loc_of(c.z as int),
        bl_loc_of(d.x as int),
        bl_loc_of(d.y as int),
        bl_loc_of(d.z as int),
    );
    lemma_axis_injective(c.x as int, d.x as int);
    lemma_axis_injective(c.y as int, d.y as int);
    lemma_axis_injective(c.z as int, d.z as int);
}

impl World {
    /// Writes one block at a global coordinate, creating any missing
    /// segment levels on the way down. A coordinate at or beyond the
    /// maximum extent (one L3 segment's worth of blocks, 2048, along
    /// each axis) is rejected without touching the world.
    pub fn set_block(&mut self, coords: ICoords, block: BlockType) -> (r: Result<(), WorldError>)
        requires
            old(self).wf(),
        ensures
            final(self).wf(),
            coords.x >= 2048 || coords.y >= 2048 || coords.z >= 2048 ==> r == Err::<
                (),
                WorldError,
            >(WorldError::OutOfBounds) && *final(self) == *old(self),
            !(coords.x >= 2048 || coords.y >= 2048 || coords.z >= 2048) ==> r == Ok::<
                (),
                WorldError,
            >(()) && final(self).meshes == old(self).meshes && final(self).seed == old(self).seed
                && (forall|d: ICoords|
                #[trigger] block_at(*final(self), d) == if d == coords {
                    block
                } else {
                    block_at(*old(self), d)
                }),
    {
        if coords.x >= 2048 || coords.y >= 2048 || coords.z >= 2048 {
            return Err(WorldError::OutOfBounds);
        }
        let key = coords.l3_glob();
        proof {
            assert(key == l3_key_of(coords));
        }
        let l2l = coords.l2_loc();
        let l2i = (64 * l2l.x + 8 * l2l.y + l2l.z) as usize;
        let l1l = coords.l1_loc();
        let l1i = (64 * l1l.x + 8 * l1l.y + l1l.z) as usize;
        let bl = coords.bl_loc();
        let bli = (1024 * bl.x + 32 * bl.y + bl.z) as usize;
        let found = self.find_entry(key);
        match found {
            Some(i) => {
                proof {
                    lemma_find_l3_first(self.terrain@, key, i as int);
                }
                let ghost old_terrain = self.terrain@;
                let ghost old_l3 = self.terrain@[i as int].seg;
                let mut entry = self.terrain.remove(i);
                let l2opt = entry.seg.sub_segments.remove(l2i);
                let ghost had_l2 = l2opt is Some;
                let mut l2seg = match l2opt {
                    Some(s2) => s2,
                    None => L2Segment::default(),
                };
                let ghost old_l2 = l2seg;
                let l1opt = l2seg.sub_segments.remove(l1i);
                let ghost had_l1 = l1opt is Some;
                let mut l1seg = match l1opt {
                    Some(s1) => s1,
                    None => L1Segment::default(),
                };
                let ghost old_l1 = l1seg;
                l1seg.blocks[bli] = block;
                let ghost new_l1 = l1seg;
                l2seg.sub_segments.insert(l1i, Some(l1seg));
                let ghost new_l2 = l2seg;
                entry.seg.sub_segments.insert(l2i, Some(l2seg));
                self.terrain.insert(i, entry);
                proof {
                    lemma_remove_insert(old_l2.sub_segments@, l1i as int, Some(new_l1));
                    lemma_remove_insert(old_l3.sub_segments@, l2i as int, Some(new_l2));
                    lemma_remove_insert(old_terrain, i as int, entry);
                    lemma_set_block_effect(
                        *old(self),
                        *self,
                        coords,
                        block,
                        i as int,
                        entry,
                        old_l3,
                        old_l2,
                        old_l1,
                        new_l2,
                        new_l1,
                        had_l2,
                        had_l1,
                    );
                }
                Ok(())
            },
            None => {
                let ghost old_terrain = self.terrain@;
                let mut l1seg = L1Segment::default();
                let ghost old_l1 = l1seg;
                l1seg.blocks[bli] = block;
                let ghost new_l1 = l1seg;
                let mut l2seg = L2Segment::default();
                let ghost old_l2 = l2seg;
                l2seg.sub_segments[l1i] = Some(l1seg);
                let ghost new_l2 = l2seg;
                let mut l3seg = L3Segment::default();
                let ghost old_l3 = l3seg;
                l3seg.sub_segments[l2i] = Some(l2seg);
                let entry = L3Entry { key, seg: l3seg };
                self.terrain.push(entry);
                proof {
                    lemma_find_l3_absent(old_terrain, key);
                    lemma_set_block_effect_fresh(
                        *old(self),
                        *self,
                        coords,
                        block,
                        entry,
                        old_l3,
                        old_l2,
                        old_l1,
                        new_l2,
                        new_l1,
                    );
                }
                Ok(())
            },
        }
    }
}


/// Both slot indices of every coordinate are in range.
proof fn lemma_indices_range(c: ICoords)
    ensures
        0 <= l2_index_of(c) < 512,
        0 <= l1_index_of(c) < 512,
        0 <= bl_index_of(c) < 32768,
{
}

/// The update path of `set_block`: with the owning L3 entry replaced by
/// a copy whose leaf chain carries the one-block update, exactly the
/// named block changes.
proof fn lemma_set_block_effect(
    w0: World,
    w1: World,
    coords: ICoords,
    block: BlockType,
    i: int,
    entry: L3Entry,
    old_l3: L3Segment,
    old_l2: L2Segment,
    old_l1: L1Segment,
    new_l2: L2Segment,
    new_l1: L1Segment,
    had_l2: bool,
    had_l1: bool,
)
    requires
        w0.wf(),
        0 <= i < w0.terrain@.len(),
        w0.terrain@[i].key == l3_key_of(coords),
        w0.terrain@[i].seg == old_l3,
        forall|j: int| 0 <= j < i ==> w0.terrain@[j].key != l3_key_of(coords),
        entry.key == l3_key_of(coords),
        old_l2.wf(),
        old_l1.wf(),
        had_l2 ==> old_l3.sub_segments@[l2_index_of(coords)] == Some(old_l2),
        !had_l2 ==> old_l3.sub_segments@[l2_index_of(coords)] is None && (forall|q: int|
            0 <= q < 512 ==> old_l2.sub_segments@[q] is None),
        had_l1 ==> old_l2.sub_segments@[l1_index_of(coords)] == Some(old_l1),
        !had_l1 ==> old_l2.sub_segments@[l1_index_of(coords)] is None && (forall|q: int|
            0 <= q < 32768 ==> old_l1.blocks@[q] == BlockType::NoBlock),
        had_l1 ==> had_l2,
        new_l1.blocks@ == old_l1.blocks@.update(bl_index_of(coords), block),
        new_l2.sub_segments@ == old_l2.sub_segments@.update(l1_index_of(coords), Some(new_l1)),
        entry.seg.sub_segments@ == old_l3.sub_segments@.update(l2_index_of(coords), Some(new_l2)),
        w1.terrain@ == w0.terrain@.update(i, entry),
        w1.meshes == w0.meshes,
        w1.seed == w0.seed,
    ensures
        w1.wf(),
        forall|d: ICoords|
            #[trigger] block_at(w1, d) == if d == coords {
                block
            } else {
                block_at(w0, d)
            },
{
    let k = l3_key_of(coords);
    lemma_indices_range(coords);
    assert(old_l3.wf());
    assert(new_l1.wf());
    assert(new_l2.wf());
    assert(entry.seg.wf());
    assert(w1.wf());
    lemma_find_l3_first(w0.terrain@, k, i);
    lemma_find_l3_update_same(w0.terrain@, i, entry);
    assert forall|d: ICoords|
        #[trigger] block_at(w1, d) == (if d == coords {
            block
        } else {
            block_at(w0, d)
        }) by {
        let k2 = l3_key_of(d);
        lemma_indices_range(d);
        if k2 != k {
            lemma_find_l3_update_other(w0.terrain@, i, entry, k2);
            assert(d != coords);
        } else {
            assert(find_l3(w1.terrain@, k2) == Some(entry.seg));
            assert(find_l3(w0.terrain@, k2) == Some(old_l3));
            if l2_index_of(d) != l2_index_of(coords) {
                assert(entry.seg.sub_segments@[l2_index_of(d)]
                    == old_l3.sub_segments@[l2_index_of(d)]);
                assert(d != coords);
            } else {
                if l1_index_of(d) != l1_index_of(coords) {
                    assert(new_l2.sub_segments@[l1_index_of(d)]
                        == old_l2.sub_segments@[l1_index_of(d)]);
                    assert(d != coords);
                    if !had_l2 {
                        assert(block_at(w0, d) == BlockType::NoBlock);
                        assert(old_l2.sub_segments@[l1_index_of(d)] is None);
                        assert(block_at(w1, d) == BlockType::NoBlock);
                    }
                } else {
                    if bl_index_of(d) != bl_index_of(coords) {
                        assert(new_l1.blocks@[bl_index_of(d)] == old_l1.blocks@[bl_index_of(d)]);
                        assert(d != coords) by {
                            if d == coords {
                                assert(bl_index_of(d) == bl_index_of(coords));
                            }
                        }
                        if !had_l1 {
                            assert(block_at(w0, d) == BlockType::NoBlock);
                            assert(block_at(w1, d) == BlockType::NoBlock);
                        }
                    } else {
                        lemma_indices_injective(coords, d);
                        assert(d == coords);
                        assert(block_at(w1, d) == block);
                    }
                }
            }
        }
    }
}

/// The fresh path of `set_block`: a new L3 entry whose only content is
/// the one written block changes exactly that block.
proof fn lemma_set_block_effect_fresh(
    w0: World,
    w1: World,
    coords: ICoords,
    block: BlockType,
    entry: L3Entry,
    old_l3: L3Segment,
    old_l2: L2Segment,
    old_l1: L1Segment,
    new_l2: L2Segment,
    new_l1: L1Segment,
)
    requires
        w0.wf(),
        forall|j: int| 0 <= j < w0.terrain@.len() ==> w0.terrain@[j].key != l3_key_of(coords),
        entry.key == l3_key_of(coords),
        old_l1.wf(),
        forall|q: int| 0 <= q < 32768 ==> old_l1.blocks@[q] == BlockType::NoBlock,
        forall|q: int| 0 <= q < 512 ==> old_l2.sub_segments@[q] is None,
        old_l2.wf(),
        forall|q: int| 0 <= q < 512 ==> old_l3.sub_segments@[q] is None,
        old_l3.wf(),
        new_l1.blocks@ == old_l1.blocks@.update(bl_index_of(coords), block),
        new_l2.sub_segments@ == old_l2.sub_segments@.update(l1_index_of(coords), Some(new_l1)),
        entry.seg.sub_segments@ == old_l3.sub_segments@.update(l2_index_of(coords), Some(new_l2)),
        w1.terrain@ == w0.terrain@.push(entry),
        w1.meshes == w0.meshes,
        w1.seed == w0.seed,
    ensures
        w1.wf(),
        forall|d: ICoords|
            #[trigger] block_at(w1, d) == if d == coords {
                block
            } else {
                block_at(w0, d)
            },
{
    let k = l3_key_of(coords);
    lemma_indices_range(coords);
    assert(new_l1.wf());
    assert(new_l2.wf());
    assert(entry.seg.wf());
    assert forall|a: int, b: int|
        0 <= a < b < w1.terrain@.len() implies (#[trigger] w1.terrain@[a]).key != (
    #[trigger] w1.terrain@[b]).key by {
        if b == w1.terrain@.len() - 1 {
            assert(w0.terrain@[a].key != k);
        }
    }
    assert(w1.wf());
    lemma_find_l3_absent(w0.terrain@, k);
    assert forall|d: ICoords|
        #[trigger] block_at(w1, d) == (if d == coords {
            block
        } else {
            block_at(w0, d)
        }) by {
        let k2 = l3_key_of(d);
        lemma_indices_range(d);
        lemma_find_l3_push(w0.terrain@, entry, k2);
        if k2 != k {
            assert(d != coords);
            assert(find_l3(w1.terrain@, k2) == find_l3(w0.terrain@, k2));
        } else {
            assert(block_at(w0, d) == BlockType::NoBlock);
            assert(find_l3(w1.terrain@, k2) == Some(entry.seg));
            if l2_index_of(d) != l2_index_of(coords) {
                assert(entry.seg.sub_segments@[l2_index_of(d)] is None);
            } else if l1_index_of(d) != l1_index_of(coords) {
                assert(new_l2.sub_segments@[l1_index_of(d)] is None);
            } else if bl_index_of(d) != bl_index_of(coords) {
                assert(new_l1.blocks@[bl_index_of(d)] == BlockType::NoBlock);
                assert(d != coords) by {
                    if d == coords {
                        assert(bl_index_of(d) == bl_index_of(coords));
                    }
                }
            } else {
                lemma_indices_injective(coords, d);
                assert(block_at(w1, d) == block);
            }
        }
    }
}

/// Whether `d` lies inside the leaf-segment box whose block (0, 0, 0)
/// is at `o`.
pub open spec fn in_leaf(o: ICoords, d: ICoords) -> bool {
    &&& o.x <= d.x < o.x + 32
    &&& o.y <= d.y < o.y + 32
    &&& o.z <= d.z < o.z + 32
}

/// Linear cell of `d` inside the leaf whose origin is `o`.
pub open spec fn leaf_cell(o: ICoords, d: ICoords) -> int {
    1024 * (d.x - o.x) + 32 * (d.y - o.y) + (d.z - o.z)
}

/// For a leaf-aligned origin, lying in the leaf box is the same as
/// sharing the whole segment chain, and the block cell inside the leaf
/// is the offset from the origin.
proof fn lemma_leaf_membership(o: ICoords, d: ICoords)
    requires
        o.x as int % 32 == 0,
        o.y as int % 32 == 0,
        o.z as int % 32 == 0,
    ensures
        in_leaf(o, d) <==> (l3_key_of(d) == l3_key_of(o) && l2_index_of(d) == l2_index_of(o)
            && l1_index_of(d) == l1_index_of(o)),
        in_leaf(o, d) ==> bl_index_of(d) == leaf_cell(o, d),
{
    if in_leaf(o, d) {
        lemma_aligned_decompose(o.x as int, d.x - o.x);
        lemma_aligned_decompose(o.y as int, d.y - o.y);
        lemma_aligned_decompose(o.z as int, d.z - o.z);
    }
    if l3_key_of(d) == l3_key_of(o) && l2_index_of(d) == l2_index_of(o) && l1_index_of(d)
        == l1_index_of(o) {
        crate::icoords::lemma_div_in_range(o.x as int, 2048);
        crate::icoords::lemma_div_in_range(o.y as int, 2048);
        crate::icoords::lemma_div_in_range(o.z as int, 2048);
        crate::icoords::lemma_div_in_range(d.x as int, 2048);
        crate::icoords::lemma_div_in_range(d.y as int, 2048);
        crate::icoords::lemma_div_in_range(d.z as int, 2048);
        lemma_loc_ranges(o.x as int);
        lemma_loc_ranges(o.y as int);
        lemma_loc_ranges(o.z as int);
        lemma_loc_ranges(d.x as int);
        lemma_loc_ranges(d.y as int);
        lemma_loc_ranges(d.z as int);
        lemma_digits8(
            l2_loc_of(d.x as int),
            l2_loc_of(d.y as int),
            l2_loc_of(d.z as int),
            l2_loc_of(o.x as int),
            l2_loc_of(o.y as int),
            l2_loc_of(o.z as int),
        );
        lemma_digits8(
            l1_loc_of(d.x as int),
            l1_loc_of(d.y as int),
            l1_loc_of(d.z as int),
            l1_loc_of(o.x as int),
            l1_loc_of(o.y as int),
            l1_loc_of(o.z as int),
        );
        lemma_recompose_axis(o.x as int);
        lemma_recompose_axis(o.y as int);
        lemma_recompose_axis(o.z as int);
        lemma_recompose_axis(d.x as int);
        lemma_recompose_axis(d.y as int);
        lemma_recompose_axis(d.z as int);
        assert(bl_loc_of(o.x as int) == 0);
        assert(bl_loc_of(o.y as int) == 0);
        assert(bl_loc_of(o.z as int) == 0);
        assert(d.x - o.x == bl_loc_of(d.x as int));
        assert(d.y - o.y == bl_loc_of(d.y as int));
        assert(d.z - o.z == bl_loc_of(d.z as int));
        lemma_loc_ranges(d.x as int);
        assert(in_leaf(o, d));
    }
}

/// What `generate_l1_segment` leaves behind: inside the target leaf a
/// sampled cell turns to grass and an unsampled cell keeps its block;
/// everything outside the leaf keeps its block.
pub open spec fn post_generate(w0: World, w1: World, o: ICoords, samples: Seq<bool>) -> bool {
    forall|d: ICoords|
        #[trigger] block_at(w1, d) == if in_leaf(o, d) && samples[leaf_cell(o, d)] {
            BlockType::Grass
        } else {
            block_at(w0, d)
        }
}

/// The leaf rebuilt by `generate_l1_segment`, described cell by cell.
proof fn lemma_generate_effect(
    w0: World,
    w1: World,
    coords: ICoords,
    samples: Seq<bool>,
    i: int,
    entry: L3Entry,
    old_l3: L3Segment,
    old_l2: L2Segment,
    old_l1: L1Segment,
    new_l2: L2Segment,
    new_l1: L1Segment,
    had_l2: bool,
    had_l1: bool,
)
    requires
        w0.wf(),
        coords.x as int % 32 == 0,
        coords.y as int % 32 == 0,
        coords.z as int % 32 == 0,
        samples.len() == 32768,
        0 <= i < w0.terrain@.len(),
        w0.terrain@[i].key == l3_key_of(coords),
        w0.terrain@[i].seg == old_l3,
        forall|j: int| 0 <= j < i ==> w0.terrain@[j].key != l3_key_of(coords),
        entry.key == l3_key_of(coords),
        old_l2.wf(),
        old_l1.wf(),
        had_l2 ==> old_l3.sub_segments@[l2_index_of(coords)] == Some(old_l2),
        !had_l2 ==> old_l3.sub_segments@[l2_index_of(coords)] is None && (forall|q: int|
            0 <= q < 512 ==> old_l2.sub_segments@[q] is None),
        had_l1 ==> old_l2.sub_segments@[l1_index_of(coords)] == Some(old_l1),
        !had_l1 ==> old_l2.sub_segments@[l1_index_of(coords)] is None && (forall|q: int|
            0 <= q < 32768 ==> old_l1.blocks@[q] == BlockType::NoBlock),
        had_l1 ==> had_l2,
        new_l1.blocks@.len() == 32768,
        forall|t: int|
            0 <= t < 32768 ==> #[trigger] new_l1.blocks@[t] == (if samples[t] {
                BlockType::Grass
            } else {
                old_l1.blocks@[t]
            }),
        new_l2.sub_segments@ == old_l2.sub_segments@.update(l1_index_of(coords), Some(new_l1)),
        entry.seg.sub_segments@ == old_l3.sub_segments@.update(l2_index_of(coords), Some(new_l2)),
        w1.terrain@ == w0.terrain@.update(i, entry),
        w1.meshes == w0.meshes,
        w1.seed == w0.seed,
    ensures
        w1.wf(),
        post_generate(w0, w1, coords, samples),
{
    let k = l3_key_of(coords);
    lemma_indices_range(coords);
    assert(old_l3.wf());
    assert(new_l1.wf());
    assert(new_l2.wf());
    assert(entry.seg.wf());
    assert(w1.wf());
    lemma_find_l3_first(w0.terrain@, k, i);
    lemma_find_l3_update_same(w0.terrain@, i, entry);
    assert forall|d: ICoords|
        #[trigger] block_at(w1, d) == (if in_leaf(coords, d) && samples[leaf_cell(coords, d)] {
            BlockType::Grass
        } else {
            block_at(w0, d)
        }) by {
        let k2 = l3_key_of(d);
        lemma_indices_range(d);
        lemma_leaf_membership(coords, d);
        if k2 != k {
            lemma_find_l3_update_other(w0.terrain@, i, entry, k2);
        } else {
            assert(find_l3(w1.terrain@, k2) == Some(entry.seg));
            assert(find_l3(w0.terrain@, k2) == Some(old_l3));
            if l2_index_of(d) != l2_index_of(coords) {
                assert(entry.seg.sub_segments@[l2_index_of(d)]
                    == old_l3.sub_segments@[l2_index_of(d)]);
            } else {
                if l1_index_of(d) != l1_index_of(coords) {
                    assert(new_l2.sub_segments@[l1_index_of(d)]
                        == old_l2.sub_segments@[l1_index_of(d)]);
                    if !had_l2 {
                        assert(block_at(w0, d) == BlockType::NoBlock);
                        assert(block_at(w1, d) == BlockType::NoBlock);
                    }
                } else {
                    assert(in_leaf(coords, d));
                    assert(bl_index_of(d) == leaf_cell(coords, d));
                    assert(new_l1.blocks@[bl_index_of(d)] == (if samples[leaf_cell(coords, d)] {
                        BlockType::Grass
                    } else {
                        old_l1.blocks@[bl_index_of(d)]
                    }));
                    if !had_l1 {
                        assert(block_at(w0, d) == BlockType::NoBlock);
                        assert(old_l1.blocks@[bl_index_of(d)] == BlockType::NoBlock);
                    }
                }
            }
        }
    }
}

/// The fresh-entry path of `lemma_generate_effect`.
proof fn lemma_generate_effect_fresh(
    w0: World,
    w1: World,
    coords: ICoords,
    samples: Seq<bool>,
    entry: L3Entry,
    old_l3: L3Segment,
    old_l2: L2Segment,
    old_l1: L1Segment,
    new_l2: L2Segment,
    new_l1: L1Segment,
)
    requires
        w0.wf(),
        coords.x as int % 32 == 0,
        coords.y as int % 32 == 0,
        coords.z as int % 32 == 0,
        samples.len() == 32768,
        forall|j: int| 0 <= j < w0.terrain@.len() ==> w0.terrain@[j].key != l3_key_of(coords),
        entry.key == l3_key_of(coords),
        old_l1.wf(),
        forall|q: int| 0 <= q < 32768 ==> old_l1.blocks@[q] == BlockType::NoBlock,
        forall|q: int| 0 <= q < 512 ==> old_l2.sub_segments@[q] is None,
        old_l2.wf(),
        forall|q: int| 0 <= q < 512 ==> old_l3.sub_segments@[q] is None,
        old_l3.wf(),
        new_l1.blocks@.len() == 32768,
        forall|t: int|
            0 <= t < 32768 ==> #[trigger] new_l1.blocks@[t] == (if samples[t] {
                BlockType::Grass
            } else {
                old_l1.blocks@[t]
            }),
        new_l2.sub_segments@ == old_l2.sub_segments@.update(l1_index_of(coords), Some(new_l1)),
        entry.seg.sub_segments@ == old_l3.sub_segments@.update(l2_index_of(coords), Some(new_l2)),
        w1.terrain@ == w0.terrain@.push(entry),
        w1.meshes == w0.meshes,
        w1.seed == w0.seed,
    ensures
        w1.wf(),
        post_generate(w0, w1, coords, samples),
{
    let k = l3_key_of(coords);
    lemma_indices_range(coords);
    assert(new_l1.wf());
    assert(new_l2.wf());
    assert(entry.seg.wf());
    assert forall|a: int, b: int|
        0 <= a < b < w1.terrain@.len() implies (#[trigger] w1.terrain@[a]).key != (
    #[trigger] w1.terrain@[b]).key by {
        if b == w1.terrain@.len() - 1 {
            assert(w0.terrain@[a].key != k);
        }
    }
    assert(w1.wf());
    lemma_find_l3_absent(w0.terrain@, k);
    assert forall|d: ICoords|
        #[trigger] block_at(w1, d) == (if in_leaf(coords, d) && samples[leaf_cell(coords, d)] {
            BlockType::Grass
        } else {
            block_at(w0, d)
        }) by {
        let k2 = l3_key_of(d);
        lemma_indices_range(d);
        lemma_leaf_membership(coords, d);
        lemma_find_l3_push(w0.terrain@, entry, k2);
        if k2 != k {
            assert(find_l3(w1.terrain@, k2) == find_l3(w0.terrain@, k2));
        } else {
            assert(block_at(w0, d) == BlockType::NoBlock);
            assert(find_l3(w1.terrain@, k2) == Some(entry.seg));
            if l2_index_of(d) != l2_index_of(coords) {
                assert(entry.seg.sub_segments@[l2_index_of(d)] is None);
            } else if l1_index_of(d) != l1_index_of(coords) {
                assert(new_l2.sub_segments@[l1_index_of(d)] is None);
            } else {
                assert(in_leaf(coords, d));
                assert(bl_index_of(d) == leaf_cell(coords, d));
                assert(old_l1.blocks@[bl_index_of(d)] == BlockType::NoBlock);
            }
        }
    }
}

impl World {
    /// Populates the leaf segment whose block (0, 0, 0) sits at the
    /// leaf-aligned origin `coords`, creating missing levels on the way
    /// down. `samples` holds one threshold decision per leaf cell, in
    /// linear cell order: a true sample turns the cell to grass, a
    /// false one leaves the cell as it was. Handing this function the
    /// same origin, samples and starting terrain always yields the same
    /// terrain: see `lemma_generate_deterministic`.
    pub fn generate_l1_segment(&mut self, coords: ICoords, samples: &Vec<bool>)
        requires
            old(self).wf(),
            coords.x as int % 32 == 0,
            coords.y as int % 32 == 0,
            coords.z as int % 32 == 0,
            samples@.len() == 32768,
        ensures
            final(self).wf(),
            final(self).meshes == old(self).meshes,
            final(self).seed == old(self).seed,
            post_generate(*old(self), *final(self), coords, samples@),
    {
        let key = coords.l3_glob();
        proof {
            assert(key == l3_key_of(coords));
        }
        let l2l = coords.l2_loc();
        let l2i = (64 * l2l.x + 8 * l2l.y + l2l.z) as usize;
        let l1l = coords.l1_loc();
        let l1i = (64 * l1l.x + 8 * l1l.y + l1l.z) as usize;
        let found = self.find_entry(key);
        match found {
            Some(i) => {
                proof {
                    lemma_find_l3_first(self.terrain@, key, i as int);
                }
                let ghost old_terrain = self.terrain@;
                let ghost old_l3 = self.terrain@[i as int].seg;
                let mut entry = self.terrain.remove(i);
                let l2opt = entry.seg.sub_segments.remove(l2i);
                let ghost had_l2 = l2opt is Some;
                let mut l2seg = match l2opt {
                    Some(s2) => s2,
                    None => L2Segment::default(),
                };
                let ghost old_l2 = l2seg;
                let l1opt = l2seg.sub_segments.remove(l1i);
                let ghost had_l1 = l1opt is Some;
                let mut l1seg = match l1opt {
                    Some(s1) => s1,
                    None => L1Segment::default(),
                };
                let ghost old_l1 = l1seg;
                fill_leaf(&mut l1seg, samples);
                let ghost new_l1 = l1seg;
                l2seg.sub_segments.insert(l1i, Some(l1seg));
                let ghost new_l2 = l2seg;
                entry.seg.sub_segments.insert(l2i, Some(l2seg));
                self.terrain.insert(i, entry);
                proof {
                    lemma_remove_insert(old_l2.sub_segments@, l1i as int, Some(new_l1));
                    lemma_remove_insert(old_l3.sub_segments@, l2i as int, Some(new_l2));
                    lemma_remove_insert(old_terrain, i as int, entry);
                    lemma_generate_effect(
                        *old(self),
                        *self,
                        coords,
                        samples@,
                        i as int,
                        entry,
                        old_l3,
                        old_l2,
                        old_l1,
                        new_l2,
                        new_l1,
                        had_l2,
                        had_l1,
                    );
                }
            },
            None => {
                let ghost old_terrain = self.terrain@;
                let mut l1seg = L1Segment::default();
                let ghost old_l1 = l1seg;
                fill_leaf(&mut l1seg, samples);
                let ghost new_l1 = l1seg;
                let mut l2seg = L2Segment::default();
                let ghost old_l2 = l2seg;
                l2seg.sub_segments[l1i] = Some(l1seg);
                let ghost new_l2 = l2seg;
                let mut l3seg = L3Segment::default();
                let ghost old_l3 = l3seg;
                l3seg.sub_segments[l2i] = Some(l2seg);
                let entry = L3Entry { key, seg: l3seg };
                self.terrain.push(entry);
                proof {
                    lemma_generate_effect_fresh(
                        *old(self),
                        *self,
                        coords,
                        samples@,
                        entry,
                        old_l3,
                        old_l2,
                        old_l1,
                        new_l2,
                        new_l1,
                    );
                }
            },
        }
    }
}

/// Applies the threshold decisions to a leaf: a sampled cell turns to
/// grass, the rest keep their blocks.
fn fill_leaf(l1seg: &mut L1Segment, samples: &Vec<bool>)
    requires
        old(l1seg).wf(),
        samples@.len() == 32768,
    ensures
        final(l1seg).wf(),
        forall|t: int|
            0 <= t < 32768 ==> #[trigger] final(l1seg).blocks@[t] == (if samples@[t] {
                BlockType::Grass
            } else {
                old(l1seg).blocks@[t]
            }),
{
    let mut q: usize = 0;
    while q < 32768
        invariant
            l1seg.blocks@.len() == 32768,
            samples@.len() == 32768,
            q <= 32768,
            forall|t: int|
                0 <= t < q ==> #[trigger] l1seg.blocks@[t] == (if samples@[t] {
                    BlockType::Grass
                } else {
                    old(l1seg).blocks@[t]
                }),
            forall|t: int| q <= t < 32768 ==> l1seg.blocks@[t] == old(l1seg).blocks@[t],
        decreases 32768 - q,
    {
        if samples[q] {
            l1seg.blocks[q] = BlockType::Grass;
        }
        q = q + 1;
    }
}

/// Determinism of terrain generation: the terrain after populating a
/// leaf is a pure function of the terrain before, the origin and the
/// samples. Two generation runs from block-wise equal worlds, with the
/// same origin and the same samples, leave block-wise equal worlds.
pub proof fn lemma_generate_deterministic(
    wa0: World,
    wa1: World,
    wb0: World,
    wb1: World,
    coords: ICoords,
    samples: Seq<bool>,
)
    requires
        post_generate(wa0, wa1, coords, samples),
        post_generate(wb0, wb1, coords, samples),
        forall|d: ICoords| #[trigger] block_at(wa0, d) == block_at(wb0, d),
    ensures
        forall|d: ICoords| #[trigger] block_at(wa1, d) == block_at(wb1, d),
{
}

/// A coordinate shifted by a constant per axis.
pub open spec fn shifted(o: ICoords, dx: int, dy: int, dz: int) -> ICoords {
    ICoords { x: (o.x + dx) as i64, y: (o.y + dy) as i64, z: (o.z + dz) as i64 }
}

/// The six neighbour leaves of the leaf whose origin is `o`, in the
/// fixed face order, as the world currently holds them.
pub open spec fn nbs_at(w: World, o: ICoords) -> Seq<Option<L1Segment>> {
    seq![
        leaf_at(w, shifted(o, 32, 0, 0)),
        leaf_at(w, shifted(o, -32, 0, 0)),
        leaf_at(w, shifted(o, 0, 32, 0)),
        leaf_at(w, shifted(o, 0, -32, 0)),
        leaf_at(w, shifted(o, 0, 0, 32)),
        leaf_at(w, shifted(o, 0, 0, -32)),
    ]
}

/// Whether `m` is exactly the mesh of the (present) leaf at origin `o`,
/// meshed against the neighbours the world holds.
pub open spec fn mesh_ok(w: World, o: ICoords, m: SegmentMesh) -> bool {
    let l1 = leaf_at(w, o)->Some_0;
    let nbs = nbs_at(w, o);
    &&& leaf_at(w, o) is Some
    &&& m.offset == o
    &&& m.vertices@ == vertex_list_upto(l1, nbs, o, 262144)
    &&& m.indices@.len() == emit(l1, nbs).len()
    &&& forall|j: int|
        0 <= j < m.indices@.len() ==> m.indices@[j] == used_below(
            l1,
            nbs,
            #[trigger] emit(l1, nbs)[j] as int,
        ) as u32
}

/// Block origin of the leaf in slot `i1` of the L2 segment in slot `i2`
/// of the L3 segment at `key`.
pub open spec fn l1_origin(key: ICoords, i2: int, i1: int) -> ICoords {
    ICoords {
        x: (2048 * key.x + 256 * (i2 / 64) + 32 * (i1 / 64)) as i64,
        y: (2048 * key.y + 256 * ((i2 / 8) % 8) + 32 * ((i1 / 8) % 8)) as i64,
        z: (2048 * key.z + 256 * (i2 % 8) + 32 * (i1 % 8)) as i64,
    }
}

/// Origins of the present leaves among the first `n` slots of one L2
/// segment, in slot order.
pub open spec fn leaves_in_l2(key: ICoords, i2: int, l2: L2Segment, n: int) -> Seq<ICoords>
    decreases n,
{
    if n <= 0 {
        Seq::empty()
    } else {
        leaves_in_l2(key, i2, l2, n - 1) + if l2.sub_segments@[n - 1] is Some {
            seq![l1_origin(key, i2, n - 1)]
        } else {
            Seq::empty()
        }
    }
}

/// Origins of the present leaves under the first `n` slots of one L3
/// segment, in slot order.
pub open spec fn leaves_in_l3(key: ICoords, l3: L3Segment, n: int) -> Seq<ICoords>
    decreases n,
{
    if n <= 0 {
        Seq::empty()
    } else {
        leaves_in_l3(key, l3, n - 1) + match l3.sub_segments@[n - 1] {
            Some(l2) => leaves_in_l2(key, n - 1, l2, 512),
            None => Seq::empty(),
        }
    }
}

/// Origins of the present leaves under the first `n` entries of the
/// sparse top level, in entry then slot order.
pub open spec fn leaves_in_terrain(s: Seq<L3Entry>, n: int) -> Seq<ICoords>
    decreases n,
{
    if n <= 0 {
        Seq::empty()
    } else {
        leaves_in_terrain(s, n - 1) + leaves_in_l3(s[n - 1].key, s[n - 1].seg, 512)
    }
}

/// Origins of every present leaf of the world, in a fixed traversal
/// order.
pub open spec fn world_leaves(w: World) -> Seq<ICoords> {
    leaves_in_terrain(w.terrain@, w.terrain@.len() as int)
}

/// Every key of the sparse top level is small enough that leaf origins
/// and mesh positions fit comfortably in machine integers.
pub open spec fn keys_in_reach(w: World) -> bool {
    forall|i: int|
        0 <= i < w.terrain@.len() ==> {
            let k = (#[trigger] w.terrain@[i]).key;
            -0x4000_0000 <= k.x <= 0x4000_0000 && -0x4000_0000 <= k.y <= 0x4000_0000
                && -0x4000_0000 <= k.z <= 0x4000_0000
        }
}

/// A leaf origin built from its three slot indices decomposes back to
/// exactly those indices, and is leaf-aligned.
proof fn lemma_origin_chain(key: ICoords, i2: int, i1: int)
    requires
        0 <= i2 < 512,
        0 <= i1 < 512,
        -0x4000_0000 <= key.x <= 0x4000_0000,
        -0x4000_0000 <= key.y <= 0x4000_0000,
        -0x4000_0000 <= key.z <= 0x4000_0000,
    ensures
        l3_key_of(l1_origin(key, i2, i1)) == key,
        l2_index_of(l1_origin(key, i2, i1)) == i2,
        l1_index_of(l1_origin(key, i2, i1)) == i1,
        l1_origin(key, i2, i1).x as int % 32 == 0,
        l1_origin(key, i2, i1).y as int % 32 == 0,
        l1_origin(key, i2, i1).z as int % 32 == 0,
        -0x2_0000_0000_0000 <= l1_origin(key, i2, i1).x <= 0x2_0000_0000_0000,
        -0x2_0000_0000_0000 <= l1_origin(key, i2, i1).y <= 0x2_0000_0000_0000,
        -0x2_0000_0000_0000 <= l1_origin(key, i2, i1).z <= 0x2_0000_0000_0000,
{
    lemma_i2_digits(i2);
    lemma_i2_digits(i1);
    lemma_origin_axis(key.x as int, i2 / 64, i1 / 64);
    lemma_origin_axis(key.y as int, (i2 / 8) % 8, (i1 / 8) % 8);
    lemma_origin_axis(key.z as int, i2 % 8, i1 % 8);
}

/// Base-8 digit decomposition of a slot index.
proof fn lemma_i2_digits(i2: int)
    requires
        0 <= i2 < 512,
    ensures
        0 <= i2 / 64 < 8,
        0 <= (i2 / 8) % 8 < 8,
        0 <= i2 % 8 < 8,
        i2 == 64 * (i2 / 64) + 8 * ((i2 / 8) % 8) + i2 % 8,
{
    lemma_fundamental_div_mod(i2, 8);
    lemma_mod_division_less_than_divisor(i2, 8);
    lemma_div_pos_is_pos(i2, 8);
    lemma_fundamental_div_mod(i2 / 8, 8);
    lemma_mod_division_less_than_divisor(i2 / 8, 8);
    lemma_div_pos_is_pos(i2 / 8, 8);
    vstd::arithmetic::div_mod::lemma_div_denominator(i2, 8, 8);
}

/// One axis of `lemma_origin_chain`: the component
/// `2048 * k + 256 * a2 + 32 * a1` has L3 cell `k`, L2 cell `a2`,
/// leaf cell `a1` and block cell 0.
proof fn lemma_origin_axis(k: int, a2: int, a1: int)
    requires
        0 <= a2 < 8,
        0 <= a1 < 8,
        -0x4000_0000 <= k <= 0x4000_0000,
    ensures
        l3_glob_of(2048 * k + 256 * a2 + 32 * a1) == k,
        l2_loc_of(2048 * k + 256 * a2 + 32 * a1) == a2,
        l1_loc_of(2048 * k + 256 * a2 + 32 * a1) == a1,
        bl_loc_of(2048 * k + 256 * a2 + 32 * a1) == 0,
{
    let v = 2048 * k + 256 * a2 + 32 * a1;
    lemma_fundamental_div_mod_converse_div(v, 2048, k, 256 * a2 + 32 * a1);
    assert(v == (8 * k + a2) * 256 + 32 * a1);
    lemma_fundamental_div_mod_converse_div(v, 256, 8 * k + a2, 32 * a1);
    lemma_fundamental_div_mod_converse_mod(8 * k + a2, 8, k, a2);
    assert(v == (64 * k + 8 * a2 + a1) * 32 + 0);
    lemma_fundamental_div_mod_converse_div(v, 32, 64 * k + 8 * a2 + a1, 0);
    lemma_fundamental_div_mod_converse_mod(v, 32, 64 * k + 8 * a2 + a1, 0);
    lemma_fundamental_div_mod_converse_mod(64 * k + 8 * a2 + a1, 8, 8 * k + a2, a1);
}

impl World {
    /// Builds the mesh of every present leaf, in a fixed traversal
    /// order over the sparse top level, handing each leaf its six
    /// current neighbours (absent ones mesh as exposed boundaries).
    fn compute_meshes(&self) -> (out: Vec<SegmentMesh>)
        requires
            self.wf(),
            keys_in_reach(*self),
        ensures
            out@.len() == world_leaves(*self).len(),
            forall|j: int|
                0 <= j < out@.len() ==> mesh_ok(*self, #[trigger] world_leaves(*self)[j], out@[j]),
    {
        let mut out: Vec<SegmentMesh> = Vec::new();
        let mut e: usize = 0;
        while e < self.terrain.len()
            invariant
                self.wf(),
                keys_in_reach(*self),
                e <= self.terrain@.len(),
                out@.len() == leaves_in_terrain(self.terrain@, e as int).len(),
                forall|j: int|
                    0 <= j < out@.len() ==> mesh_ok(
                        *self,
                        #[trigger] leaves_in_terrain(self.terrain@, e as int)[j],
                        out@[j],
                    ),
            decreases self.terrain@.len() - e,
        {
            let key = self.terrain[e].key;
            let ghost l3v = self.terrain@[e as int].seg;
            let ghost pre1 = leaves_in_terrain(self.terrain@, e as int);
            proof {
                assert forall|j: int| 0 <= j < e implies self.terrain@[j].key != key by {}
                lemma_find_l3_first(self.terrain@, key, e as int);
            }
            let mut i2: usize = 0;
            while i2 < 512
                invariant
                    self.wf(),
                    keys_in_reach(*self),
                    e < self.terrain@.len(),
                    key == self.terrain@[e as int].key,
                    l3v == self.terrain@[e as int].seg,
                    find_l3(self.terrain@, key) == Some(l3v),
                    pre1 == leaves_in_terrain(self.terrain@, e as int),
                    i2 <= 512,
                    out@.len() == pre1.len() + leaves_in_l3(key, l3v, i2 as int).len(),
                    forall|j: int|
                        0 <= j < out@.len() ==> mesh_ok(
                            *self,
                            #[trigger] (pre1 + leaves_in_l3(key, l3v, i2 as int))[j],
                            out@[j],
                        ),
                decreases 512 - i2,
            {
                let ghost pre2 = pre1 + leaves_in_l3(key, l3v, i2 as int);
                match &self.terrain[e].seg.sub_segments[i2] {
                    None => {
                        proof {
                            assert(pre1 + leaves_in_l3(key, l3v, i2 as int + 1) =~= pre2);
                        }
                    },
                    Some(l2) => {
                        let mut i1: usize = 0;
                        while i1 < 512
                            invariant
                                self.wf(),
                                keys_in_reach(*self),
                                e < self.terrain@.len(),
                                key == self.terrain@[e as int].key,
                                l3v == self.terrain@[e as int].seg,
                                find_l3(self.terrain@, key) == Some(l3v),
                                i2 < 512,
                                l3v.sub_segments@[i2 as int] == Some(*l2),
                                l2.wf(),
                                pre2 == pre1 + leaves_in_l3(key, l3v, i2 as int),
                                i1 <= 512,
                                out@.len() == pre2.len() + leaves_in_l2(
                                    key,
                                    i2 as int,
                                    *l2,
                                    i1 as int,
                                ).len(),
                                forall|j: int|
                                    0 <= j < out@.len() ==> mesh_ok(
                                        *self,
                                        #[trigger] (pre2 + leaves_in_l2(
                                            key,
                                            i2 as int,
                                            *l2,
                                            i1 as int,
                                        ))[j],
                                        out@[j],
                                    ),
                            decreases 512 - i1,
                        {
                            let ghost cur = pre2 + leaves_in_l2(key, i2 as int, *l2, i1 as int);
                            match &l2.sub_segments[i1] {
                                None => {
                                    proof {
                                        assert(pre2 + leaves_in_l2(
                                            key,
                                            i2 as int,
                                            *l2,
                                            i1 as int + 1,
                                        ) =~= cur);
                                    }
                                },
                                Some(l1) => {
                                    proof {
                                        lemma_origin_chain(key, i2 as int, i1 as int);
                                    }
                                    let i2x = (i2 / 64) as i64;
                                    let i2y = ((i2 / 8) % 8) as i64;
                                    let i2z = (i2 % 8) as i64;
                                    let i1x = (i1 / 64) as i64;
                                    let i1y = ((i1 / 8) % 8) as i64;
                                    let i1z = (i1 % 8) as i64;
                                    let ox = 2048 * key.x + 256 * i2x + 32 * i1x;
                                    let oy = 2048 * key.y + 256 * i2y + 32 * i1y;
                                    let oz = 2048 * key.z + 256 * i2z + 32 * i1z;
                                    let origin = ICoords { x: ox, y: oy, z: oz };
                                    let ghost o = l1_origin(key, i2 as int, i1 as int);
                                    proof {
                                        assert(origin == o);
                                        assert(leaf_at(*self, o) == Some(*l1));
                                    }
                                    let q0 = self.l1_segment(ICoords { x: ox + 32, y: oy, z: oz });
                                    let q1 = self.l1_segment(ICoords { x: ox - 32, y: oy, z: oz });
                                    let q2 = self.l1_segment(ICoords { x: ox, y: oy + 32, z: oz });
                                    let q3 = self.l1_segment(ICoords { x: ox, y: oy - 32, z: oz });
                                    let q4 = self.l1_segment(ICoords { x: ox, y: oy, z: oz + 32 });
                                    let q5 = self.l1_segment(ICoords { x: ox, y: oy, z: oz - 32 });
                                    let nb = [q0, q1, q2, q3, q4, q5];
                                    proof {
                                        assert(nb_view(nb) =~= nbs_at(*self, o));
                                        assert(neighbours_wf(nbs_at(*self, o)));
                                    }
                                    let (vertices, indices) = mesh_l1_segment(l1, nb, origin);
                                    let m = SegmentMesh { offset: origin, vertices, indices };
                                    out.push(m);
                                    proof {
                                        assert(mesh_ok(*self, o, m));
                                        assert(pre2 + leaves_in_l2(
                                            key,
                                            i2 as int,
                                            *l2,
                                            i1 as int + 1,
                                        ) =~= cur + seq![o]);
                                        assert forall|j: int|
                                            0 <= j < out@.len() implies mesh_ok(
                                            *self,
                                            (cur + seq![o])[j],
                                            out@[j],
                                        ) by {
                                            if j < cur.len() {
                                                assert((cur + seq![o])[j] == cur[j]);
                                            } else {
                                                assert((cur + seq![o])[j] == o);
                                            }
                                        }
                                    }
                                },
                            }
                            i1 = i1 + 1;
                        }
                        proof {
                            assert(pre1 + leaves_in_l3(key, l3v, i2 as int + 1) =~= pre2
                                + leaves_in_l2(key, i2 as int, *l2, 512));
                        }
                    },
                }
                i2 = i2 + 1;
            }
            proof {
                assert(leaves_in_terrain(self.terrain@, e as int + 1) =~= pre1 + leaves_in_l3(
                    key,
                    l3v,
                    512,
                ));
            }
            e = e + 1;
        }
        out
    }

    /// Rebuilds the world's mesh list: one mesh per present leaf, each
    /// meshed against the neighbours the terrain currently holds. The
    /// terrain itself is untouched.
    pub fn generate_meshes(&mut self)
        requires
            old(self).wf(),
            keys_in_reach(*old(self)),
        ensures
            final(self).wf(),
            final(self).terrain == old(self).terrain,
            final(self).seed == old(self).seed,
            final(self).meshes@.len() == world_leaves(*old(self)).len(),
            forall|j: int|
                0 <= j < final(self).meshes@.len() ==> mesh_ok(
                    *old(self),
                    #[trigger] world_leaves(*old(self))[j],
                    final(self).meshes@[j],
                ),
    {
        let m = self.compute_meshes();
        self.meshes = m;
    }

    /// Read-only view of the meshes built by `generate_meshes`.
    pub fn mesh_objects(&self) -> (r: &Vec<SegmentMesh>)
        ensures
            r == &self.meshes,
    {
        &self.meshes
    }
}
} // verus!
