//! The six faces of a block, their traversal order, their direction
//! vectors, and the triangle-corner tables used when a face is emitted.
//!
//! Corners of a block are numbered 0 to 7; bit 2 is the x offset, bit 1
//! the y offset, bit 0 the z offset. Each face is covered by two
//! triangles, six corner references in all, with a fixed winding.

use vstd::prelude::*;
use crate::icoords::ICoords;

verus! {

/// One face of a block, named by the axis direction it looks toward.
#[derive(Clone, Copy, Debug, PartialEq, Eq, Structural)]
pub enum Face {
    XPos,
    XNeg,
    YPos,
    YNeg,
    ZPos,
    ZNeg,
}

/// Position of a face in the fixed traversal order
/// `[XPos, XNeg, YPos, YNeg, ZPos, ZNeg]`.
pub open spec fn face_num(f: Face) -> int {
    match f {
        Face::XPos => 0,
        Face::XNeg => 1,
        Face::YPos => 2,
        Face::YNeg => 3,
        Face::ZPos => 4,
        Face::ZNeg => 5,
    }
}

/// x component of the outward direction of face number `k`.
pub open spec fn dir_x(k: int) -> int {
    if k == 0 {
        1
    } else if k == 1 {
        -1
    } else {
        0
    }
}

/// y component of the outward direction of face number `k`.
pub open spec fn dir_y(k: int) -> int {
    if k == 2 {
        1
    } else if k == 3 {
        -1
    } else {
        0
    }
}

/// z component of the outward direction of face number `k`.
pub open spec fn dir_z(k: int) -> int {
    if k == 4 {
        1
    } else if k == 5 {
        -1
    } else {
        0
    }
}

/// The six corner numbers, two triangles, that cover face number `k`.
pub open spec fn face_index_table(k: int) -> Seq<u32> {
    if k == 0 {
        seq![4u32, 5u32, 6u32, 5u32, 7u32, 6u32]
    } else if k == 1 {
        seq![1u32, 0u32, 2u32, 1u32, 2u32, 3u32]
    } else if k == 2 {
        seq![2u32, 6u32, 3u32, 3u32, 6u32, 7u32]
    } else if k == 3 {
        seq![0u32, 1u32, 4u32, 1u32, 5u32, 4u32]
    } else if k == 4 {
        seq![1u32, 3u32, 5u32, 3u32, 7u32, 5u32]
    } else {
        seq![0u32, 4u32, 2u32, 2u32, 4u32, 6u32]
    }
}

impl Face {
    /// All six faces, in the fixed traversal order.
    pub fn all() -> (r: [Face; 6])
        ensures
            r@ =~= seq![Face::XPos, Face::XNeg, Face::YPos, Face::YNeg, Face::ZPos, Face::ZNeg],
            forall|k: int| 0 <= k < 6 ==> face_num(#[trigger] r@[k]) == k,
    {
        [Face::XPos, Face::XNeg, Face::YPos, Face::YNeg, Face::ZPos, Face::ZNeg]
    }

    /// The outward unit direction of this face.
    pub fn numeric(&self) -> (r: ICoords)
        ensures
            r.x == dir_x(face_num(*self)),
            r.y == dir_y(face_num(*self)),
            r.z == dir_z(face_num(*self)),
    {
        match self {
            Face::XPos => ICoords { x: 1, y: 0, z: 0 },
            Face::XNeg => ICoords { x: -1, y: 0, z: 0 },
            Face::YPos => ICoords { x: 0, y: 1, z: 0 },
            Face::YNeg => ICoords { x: 0, y: -1, z: 0 },
            Face::ZPos => ICoords { x: 0, y: 0, z: 1 },
            Face::ZNeg => ICoords { x: 0, y: 0, z: -1 },
        }
    }

    /// The six corner numbers of the two triangles covering this face.
    pub fn indices(&self) -> (r: [u32; 6])
        ensures
            r@ =~= face_index_table(face_num(*self)),
    {
        match self {
            Face::XPos => [4, 5, 6, 5, 7, 6],
            Face::XNeg => [1, 0, 2, 1, 2, 3],
            Face::YPos => [2, 6, 3, 3, 6, 7],
            Face::YNeg => [0, 1, 4, 1, 5, 4],
            Face::ZPos => [1, 3, 5, 3, 7, 5],
            Face::ZNeg => [0, 4, 2, 2, 4, 6],
        }
    }
}

} // verus!
