//! The meshing engine: turns one leaf segment, plus its up to six
//! neighbouring leaf segments, into a compacted vertex array and a
//! triangle index array describing exactly the externally visible faces.
//!
//! The solid/empty state of each (x, y) column of the leaf is packed into
//! one 32-bit word, bit z for block (x, y, z); this relies on the leaf
//! z-extent being exactly 32, a hard invariant of the chosen leaf size.
//! Face exposure is then computed per column with bitwise operations.
//! An absent neighbour is never assumed solid: missing data always
//! yields an exposed face, so a segment meshes the same whatever has
//! been generated around it.

use vstd::prelude::*;
use vstd::arithmetic::div_mod::{
    lemma_fundamental_div_mod, lemma_mod_division_less_than_divisor, lemma_div_pos_is_pos,
    lemma_fundamental_div_mod_converse_div, lemma_fundamental_div_mod_converse_mod,
};
use crate::block::BlockType;
use crate::face::{Face, dir_x, dir_y, dir_z, face_index_table, face_num};
use crate::icoords::ICoords;
use crate::segment::L1Segment;

verus! {

/// Whether bit `z` of the word `w` is set.
pub open spec fn bit32(w: u32, z: u32) -> bool {
    (w >> z) & 1 == 1
}

/// Whether the block at cell `(x, y, z)` of the leaf is inside the leaf
/// and solid.
pub open spec fn solid_at(seg: L1Segment, x: int, y: int, z: int) -> bool {
    &&& 0 <= x < 32
    &&& 0 <= y < 32
    &&& 0 <= z < 32
    &&& seg.blocks@[1024 * x + 32 * y + z].is_solid_spec()
}

/// A packed solids plane for `seg`: word `col` of `s` holds, in bit `z`,
/// the solidity of block `(col / 32, col % 32, z)`.
pub open spec fn solids_ok(seg: L1Segment, s: Seq<u32>) -> bool {
    &&& s.len() == 1024
    &&& forall|col: int, z: u32|
        0 <= col < 1024 && z < 32 ==> (#[trigger] bit32(s[col], z) == solid_at(
            seg,
            col / 32,
            col % 32,
            z as int,
        ))
}

/// Setting bit `z` of a word whose bits at and above `z` are clear: the
/// lower bits keep their value, bit `z` becomes `b`, and everything
/// above `z` stays clear.
proof fn lemma_push_bit(w: u32, z: u32, b: u32)
    by (bit_vector)
    requires
        z < 32,
        b <= 1,
        w >> z == 0,
    ensures
        forall|j: u32| j < z ==> ((w | (b << z)) >> j) & 1 == (w >> j) & 1,
        ((w | (b << z)) >> z) & 1 == b,
        z < 31 ==> (w | (b << z)) >> (z + 1) == 0,
{
}

/// Bits of `s & !a`: set exactly where `s` has the bit and `a` does not.
proof fn lemma_and_not(s: u32, a: u32)
    by (bit_vector)
    ensures
        forall|j: u32|
            j < 32 ==> ((((s & !a) >> j) & 1 == 1) <==> (((s >> j) & 1 == 1) && !((a >> j) & 1
                == 1))),
{
}

/// The all-clear word has no bit set.
proof fn lemma_zero_word()
    by (bit_vector)
    ensures
        forall|j: u32| j < 32 ==> (0u32 >> j) & 1 == 0 && 0u32 >> j == 0,
{
}

/// Every present neighbour segment is well formed. The fixed neighbour
/// order is `[XPos, XNeg, YPos, YNeg, ZPos, ZNeg]`.
pub open spec fn neighbours_wf(nb: Seq<Option<L1Segment>>) -> bool {
    &&& nb.len() == 6
    &&& forall|k: int| 0 <= k < 6 ==> ((#[trigger] nb[k]) matches Some(n) ==> n.wf())
}

/// Solidity of the cell one step outward of `(x, y, z)` in face direction
/// `k`, as the mesher sees it: a step that stays inside the leaf reads
/// the leaf; a step outside reads the matching neighbour at the wrapped
/// cell, and an absent neighbour always reads as empty.
pub open spec fn step_solid(
    seg: L1Segment,
    nb: Seq<Option<L1Segment>>,
    k: int,
    x: int,
    y: int,
    z: int,
) -> bool {
    let nx = x + dir_x(k);
    let ny = y + dir_y(k);
    let nz = z + dir_z(k);
    if 0 <= nx < 32 && 0 <= ny < 32 && 0 <= nz < 32 {
        solid_at(seg, nx, ny, nz)
    } else {
        match nb[k] {
            Some(n) => solid_at(n, nx % 32, ny % 32, nz % 32),
            None => false,
        }
    }
}

/// Whether the face `k` of block `(x, y, z)` is rendered: the block is
/// solid and whatever lies one step outward is not.
pub open spec fn exposed(
    seg: L1Segment,
    nb: Seq<Option<L1Segment>>,
    k: int,
    x: int,
    y: int,
    z: int,
) -> bool {
    solid_at(seg, x, y, z) && !step_solid(seg, nb, k, x, y, z)
}

/// A packed exposure plane for face direction `k`: bit `z` of word `col`
/// set exactly when face `k` of block `(col / 32, col % 32, z)` is
/// rendered.
pub open spec fn plane_ok(
    seg: L1Segment,
    nb: Seq<Option<L1Segment>>,
    k: int,
    f: Seq<u32>,
) -> bool {
    &&& f.len() == 1024
    &&& forall|col: int, z: u32|
        0 <= col < 1024 && z < 32 ==> (#[trigger] bit32(f[col], z) == exposed(
            seg,
            nb,
            k,
            col / 32,
            col % 32,
            z as int,
        ))
}

/// The packed solids vector handed over for one neighbour slot: present
/// and faithful exactly when the neighbour is present.
pub open spec fn nb_solids_ok(nb: Seq<Option<L1Segment>>, k: int, np: Option<Seq<u32>>) -> bool {
    match nb[k] {
        Some(n) => np matches Some(v) && solids_ok(n, v),
        None => np is None,
    }
}

/// Builds the packed solids plane of a leaf segment: a vector of 1024
/// words, one per (x, y) column, bit `z` of word `32 * x + y` set
/// exactly when block `(x, y, z)` is solid.
pub fn l1_solids(seg: &L1Segment) -> (r: Vec<u32>)
    requires
        seg.wf(),
    ensures
        solids_ok(*seg, r@),
{
    let mut r: Vec<u32> = Vec::new();
    let mut col: usize = 0;
    while col < 1024
        invariant
            seg.wf(),
            col <= 1024,
            r@.len() == col,
            forall|c: int, z: u32|
                0 <= c < col && z < 32 ==> (#[trigger] bit32(r@[c], z) == solid_at(
                    *seg,
                    c / 32,
                    c % 32,
                    z as int,
                )),
        decreases 1024 - col,
    {
        proof {
            lemma_fundamental_div_mod(col as int, 32);
            lemma_mod_division_less_than_divisor(col as int, 32);
            lemma_div_pos_is_pos(col as int, 32);
        }
        let ghost x = col as int / 32;
        let ghost y = col as int % 32;
        let mut acc: u32 = 0;
        let mut z: u32 = 0;
        proof {
            lemma_zero_word();
        }
        while z < 32
            invariant
                seg.wf(),
                col < 1024,
                z <= 32,
                x == col as int / 32,
                y == col as int % 32,
                0 <= x < 32,
                0 <= y < 32,
                32 * x + y == col,
                z < 32 ==> acc >> z == 0,
                forall|j: u32| j < z ==> (bit32(acc, j) == solid_at(*seg, x, y, j as int)),
            decreases 32 - z,
        {
            let b: u32 = if seg.blocks[32 * col + z as usize].is_solid() {
                1
            } else {
                0
            };
            let ghost w = acc;
            acc = acc | (b << z);
            proof {
                lemma_push_bit(w, z, b);
                assert(1024 * x + 32 * y + z == 32 * col + z);
                assert(acc == w | (b << z));
                assert forall|j: u32| j < z + 1 implies bit32(acc, j) == solid_at(
                    *seg,
                    x,
                    y,
                    j as int,
                ) by {
                    if j < z {
                        assert(((w | (b << z)) >> j) & 1 == (w >> j) & 1);
                        assert(bit32(acc, j) == bit32(w, j));
                    } else {
                        assert(((w | (b << z)) >> z) & 1 == b);
                    }
                }
            }
            z = z + 1;
        }
        r.push(acc);
        col = col + 1;
    }
    r
}


/// The neighbour array as the specification sees it: one owned optional
/// segment per slot.
pub open spec fn nb_view(nb: [Option<&L1Segment>; 6]) -> Seq<Option<L1Segment>> {
    Seq::new(6, |k: int| match nb[k] {
        Some(n) => Some(*n),
        None => None,
    })
}

/// The view of an optional borrowed solids vector.
pub open spec fn opt_view(np: Option<&Vec<u32>>) -> Option<Seq<u32>> {
    match np {
        Some(v) => Some(v@),
        None => None,
    }
}

/// Exposure plane for the +X faces: a block's +X face is exposed when
/// the cell one step along +X (in the next column, or the neighbour's
/// x = 0 column at the boundary) is not solid.
fn xpos_plane(
    s: &Vec<u32>,
    np: Option<&Vec<u32>>,
    seg: &L1Segment,
    Ghost(nb): Ghost<Seq<Option<L1Segment>>>,
) -> (f: Vec<u32>)
    requires
        seg.wf(),
        solids_ok(*seg, s@),
        neighbours_wf(nb),
        nb_solids_ok(nb, 0, opt_view(np)),
    ensures
        plane_ok(*seg, nb, 0, f@),
{
    let mut f: Vec<u32> = Vec::new();
    let mut x: usize = 0;
    while x < 32
        invariant
            seg.wf(),
            solids_ok(*seg, s@),
            neighbours_wf(nb),
            nb_solids_ok(nb, 0, opt_view(np)),
            x <= 32,
            f@.len() == 32 * x,
            forall|col: int, z: u32|
                0 <= col < 32 * x && z < 32 ==> (#[trigger] bit32(f@[col], z) == exposed(
                    *seg,
                    nb,
                    0,
                    col / 32,
                    col % 32,
                    z as int,
                )),
        decreases 32 - x,
    {
        let mut y: usize = 0;
        while y < 32
            invariant
                seg.wf(),
                solids_ok(*seg, s@),
                neighbours_wf(nb),
                nb_solids_ok(nb, 0, opt_view(np)),
                x < 32,
                y <= 32,
                f@.len() == 32 * x + y,
                forall|col: int, z: u32|
                    0 <= col < 32 * x + y && z < 32 ==> (#[trigger] bit32(f@[col], z) == exposed(
                        *seg,
                        nb,
                        0,
                        col / 32,
                        col % 32,
                        z as int,
                    )),
            decreases 32 - y,
        {
            let col = 32 * x + y;
            let a: u32 = if x < 31 {
                s[col + 32]
            } else {
                match np {
                    Some(v) => v[y],
                    None => 0,
                }
            };
            let w = s[col] & !a;
            proof {
                lemma_and_not(s@[col as int], a);
                lemma_zero_word();
                lemma_fundamental_div_mod_converse_div(col as int, 32, x as int, y as int);
                lemma_fundamental_div_mod_converse_mod(col as int, 32, x as int, y as int);
                if x < 31 {
                    lemma_fundamental_div_mod_converse_div(
                        col + 32,
                        32,
                        x + 1,
                        y as int,
                    );
                    lemma_fundamental_div_mod_converse_mod(
                        col + 32,
                        32,
                        x + 1,
                        y as int,
                    );
                } else {
                    lemma_fundamental_div_mod_converse_div(y as int, 32, 0, y as int);
                    lemma_fundamental_div_mod_converse_mod(y as int, 32, 0, y as int);
                }
                assert forall|z: u32| z < 32 implies bit32(w, z) == exposed(
                    *seg,
                    nb,
                    0,
                    col as int / 32,
                    col as int % 32,
                    z as int,
                ) by {
                    assert(bit32(w, z) == (bit32(s@[col as int], z) && !bit32(a, z)));
                    assert(bit32(s@[col as int], z) == solid_at(*seg, x as int, y as int, z as int));
                    if x < 31 {
                        assert(bit32(a, z) == solid_at(*seg, x + 1, y as int, z as int));
                    } else {
                        assert((x + 1) % 32 == 0 && (y as int) % 32 == y && (z as int) % 32 == z);
                        if nb[0] is Some {
                            assert(bit32(a, z) == solid_at(nb[0]->Some_0, 0, y as int, z as int));
                        } else {
                            assert(!bit32(a, z));
                        }
                    }
                }
            }
            f.push(w);
            y = y + 1;
        }
        x = x + 1;
    }
    f
}


/// Exposure plane for the -X faces: a block's -X face is exposed
/// when the cell one step along -X (in the previous column, or the neighbour's x = 31 column at the boundary) is not solid.
fn xneg_plane(
    s: &Vec<u32>,
    np: Option<&Vec<u32>>,
    seg: &L1Segment,
    Ghost(nb): Ghost<Seq<Option<L1Segment>>>,
) -> (f: Vec<u32>)
    requires
        seg.wf(),
        solids_ok(*seg, s@),
        neighbours_wf(nb),
        nb_solids_ok(nb, 1, opt_view(np)),
    ensures
        plane_ok(*seg, nb, 1, f@),
{
    let mut f: Vec<u32> = Vec::new();
    let mut x: usize = 0;
    while x < 32
        invariant
            seg.wf(),
            solids_ok(*seg, s@),
            neighbours_wf(nb),
            nb_solids_ok(nb, 1, opt_view(np)),
            x <= 32,
            f@.len() == 32 * x,
            forall|col: int, z: u32|
                0 <= col < 32 * x && z < 32 ==> (#[trigger] bit32(f@[col], z) == exposed(
                    *seg,
                    nb,
                    1,
                    col / 32,
                    col % 32,
                    z as int,
                )),
        decreases 32 - x,
    {
        let mut y: usize = 0;
        while y < 32
            invariant
                seg.wf(),
                solids_ok(*seg, s@),
                neighbours_wf(nb),
                nb_solids_ok(nb, 1, opt_view(np)),
                x < 32,
                y <= 32,
                f@.len() == 32 * x + y,
                forall|col: int, z: u32|
                    0 <= col < 32 * x + y && z < 32 ==> (#[trigger] bit32(f@[col], z) == exposed(
                        *seg,
                        nb,
                        1,
                        col / 32,
                        col % 32,
                        z as int,
                    )),
            decreases 32 - y,
        {
            let col = 32 * x + y;
            let a: u32 = if x > 0 {
                s[col - 32]
            } else {
                match np {
                    Some(v) => v[992 + y],
                    None => 0,
                }
            };
            let w = s[col] & !a;
            proof {
                lemma_and_not(s@[col as int], a);
                lemma_zero_word();
                lemma_fundamental_div_mod_converse_div(col as int, 32, x as int, y as int);
                lemma_fundamental_div_mod_converse_mod(col as int, 32, x as int, y as int);
                if x > 0 {
                    lemma_fundamental_div_mod_converse_div(col - 32, 32, x - 1, y as int);
                    lemma_fundamental_div_mod_converse_mod(col - 32, 32, x - 1, y as int);
                } else {
                    lemma_fundamental_div_mod_converse_div(992 + y, 32, 31, y as int);
                    lemma_fundamental_div_mod_converse_mod(992 + y, 32, 31, y as int);
                }
                assert forall|z: u32| z < 32 implies bit32(w, z) == exposed(
                    *seg,
                    nb,
                    1,
                    col as int / 32,
                    col as int % 32,
                    z as int,
                ) by {
                    assert(bit32(w, z) == (bit32(s@[col as int], z) && !bit32(a, z)));
                    assert(bit32(s@[col as int], z) == solid_at(*seg, x as int, y as int, z as int));
                    if x > 0 {
                        assert(bit32(a, z) == solid_at(*seg, x - 1, y as int, z as int));
                    } else {
                        assert((x - 1) % 32 == 31 && (y as int) % 32 == y && (z as int) % 32 == z);
                        if nb[1] is Some {
                            assert(bit32(a, z) == solid_at(nb[1]->Some_0, 31, y as int, z as int));
                        } else {
                            assert(!bit32(a, z));
                        }
                    }
                }
            }
            f.push(w);
            y = y + 1;
        }
        x = x + 1;
    }
    f
}

/// Exposure plane for the +Y faces: a block's +Y face is exposed
/// when the cell one step along +Y (the next cell of the row, or the neighbour's y = 0 cell at the boundary) is not solid.
fn ypos_plane(
    s: &Vec<u32>,
    np: Option<&Vec<u32>>,
    seg: &L1Segment,
    Ghost(nb): Ghost<Seq<Option<L1Segment>>>,
) -> (f: Vec<u32>)
    requires
        seg.wf(),
        solids_ok(*seg, s@),
        neighbours_wf(nb),
        nb_solids_ok(nb, 2, opt_view(np)),
    ensures
        plane_ok(*seg, nb, 2, f@),
{
    let mut f: Vec<u32> = Vec::new();
    let mut x: usize = 0;
    while x < 32
        invariant
            seg.wf(),
            solids_ok(*seg, s@),
            neighbours_wf(nb),
            nb_solids_ok(nb, 2, opt_view(np)),
            x <= 32,
            f@.len() == 32 * x,
            forall|col: int, z: u32|
                0 <= col < 32 * x && z < 32 ==> (#[trigger] bit32(f@[col], z) == exposed(
                    *seg,
                    nb,
                    2,
                    col / 32,
                    col % 32,
                    z as int,
                )),
        decreases 32 - x,
    {
        let mut y: usize = 0;
        while y < 32
            invariant
                seg.wf(),
                solids_ok(*seg, s@),
                neighbours_wf(nb),
                nb_solids_ok(nb, 2, opt_view(np)),
                x < 32,
                y <= 32,
                f@.len() == 32 * x + y,
                forall|col: int, z: u32|
                    0 <= col < 32 * x + y && z < 32 ==> (#[trigger] bit32(f@[col], z) == exposed(
                        *seg,
                        nb,
                        2,
                        col / 32,
                        col % 32,
                        z as int,
                    )),
            decreases 32 - y,
        {
            let col = 32 * x + y;
            let a: u32 = if y < 31 {
                s[col + 1]
            } else {
                match np {
                    Some(v) => v[32 * x],
                    None => 0,
                }
            };
            let w = s[col] & !a;
            proof {
                lemma_and_not(s@[col as int], a);
                lemma_zero_word();
                lemma_fundamental_div_mod_converse_div(col as int, 32, x as int, y as int);
                lemma_fundamental_div_mod_converse_mod(col as int, 32, x as int, y as int);
                if y < 31 {
                    lemma_fundamental_div_mod_converse_div(col + 1, 32, x as int, y + 1);
                    lemma_fundamental_div_mod_converse_mod(col + 1, 32, x as int, y + 1);
                } else {
                    lemma_fundamental_div_mod_converse_div(32 * x as int, 32, x as int, 0);
                    lemma_fundamental_div_mod_converse_mod(32 * x as int, 32, x as int, 0);
                }
                assert forall|z: u32| z < 32 implies bit32(w, z) == exposed(
                    *seg,
                    nb,
                    2,
                    col as int / 32,
                    col as int % 32,
                    z as int,
                ) by {
                    assert(bit32(w, z) == (bit32(s@[col as int], z) && !bit32(a, z)));
                    assert(bit32(s@[col as int], z) == solid_at(*seg, x as int, y as int, z as int));
                    if y < 31 {
                        assert(bit32(a, z) == solid_at(*seg, x as int, y + 1, z as int));
                    } else {
                        assert((x as int) % 32 == x && (y + 1) % 32 == 0 && (z as int) % 32 == z);
                        if nb[2] is Some {
                            assert(bit32(a, z) == solid_at(nb[2]->Some_0, x as int, 0, z as int));
                        } else {
                            assert(!bit32(a, z));
                        }
                    }
                }
            }
            f.push(w);
            y = y + 1;
        }
        x = x + 1;
    }
    f
}

/// Exposure plane for the -Y faces: a block's -Y face is exposed
/// when the cell one step along -Y (the previous cell of the row, or the neighbour's y = 31 cell at the boundary) is not solid.
fn yneg_plane(
    s: &Vec<u32>,
    np: Option<&Vec<u32>>,
    seg: &L1Segment,
    Ghost(nb): Ghost<Seq<Option<L1Segment>>>,
) -> (f: Vec<u32>)
    requires
        seg.wf(),
        solids_ok(*seg, s@),
        neighbours_wf(nb),
        nb_solids_ok(nb, 3, opt_view(np)),
    ensures
        plane_ok(*seg, nb, 3, f@),
{
    let mut f: Vec<u32> = Vec::new();
    let mut x: usize = 0;
    while x < 32
        invariant
            seg.wf(),
            solids_ok(*seg, s@),
            neighbours_wf(nb),
            nb_solids_ok(nb, 3, opt_view(np)),
            x <= 32,
            f@.len() == 32 * x,
            forall|col: int, z: u32|
                0 <= col < 32 * x && z < 32 ==> (#[trigger] bit32(f@[col], z) == exposed(
                    *seg,
                    nb,
                    3,
                    col / 32,
                    col % 32,
                    z as int,
                )),
        decreases 32 - x,
    {
        let mut y: usize = 0;
        while y < 32
            invariant
                seg.wf(),
                solids_ok(*seg, s@),
                neighbours_wf(nb),
                nb_solids_ok(nb, 3, opt_view(np)),
                x < 32,
                y <= 32,
                f@.len() == 32 * x + y,
                forall|col: int, z: u32|
                    0 <= col < 32 * x + y && z < 32 ==> (#[trigger] bit32(f@[col], z) == exposed(
                        *seg,
                        nb,
                        3,
                        col / 32,
                        col % 32,
                        z as int,
                    )),
            decreases 32 - y,
        {
            let col = 32 * x + y;
            let a: u32 = if y > 0 {
                s[col - 1]
            } else {
                match np {
                    Some(v) => v[32 * x + 31],
                    None => 0,
                }
            };
            let w = s[col] & !a;
            proof {
                lemma_and_not(s@[col as int], a);
                lemma_zero_word();
                lemma_fundamental_div_mod_converse_div(col as int, 32, x as int, y as int);
                lemma_fundamental_div_mod_converse_mod(col as int, 32, x as int, y as int);
                if y > 0 {
                    lemma_fundamental_div_mod_converse_div(col - 1, 32, x as int, y - 1);
                    lemma_fundamental_div_mod_converse_mod(col - 1, 32, x as int, y - 1);
                } else {
                    lemma_fundamental_div_mod_converse_div(32 * x + 31, 32, x as int, 31);
                    lemma_fundamental_div_mod_converse_mod(32 * x + 31, 32, x as int, 31);
                }
                assert forall|z: u32| z < 32 implies bit32(w, z) == exposed(
                    *seg,
                    nb,
                    3,
                    col as int / 32,
                    col as int % 32,
                    z as int,
                ) by {
                    assert(bit32(w, z) == (bit32(s@[col as int], z) && !bit32(a, z)));
                    assert(bit32(s@[col as int], z) == solid_at(*seg, x as int, y as int, z as int));
                    if y > 0 {
                        assert(bit32(a, z) == solid_at(*seg, x as int, y - 1, z as int));
                    } else {
                        assert((x as int) % 32 == x && (y - 1) % 32 == 31 && (z as int) % 32 == z);
                        if nb[3] is Some {
                            assert(bit32(a, z) == solid_at(nb[3]->Some_0, x as int, 31, z as int));
                        } else {
                            assert(!bit32(a, z));
                        }
                    }
                }
            }
            f.push(w);
            y = y + 1;
        }
        x = x + 1;
    }
    f
}


/// Bits of the +Z exposure word `s & !(s >> 1) & !(nw << 31)`: bit `j`
/// set when the block is solid and the block above it (bit `j + 1`, or
/// bit 0 of the +Z neighbour's word for the topmost block) is not.
proof fn lemma_zpos_word(s: u32, nw: u32)
    by (bit_vector)
    ensures
        forall|j: u32|
            j < 31 ==> ((((s & !(s >> 1) & !(nw << 31)) >> j) & 1 == 1) <==> (((s >> j) & 1 == 1)
                && !((s >> (j + 1)) & 1 == 1))),
        (((s & !(s >> 1) & !(nw << 31)) >> 31) & 1 == 1) <==> (((s >> 31) & 1 == 1) && !((nw >> 0)
            & 1 == 1)),
{
}

/// Bits of the -Z exposure word `s & !(s << 1) & !(nw >> 31)`: bit `j`
/// set when the block is solid and the block below it (bit `j - 1`, or
/// bit 31 of the -Z neighbour's word for the bottom block) is not.
proof fn lemma_zneg_word(s: u32, nw: u32)
    by (bit_vector)
    ensures
        forall|j: u32|
            1 <= j < 32 ==> ((((s & !(s << 1) & !(nw >> 31)) >> j) & 1 == 1) <==> (((s >> j) & 1
                == 1) && !((s >> ((j - 1) as u32)) & 1 == 1))),
        (((s & !(s << 1) & !(nw >> 31)) >> 0) & 1 == 1) <==> (((s >> 0) & 1 == 1) && !((nw >> 31)
            & 1 == 1)),
{
}

/// Exposure plane for the +Z faces: a block's +Z face is exposed when
/// the block one step up its column (or the bottom block of the +Z
/// neighbour's column for the topmost block) is not solid.
fn zpos_plane(
    s: &Vec<u32>,
    np: Option<&Vec<u32>>,
    seg: &L1Segment,
    Ghost(nb): Ghost<Seq<Option<L1Segment>>>,
) -> (f: Vec<u32>)
    requires
        seg.wf(),
        solids_ok(*seg, s@),
        neighbours_wf(nb),
        nb_solids_ok(nb, 4, opt_view(np)),
    ensures
        plane_ok(*seg, nb, 4, f@),
{
    let mut f: Vec<u32> = Vec::new();
    let mut col: usize = 0;
    while col < 1024
        invariant
            seg.wf(),
            solids_ok(*seg, s@),
            neighbours_wf(nb),
            nb_solids_ok(nb, 4, opt_view(np)),
            col <= 1024,
            f@.len() == col,
            forall|c: int, z: u32|
                0 <= c < col && z < 32 ==> (#[trigger] bit32(f@[c], z) == exposed(
                    *seg,
                    nb,
                    4,
                    c / 32,
                    c % 32,
                    z as int,
                )),
        decreases 1024 - col,
    {
        let nw: u32 = match np {
            Some(v) => v[col],
            None => 0,
        };
        let sw = s[col];
        let w = sw & !(sw >> 1u32) & !(nw << 31u32);
        proof {
            lemma_zpos_word(sw, nw);
            lemma_zero_word();
            lemma_fundamental_div_mod(col as int, 32);
            lemma_mod_division_less_than_divisor(col as int, 32);
            lemma_div_pos_is_pos(col as int, 32);
            let x = col as int / 32;
            let y = col as int % 32;
            assert(x < 32 && x % 32 == x && y % 32 == y);
            assert forall|z: u32| z < 32 implies bit32(w, z) == exposed(
                *seg,
                nb,
                4,
                x,
                y,
                z as int,
            ) by {
                if z < 31 {
                    assert(bit32(w, z) == (bit32(sw, z) && !bit32(sw, (z + 1) as u32)));
                    assert(bit32(sw, z) == solid_at(*seg, x, y, z as int));
                    assert(bit32(sw, (z + 1) as u32) == solid_at(*seg, x, y, z + 1));
                } else {
                    assert(bit32(w, z) == (bit32(sw, z) && !bit32(nw, 0)));
                    assert(bit32(sw, z) == solid_at(*seg, x, y, z as int));
                    if nb[4] is Some {
                        assert(bit32(nw, 0) == solid_at(nb[4]->Some_0, x, y, 0));
                        assert((z + 1) % 32 == 0);
                    } else {
                        assert(!bit32(nw, 0));
                    }
                }
            }
        }
        f.push(w);
        col = col + 1;
    }
    f
}

/// Exposure plane for the -Z faces: a block's -Z face is exposed when
/// the block one step down its column (or the top block of the -Z
/// neighbour's column for the bottom block) is not solid.
fn zneg_plane(
    s: &Vec<u32>,
    np: Option<&Vec<u32>>,
    seg: &L1Segment,
    Ghost(nb): Ghost<Seq<Option<L1Segment>>>,
) -> (f: Vec<u32>)
    requires
        seg.wf(),
        solids_ok(*seg, s@),
        neighbours_wf(nb),
        nb_solids_ok(nb, 5, opt_view(np)),
    ensures
        plane_ok(*seg, nb, 5, f@),
{
    let mut f: Vec<u32> = Vec::new();
    let mut col: usize = 0;
    while col < 1024
        invariant
            seg.wf(),
            solids_ok(*seg, s@),
            neighbours_wf(nb),
            nb_solids_ok(nb, 5, opt_view(np)),
            col <= 1024,
            f@.len() == col,
            forall|c: int, z: u32|
                0 <= c < col && z < 32 ==> (#[trigger] bit32(f@[c], z) == exposed(
                    *seg,
                    nb,
                    5,
                    c / 32,
                    c % 32,
                    z as int,
                )),
        decreases 1024 - col,
    {
        let nw: u32 = match np {
            Some(v) => v[col],
            None => 0,
        };
        let sw = s[col];
        let w = sw & !(sw << 1u32) & !(nw >> 31u32);
        proof {
            lemma_zneg_word(sw, nw);
            lemma_zero_word();
            lemma_fundamental_div_mod(col as int, 32);
            lemma_mod_division_less_than_divisor(col as int, 32);
            lemma_div_pos_is_pos(col as int, 32);
            let x = col as int / 32;
            let y = col as int % 32;
            assert(x < 32 && x % 32 == x && y % 32 == y);
            assert forall|z: u32| z < 32 implies bit32(w, z) == exposed(
                *seg,
                nb,
                5,
                x,
                y,
                z as int,
            ) by {
                if z >= 1 {
                    assert(bit32(w, z) == (bit32(sw, z) && !bit32(sw, (z - 1) as u32)));
                    assert(bit32(sw, z) == solid_at(*seg, x, y, z as int));
                    assert(bit32(sw, (z - 1) as u32) == solid_at(*seg, x, y, z - 1));
                } else {
                    assert(bit32(w, z) == (bit32(sw, z) && !bit32(nw, 31)));
                    assert(bit32(sw, z) == solid_at(*seg, x, y, z as int));
                    if nb[5] is Some {
                        assert(bit32(nw, 31) == solid_at(nb[5]->Some_0, x, y, 31));
                        assert((0 - 1) % 32 == 31);
                    } else {
                        assert(!bit32(nw, 31));
                    }
                }
            }
        }
        f.push(w);
        col = col + 1;
    }
    f
}


/// Testing a bit with a mask is testing the shifted bit.
proof fn lemma_mask_test(w: u32, z: u32)
    by (bit_vector)
    requires
        z < 32,
    ensures
        (w & (1u32 << z) != 0) <==> ((w >> z) & 1 == 1),
{
}

/// The six index-buffer entries emitted for face `k` of block `b` when
/// that face is exposed: the face's corner table, offset by the block's
/// base corner id `8 * b`. An unexposed face emits nothing.
pub open spec fn face_emit(
    seg: L1Segment,
    nb: Seq<Option<L1Segment>>,
    b: int,
    k: int,
) -> Seq<u32> {
    if exposed(seg, nb, k, b / 1024, (b / 32) % 32, b % 32) {
        face_index_table(k).map_values(|v: u32| (8 * b + v) as u32)
    } else {
        Seq::empty()
    }
}

/// Entries emitted for block `b` by its first `k` faces, in face order.
pub open spec fn block_emit_upto(
    seg: L1Segment,
    nb: Seq<Option<L1Segment>>,
    b: int,
    k: int,
) -> Seq<u32>
    decreases k,
{
    if k <= 0 {
        Seq::empty()
    } else {
        block_emit_upto(seg, nb, b, k - 1) + face_emit(seg, nb, b, k - 1)
    }
}

/// Entries emitted for the first `b` blocks, in block then face order.
pub open spec fn emit_upto(seg: L1Segment, nb: Seq<Option<L1Segment>>, b: int) -> Seq<u32>
    decreases b,
{
    if b <= 0 {
        Seq::empty()
    } else {
        emit_upto(seg, nb, b - 1) + block_emit_upto(seg, nb, b - 1, 6)
    }
}

/// The whole uncompacted index buffer: for every block in linear order
/// and every face in the fixed face order, the entries of each exposed
/// face.
pub open spec fn emit(seg: L1Segment, nb: Seq<Option<L1Segment>>) -> Seq<u32> {
    emit_upto(seg, nb, 32768)
}

/// Whether corner id `i` is referenced by the uncompacted index buffer.
pub open spec fn id_used(seg: L1Segment, nb: Seq<Option<L1Segment>>, i: int) -> bool {
    exists|j: int| 0 <= j < emit(seg, nb).len() && emit(seg, nb)[j] == i
}

/// How many corner ids below `i` are referenced: the compacted id that
/// corner id `i` receives, if it is referenced itself.
pub open spec fn used_below(seg: L1Segment, nb: Seq<Option<L1Segment>>, i: int) -> int
    decreases i,
{
    if i <= 0 {
        0
    } else {
        used_below(seg, nb, i - 1) + if id_used(seg, nb, i - 1) {
            1int
        } else {
            0int
        }
    }
}

/// Every entry of a face's corner table is a corner number, below 8.
proof fn lemma_table_small(k: int)
    requires
        0 <= k < 6,
    ensures
        face_index_table(k).len() == 6,
        forall|j: int| 0 <= j < 6 ==> 0 <= #[trigger] face_index_table(k)[j] <= 7,
{
}

/// Every entry emitted for block `b` lies in the block's own corner id
/// range `[8 * b, 8 * b + 8)`.
proof fn lemma_block_emit_values(seg: L1Segment, nb: Seq<Option<L1Segment>>, b: int, k: int)
    requires
        0 <= b < 32768,
        0 <= k <= 6,
    ensures
        forall|j: int|
            0 <= j < block_emit_upto(seg, nb, b, k).len() ==> 8 * b <= #[trigger] block_emit_upto(
                seg,
                nb,
                b,
                k,
            )[j] < 8 * b + 8,
    decreases k,
{
    if k > 0 {
        lemma_block_emit_values(seg, nb, b, k - 1);
        lemma_table_small(k - 1);
        let pre = block_emit_upto(seg, nb, b, k - 1);
        let fe = face_emit(seg, nb, b, k - 1);
        assert forall|j: int|
            0 <= j < block_emit_upto(seg, nb, b, k).len() implies 8 * b
            <= #[trigger] block_emit_upto(seg, nb, b, k)[j] < 8 * b + 8 by {
            assert(block_emit_upto(seg, nb, b, k) == pre + fe);
            if j < pre.len() {
                assert(block_emit_upto(seg, nb, b, k)[j] == pre[j]);
            } else {
                assert(block_emit_upto(seg, nb, b, k)[j] == fe[j - pre.len()]);
                assert(fe[j - pre.len()] == (8 * b + face_index_table(k - 1)[j - pre.len()]) as u32);
            }
        }
    }
}

/// Every entry emitted for the first `b` blocks is a corner id below
/// `8 * b`.
proof fn lemma_emit_values(seg: L1Segment, nb: Seq<Option<L1Segment>>, b: int)
    requires
        0 <= b <= 32768,
    ensures
        forall|j: int|
            0 <= j < emit_upto(seg, nb, b).len()
                ==> 0 <= #[trigger] emit_upto(seg, nb, b)[j] < 8 * b,
    decreases b,
{
    if b > 0 {
        lemma_emit_values(seg, nb, b - 1);
        lemma_block_emit_values(seg, nb, b - 1, 6);
        let pre = emit_upto(seg, nb, b - 1);
        let blk = block_emit_upto(seg, nb, b - 1, 6);
        assert forall|j: int| 0 <= j < emit_upto(seg, nb, b).len() implies 0 <= #[trigger] emit_upto(
            seg,
            nb,
            b,
        )[j] < 8 * b by {
            assert(emit_upto(seg, nb, b) == pre + blk);
            if j < pre.len() {
                assert(emit_upto(seg, nb, b)[j] == pre[j]);
            } else {
                assert(emit_upto(seg, nb, b)[j] == blk[j - pre.len()]);
            }
        }
    }
}

/// The compaction counter never exceeds the number of ids scanned.
proof fn lemma_used_below_bound(seg: L1Segment, nb: Seq<Option<L1Segment>>, i: int)
    requires
        0 <= i,
    ensures
        0 <= used_below(seg, nb, i) <= i,
    decreases i,
{
    if i > 0 {
        lemma_used_below_bound(seg, nb, i - 1);
    }
}

/// A vertex of the output mesh: an integer lattice position in world
/// space, plus the linear index of the block the vertex belongs to (all
/// eight corners of one block share it, so a consumer can color per
/// block).
#[derive(Clone, Copy, Debug, PartialEq, Eq, Structural)]
pub struct MeshVertex {
    pub x: i64,
    pub y: i64,
    pub z: i64,
    pub block: u32,
}

/// The vertex that corner id `i` denotes, for a segment whose block
/// (0, 0, 0) sits at `pos`: the block's cell plus the corner offset on
/// each axis.
pub open spec fn vertex_for(pos: ICoords, i: int) -> MeshVertex {
    let b = i / 8;
    let c = i % 8;
    MeshVertex {
        x: (pos.x + b / 1024 + c / 4) as i64,
        y: (pos.y + (b / 32) % 32 + (c / 2) % 2) as i64,
        z: (pos.z + b % 32 + c % 2) as i64,
        block: b as u32,
    }
}

/// The compacted vertex array for the corner ids below `i`: one vertex
/// per referenced id, in scan order.
pub open spec fn vertex_list_upto(
    seg: L1Segment,
    nb: Seq<Option<L1Segment>>,
    pos: ICoords,
    i: int,
) -> Seq<MeshVertex>
    decreases i,
{
    if i <= 0 {
        Seq::empty()
    } else {
        vertex_list_upto(seg, nb, pos, i - 1) + if id_used(seg, nb, i - 1) {
            seq![vertex_for(pos, i - 1)]
        } else {
            Seq::empty()
        }
    }
}

/// The compacted vertex array holds exactly one vertex per referenced
/// corner id.
pub proof fn lemma_vertex_list_len(
    seg: L1Segment,
    nb: Seq<Option<L1Segment>>,
    pos: ICoords,
    i: int,
)
    requires
        0 <= i,
    ensures
        vertex_list_upto(seg, nb, pos, i).len() == used_below(seg, nb, i),
    decreases i,
{
    if i > 0 {
        lemma_vertex_list_len(seg, nb, pos, i - 1);
    }
}

/// A referenced corner id `i` owns slot `used_below(i)` of the
/// compacted vertex array, and that slot holds its vertex.
pub proof fn lemma_vertex_of_rank(
    seg: L1Segment,
    nb: Seq<Option<L1Segment>>,
    pos: ICoords,
    i: int,
    n: int,
)
    requires
        0 <= i < n,
        id_used(seg, nb, i),
    ensures
        used_below(seg, nb, i) < vertex_list_upto(seg, nb, pos, n).len(),
        vertex_list_upto(seg, nb, pos, n)[used_below(seg, nb, i)] == vertex_for(pos, i),
    decreases n,
{
    lemma_vertex_list_len(seg, nb, pos, i);
    lemma_vertex_list_len(seg, nb, pos, n);
    if n == i + 1 {
        assert(vertex_list_upto(seg, nb, pos, n) == vertex_list_upto(seg, nb, pos, i) + seq![
            vertex_for(pos, i),
        ]);
    } else {
        lemma_vertex_of_rank(seg, nb, pos, i, n - 1);
    }
}

/// Meshes one leaf segment against its six optional neighbours.
///
/// Returns the compacted vertex array and the triangle index array: for
/// every block in linear order and every face in the fixed face order,
/// an exposed face contributes its six corner references, and every
/// referenced corner becomes exactly one vertex, in scan order.
/// `position` is the world-space cell of the segment's block (0, 0, 0).
pub fn mesh_l1_segment(
    seg: &L1Segment,
    neighbours: [Option<&L1Segment>; 6],
    position: ICoords,
) -> (out: (Vec<MeshVertex>, Vec<u32>))
    requires
        seg.wf(),
        neighbours_wf(nb_view(neighbours)),
        -0x1000_0000_0000 <= position.x <= 0x1000_0000_0000,
        -0x1000_0000_0000 <= position.y <= 0x1000_0000_0000,
        -0x1000_0000_0000 <= position.z <= 0x1000_0000_0000,
    ensures
        out.0@ == vertex_list_upto(*seg, nb_view(neighbours), position, 262144),
        out.1@.len() == emit(*seg, nb_view(neighbours)).len(),
        forall|j: int|
            0 <= j < out.1@.len() ==> out.1@[j] == used_below(
                *seg,
                nb_view(neighbours),
                #[trigger] emit(*seg, nb_view(neighbours))[j] as int,
            ) as u32,
{
    let ghost nbs = nb_view(neighbours);
    proof {
        assert forall|k: int|
            0 <= k < 6 implies ((#[trigger] neighbours[k]) matches Some(n) ==> n.wf()) by {
            assert(nbs[k] == (match neighbours[k] {
                Some(n) => Some(*n),
                None => None,
            }));
        }
    }
    let solids = l1_solids(seg);
    let n0 = match neighbours[0] {
        Some(n) => Some(l1_solids(n)),
        None => None,
    };
    let n1 = match neighbours[1] {
        Some(n) => Some(l1_solids(n)),
        None => None,
    };
    let n2 = match neighbours[2] {
        Some(n) => Some(l1_solids(n)),
        None => None,
    };
    let n3 = match neighbours[3] {
        Some(n) => Some(l1_solids(n)),
        None => None,
    };
    let n4 = match neighbours[4] {
        Some(n) => Some(l1_solids(n)),
        None => None,
    };
    let n5 = match neighbours[5] {
        Some(n) => Some(l1_solids(n)),
        None => None,
    };
    let f0 = xpos_plane(&solids, n0.as_ref(), seg, Ghost(nbs));
    let f1 = xneg_plane(&solids, n1.as_ref(), seg, Ghost(nbs));
    let f2 = ypos_plane(&solids, n2.as_ref(), seg, Ghost(nbs));
    let f3 = yneg_plane(&solids, n3.as_ref(), seg, Ghost(nbs));
    let f4 = zpos_plane(&solids, n4.as_ref(), seg, Ghost(nbs));
    let f5 = zneg_plane(&solids, n5.as_ref(), seg, Ghost(nbs));
    let faces = Face::all();
    let mut indices: Vec<u32> = Vec::new();
    let mut b: usize = 0;
    while b < 32768
        invariant
            plane_ok(*seg, nbs, 0, f0@),
            plane_ok(*seg, nbs, 1, f1@),
            plane_ok(*seg, nbs, 2, f2@),
            plane_ok(*seg, nbs, 3, f3@),
            plane_ok(*seg, nbs, 4, f4@),
            plane_ok(*seg, nbs, 5, f5@),
            forall|k: int| 0 <= k < 6 ==> face_num(#[trigger] faces@[k]) == k,
            b <= 32768,
            indices@ == emit_upto(*seg, nbs, b as int),
        decreases 32768 - b,
    {
        let col = b / 32;
        let z = (b % 32) as u32;
        proof {
            lemma_fundamental_div_mod(b as int, 32);
            lemma_mod_division_less_than_divisor(b as int, 32);
            lemma_div_pos_is_pos(b as int, 32);
            lemma_fundamental_div_mod(b as int / 32, 32);
            lemma_mod_division_less_than_divisor(b as int / 32, 32);
            lemma_div_pos_is_pos(b as int / 32, 32);
            vstd::arithmetic::div_mod::lemma_div_denominator(b as int, 32, 32);
        }
        let ghost bx = b as int / 1024;
        let ghost by = (b as int / 32) % 32;
        let ghost bz = b as int % 32;
        let mut k: usize = 0;
        while k < 6
            invariant
                plane_ok(*seg, nbs, 0, f0@),
                plane_ok(*seg, nbs, 1, f1@),
                plane_ok(*seg, nbs, 2, f2@),
                plane_ok(*seg, nbs, 3, f3@),
                plane_ok(*seg, nbs, 4, f4@),
                plane_ok(*seg, nbs, 5, f5@),
                forall|kk: int| 0 <= kk < 6 ==> face_num(#[trigger] faces@[kk]) == kk,
                b < 32768,
                col == b / 32,
                z == b % 32,
                bx == b as int / 1024,
                by == (b as int / 32) % 32,
                bz == b as int % 32,
                col as int / 32 == bx,
                col as int % 32 == by,
                z == bz,
                col < 1024,
                z < 32,
                k <= 6,
                indices@ == emit_upto(*seg, nbs, b as int) + block_emit_upto(
                    *seg,
                    nbs,
                    b as int,
                    k as int,
                ),
            decreases 6 - k,
        {
            let w: u32 = if k == 0 {
                f0[col]
            } else if k == 1 {
                f1[col]
            } else if k == 2 {
                f2[col]
            } else if k == 3 {
                f3[col]
            } else {
                if k == 4 {
                    f4[col]
                } else {
                    f5[col]
                }
            };
            proof {
                lemma_mask_test(w, z);
                assert(bit32(w, z) == exposed(*seg, nbs, k as int, bx, by, bz));
            }
            if w & (1u32 << z) != 0 {
                let t = faces[k].indices();
                let base: u32 = (8 * b) as u32;
                let ghost pre = indices@;
                proof {
                    lemma_table_small(k as int);
                }
                let mut tt: usize = 0;
                while tt < 6
                    invariant
                        t@ =~= face_index_table(k as int),
                        k < 6,
                        b < 32768,
                        base == 8 * b,
                        tt <= 6,
                        indices@.len() == pre.len() + tt,
                        indices@.subrange(0, pre.len() as int) == pre,
                        forall|jj: int|
                            0 <= jj < tt ==> indices@[pre.len() + jj] == (8 * (b as int)
                                + face_index_table(k as int)[jj]) as u32,
                    decreases 6 - tt,
                {
                    proof {
                        lemma_table_small(k as int);
                        assert(t@[tt as int] == face_index_table(k as int)[tt as int]);
                    }
                    let ghost before = indices@;
                    indices.push(base + t[tt]);
                    proof {
                        assert(indices@.subrange(0, pre.len() as int) =~= before.subrange(
                            0,
                            pre.len() as int,
                        ));
                    }
                    tt = tt + 1;
                }
                proof {
                    assert(indices@ =~= pre + face_emit(*seg, nbs, b as int, k as int));
                }
            } else {
                proof {
                    assert(face_emit(*seg, nbs, b as int, k as int) =~= Seq::<u32>::empty());
                    assert(indices@ =~= emit_upto(*seg, nbs, b as int) + block_emit_upto(
                        *seg,
                        nbs,
                        b as int,
                        k as int + 1,
                    ));
                }
            }
            k = k + 1;
        }
        proof {
            assert(indices@ =~= emit_upto(*seg, nbs, b as int + 1));
        }
        b = b + 1;
    }
    proof {
        lemma_emit_values(*seg, nbs, 32768);
    }
    // Mark every corner id the emitted indices reference.
    let mut used: Vec<bool> = Vec::new();
    let mut i: usize = 0;
    while i < 262144
        invariant
            i <= 262144,
            used@.len() == i,
            forall|ii: int| 0 <= ii < i ==> !used@[ii],
        decreases 262144 - i,
    {
        used.push(false);
        i = i + 1;
    }
    let mut j: usize = 0;
    while j < indices.len()
        invariant
            indices@ == emit(*seg, nbs),
            used@.len() == 262144,
            j <= indices@.len(),
            forall|ii: int|
                0 <= ii < 262144 ==> (used@[ii] <==> exists|jj: int|
                    0 <= jj < j && emit(*seg, nbs)[jj] == ii),
        decreases indices@.len() - j,
    {
        proof {
            lemma_emit_values(*seg, nbs, 32768);
        }
        let v = indices[j] as usize;
        let ghost prev = used@;
        used[v] = true;
        proof {
            assert forall|ii: int| 0 <= ii < 262144 implies (used@[ii] <==> exists|jj: int|
                0 <= jj < j + 1 && emit(*seg, nbs)[jj] == ii) by {
                if ii == v {
                    assert(emit(*seg, nbs)[j as int] == ii);
                } else {
                    assert(used@[ii] == prev[ii]);
                }
            }
        }
        j = j + 1;
    }
    proof {
        assert forall|ii: int| 0 <= ii < 262144 implies (used@[ii] <==> id_used(
            *seg,
            nbs,
            ii,
        )) by {
        }
    }
    // Assign compacted slots in scan order.
    let mut perm: Vec<usize> = Vec::new();
    let mut i: usize = 0;
    while i < 262144
        invariant
            i <= 262144,
            perm@.len() == i,
        decreases 262144 - i,
    {
        perm.push(0);
        i = i + 1;
    }
    let mut n_used: usize = 0;
    let mut i: usize = 0;
    while i < 262144
        invariant
            used@.len() == 262144,
            perm@.len() == 262144,
            forall|ii: int| 0 <= ii < 262144 ==> (used@[ii] <==> id_used(*seg, nbs, ii)),
            i <= 262144,
            n_used == used_below(*seg, nbs, i as int),
            n_used <= i,
            forall|jj: int|
                0 <= jj < i && id_used(*seg, nbs, jj) ==> perm@[jj] == used_below(
                    *seg,
                    nbs,
                    jj,
                ),
        decreases 262144 - i,
    {
        if used[i] {
            perm[i] = n_used;
            n_used = n_used + 1;
        }
        i = i + 1;
    }
    // Build the compacted vertex array.
    let mut vertices: Vec<MeshVertex> = Vec::new();
    let mut i: usize = 0;
    while i < 262144
        invariant
            used@.len() == 262144,
            forall|ii: int| 0 <= ii < 262144 ==> (used@[ii] <==> id_used(*seg, nbs, ii)),
            i <= 262144,
            -0x1000_0000_0000 <= position.x <= 0x1000_0000_0000,
            -0x1000_0000_0000 <= position.y <= 0x1000_0000_0000,
            -0x1000_0000_0000 <= position.z <= 0x1000_0000_0000,
            vertices@ == vertex_list_upto(*seg, nbs, position, i as int),
        decreases 262144 - i,
    {
        if used[i] {
            let bb = i / 8;
            let cc = i % 8;
            proof {
                lemma_fundamental_div_mod(i as int, 8);
                lemma_mod_division_less_than_divisor(i as int, 8);
                lemma_div_pos_is_pos(i as int, 8);
                lemma_fundamental_div_mod(bb as int, 1024);
                lemma_mod_division_less_than_divisor(bb as int, 1024);
                lemma_div_pos_is_pos(bb as int, 1024);
                lemma_fundamental_div_mod(bb as int, 32);
                lemma_mod_division_less_than_divisor(bb as int, 32);
                lemma_div_pos_is_pos(bb as int, 32);
                lemma_fundamental_div_mod(bb as int / 32, 32);
                lemma_mod_division_less_than_divisor(bb as int / 32, 32);
                lemma_fundamental_div_mod(cc as int, 4);
                lemma_mod_division_less_than_divisor(cc as int, 4);
                lemma_div_pos_is_pos(cc as int, 4);
                lemma_fundamental_div_mod(cc as int, 2);
                lemma_mod_division_less_than_divisor(cc as int, 2);
                lemma_fundamental_div_mod(cc as int / 2, 2);
                lemma_mod_division_less_than_divisor(cc as int / 2, 2);
                lemma_div_pos_is_pos(cc as int / 2, 2);
            }
            let lx = (bb / 1024) as i64;
            let ly = ((bb / 32) % 32) as i64;
            let lz = (bb % 32) as i64;
            let dx = (cc / 4) as i64;
            let dy = ((cc / 2) % 2) as i64;
            let dz = (cc % 2) as i64;
            let v = MeshVertex {
                x: position.x + lx + dx,
                y: position.y + ly + dy,
                z: position.z + lz + dz,
                block: bb as u32,
            };
            vertices.push(v);
            proof {
                assert(v == vertex_for(position, i as int));
                assert(vertices@ =~= vertex_list_upto(*seg, nbs, position, i as int + 1));
            }
        } else {
            proof {
                assert(vertices@ =~= vertex_list_upto(*seg, nbs, position, i as int + 1));
            }
        }
        i = i + 1;
    }
    // Remap the emitted indices through the compaction permutation.
    let mut j: usize = 0;
    while j < indices.len()
        invariant
            perm@.len() == 262144,
            indices@.len() == emit(*seg, nbs).len(),
            j <= indices@.len(),
            forall|jj: int|
                0 <= jj < i && id_used(*seg, nbs, jj) ==> perm@[jj] == used_below(
                    *seg,
                    nbs,
                    jj,
                ),
            i == 262144,
            forall|jj: int|
                0 <= jj < j ==> indices@[jj] == used_below(
                    *seg,
                    nbs,
                    #[trigger] emit(*seg, nbs)[jj] as int,
                ) as u32,
            forall|jj: int|
                j <= jj < indices@.len() ==> indices@[jj] == #[trigger] emit(*seg, nbs)[jj],
        decreases indices@.len() - j,
    {
        proof {
            lemma_emit_values(*seg, nbs, 32768);
        }
        let v = indices[j] as usize;
        proof {
            assert(emit(*seg, nbs)[j as int] == v);
            assert(id_used(*seg, nbs, v as int));
            lemma_used_below_bound(*seg, nbs, v as int);
        }
        indices[j] = perm[v] as u32;
        j = j + 1;
    }
    (vertices, indices)
}

/// A leaf segment with no solid block anywhere.
pub open spec fn all_empty(e: L1Segment) -> bool {
    &&& e.wf()
    &&& forall|i: int| 0 <= i < 32768 ==> e.blocks@[i] == BlockType::NoBlock
}

/// Slot-wise relation between two neighbour arrays: each slot is either
/// the same, or absent on one side and a fully empty segment on the
/// other.
pub open spec fn absent_or_empty(
    nb1: Seq<Option<L1Segment>>,
    nb2: Seq<Option<L1Segment>>,
) -> bool {
    forall|k: int|
        0 <= k < 6 ==> (nb1[k] == nb2[k] || (nb1[k] is None && ((#[trigger] nb2[k]) matches Some(e)
            && all_empty(e))))
}

proof fn lemma_same_exposed(
    seg: L1Segment,
    nb1: Seq<Option<L1Segment>>,
    nb2: Seq<Option<L1Segment>>,
    k: int,
    x: int,
    y: int,
    z: int,
)
    requires
        absent_or_empty(nb1, nb2),
        0 <= k < 6,
    ensures
        exposed(seg, nb1, k, x, y, z) == exposed(seg, nb2, k, x, y, z),
{
    if nb1[k] != nb2[k] {
        let e = nb2[k]->Some_0;
        let nx = x + dir_x(k);
        let ny = y + dir_y(k);
        let nz = z + dir_z(k);
        assert(!solid_at(e, nx % 32, ny % 32, nz % 32));
    }
}

proof fn lemma_same_block_emit(
    seg: L1Segment,
    nb1: Seq<Option<L1Segment>>,
    nb2: Seq<Option<L1Segment>>,
    b: int,
    k: int,
)
    requires
        absent_or_empty(nb1, nb2),
        0 <= k <= 6,
    ensures
        block_emit_upto(seg, nb1, b, k) == block_emit_upto(seg, nb2, b, k),
    decreases k,
{
    if k > 0 {
        lemma_same_block_emit(seg, nb1, nb2, b, k - 1);
        lemma_same_exposed(seg, nb1, nb2, k - 1, b / 1024, (b / 32) % 32, b % 32);
    }
}

proof fn lemma_same_emit_upto(
    seg: L1Segment,
    nb1: Seq<Option<L1Segment>>,
    nb2: Seq<Option<L1Segment>>,
    b: int,
)
    requires
        absent_or_empty(nb1, nb2),
    ensures
        emit_upto(seg, nb1, b) == emit_upto(seg, nb2, b),
    decreases b,
{
    if b > 0 {
        lemma_same_emit_upto(seg, nb1, nb2, b - 1);
        lemma_same_block_emit(seg, nb1, nb2, b - 1, 6);
    }
}

proof fn lemma_same_id_used(
    seg: L1Segment,
    nb1: Seq<Option<L1Segment>>,
    nb2: Seq<Option<L1Segment>>,
    i: int,
)
    requires
        absent_or_empty(nb1, nb2),
    ensures
        id_used(seg, nb1, i) == id_used(seg, nb2, i),
{
    lemma_same_emit_upto(seg, nb1, nb2, 32768);
    if id_used(seg, nb1, i) {
        let j = choose|j: int| 0 <= j < emit(seg, nb1).len() && emit(seg, nb1)[j] == i;
        assert(emit(seg, nb2)[j] == i);
    }
    if id_used(seg, nb2, i) {
        let j = choose|j: int| 0 <= j < emit(seg, nb2).len() && emit(seg, nb2)[j] == i;
        assert(emit(seg, nb1)[j] == i);
    }
}

proof fn lemma_same_used_below(
    seg: L1Segment,
    nb1: Seq<Option<L1Segment>>,
    nb2: Seq<Option<L1Segment>>,
    i: int,
)
    requires
        absent_or_empty(nb1, nb2),
    ensures
        used_below(seg, nb1, i) == used_below(seg, nb2, i),
    decreases i,
{
    if i > 0 {
        lemma_same_used_below(seg, nb1, nb2, i - 1);
        lemma_same_id_used(seg, nb1, nb2, i - 1);
    }
}

proof fn lemma_same_vertex_list(
    seg: L1Segment,
    nb1: Seq<Option<L1Segment>>,
    nb2: Seq<Option<L1Segment>>,
    pos: ICoords,
    i: int,
)
    requires
        absent_or_empty(nb1, nb2),
    ensures
        vertex_list_upto(seg, nb1, pos, i) == vertex_list_upto(seg, nb2, pos, i),
    decreases i,
{
    if i > 0 {
        lemma_same_vertex_list(seg, nb1, nb2, pos, i - 1);
        lemma_same_id_used(seg, nb1, nb2, i - 1);
    }
}

/// An absent neighbour and a present-but-fully-empty neighbour are
/// indistinguishable to the mesher: meshing a segment against either
/// produces identical vertex and index output. Missing data always
/// reads as exposed, never as solid.
pub proof fn lemma_absent_neighbour_as_empty(
    seg: L1Segment,
    nb1: Seq<Option<L1Segment>>,
    nb2: Seq<Option<L1Segment>>,
    pos: ICoords,
)
    requires
        absent_or_empty(nb1, nb2),
    ensures
        emit(seg, nb1) == emit(seg, nb2),
        forall|i: int| 0 <= i ==> used_below(seg, nb1, i) == used_below(seg, nb2, i),
        vertex_list_upto(seg, nb1, pos, 262144) == vertex_list_upto(seg, nb2, pos, 262144),
{
    lemma_same_emit_upto(seg, nb1, nb2, 32768);
    assert forall|i: int| 0 <= i implies used_below(seg, nb1, i) == used_below(seg, nb2, i) by {
        lemma_same_used_below(seg, nb1, nb2, i);
    }
    lemma_same_vertex_list(seg, nb1, nb2, pos, 262144);
}
} // verus!
