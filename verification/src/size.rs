//! Fixed-extent box descriptors with bijective linear indexing.
//!
//! A `Size3D` maps the coordinates it contains to the linear indices
//! `0 .. volume` and back, with z varying fastest, then y, then x slowest:
//! `index = y_extent * z_extent * x + z_extent * y + z`. A `Size2D` does
//! the same for a plane, y fastest.

use vstd::prelude::*;
use vstd::arithmetic::div_mod::{
    lemma_fundamental_div_mod, lemma_fundamental_div_mod_converse_div,
    lemma_fundamental_div_mod_converse_mod, lemma_mod_division_less_than_divisor,
    lemma_div_pos_is_pos, lemma_breakdown, lemma_small_mod,
};
use crate::icoords::ICoords;

verus! {

/// Extents of a three-dimensional box.
#[derive(Clone, Copy, Debug)]
pub struct Size3D {
    pub x: u64,
    pub y: u64,
    pub z: u64,
}

/// Number of cells of the box.
pub open spec fn vol3(s: Size3D) -> int {
    s.x * s.y * s.z
}

/// Linear index of the cell `(cx, cy, cz)`: z fastest, x slowest.
pub open spec fn idx3(s: Size3D, cx: int, cy: int, cz: int) -> int {
    s.y * s.z * cx + s.z * cy + cz
}

/// x component of the cell with linear index `i`.
pub open spec fn c3d_x(s: Size3D, i: int) -> int {
    (i / (s.y * s.z)) % (s.x as int)
}

/// y component of the cell with linear index `i`.
pub open spec fn c3d_y(s: Size3D, i: int) -> int {
    (i / (s.z as int)) % (s.y as int)
}

/// z component of the cell with linear index `i`.
pub open spec fn c3d_z(s: Size3D, i: int) -> int {
    i % (s.z as int)
}

impl Size3D {
    /// The box is small enough that its indices and coordinates fit the
    /// machine types used for them.
    pub open spec fn wf(self) -> bool {
        &&& self.x * self.y * self.z <= u64::MAX
        &&& self.x * self.y <= u64::MAX
        &&& self.x <= i64::MAX
        &&& self.y <= i64::MAX
        &&& self.z <= i64::MAX
    }

    /// Whether `c` lies in `[0, extent)` on every axis.
    pub open spec fn contains_spec(self, c: ICoords) -> bool {
        &&& 0 <= c.x < self.x
        &&& 0 <= c.y < self.y
        &&& 0 <= c.z < self.z
    }

    /// Number of cells of the box.
    pub fn volume(&self) -> (r: u64)
        requires
            self.wf(),
        ensures
            r == vol3(*self),
    {
        proof {
            if self.z >= 1 {
                assert(self.x * self.y <= self.x * self.y * self.z) by (nonlinear_arith)
                    requires
                        self.z >= 1,
                        self.x * self.y >= 0,
                ;
            } else {
                assert(self.x * self.y * self.z == 0) by (nonlinear_arith)
                    requires
                        self.z == 0,
                ;
            }
        }
        self.x * self.y * self.z
    }

    /// Linear index of a contained coordinate, z fastest, x slowest.
    pub fn c1d(&self, coords: ICoords) -> (r: u64)
        requires
            self.wf(),
            self.contains_spec(coords),
        ensures
            r == idx3(*self, coords.x as int, coords.y as int, coords.z as int),
            0 <= r < vol3(*self),
    {
        proof {
            lemma_idx3_in_range(*self, coords.x as int, coords.y as int, coords.z as int);
            assert(self.y * self.z <= self.x * self.y * self.z) by (nonlinear_arith)
                requires
                    self.x >= 1,
                    self.y >= 0,
                    self.z >= 0,
            ;
        }
        self.y * self.z * (coords.x as u64) + self.z * (coords.y as u64) + (coords.z as u64)
    }

    /// Bounds check against `[0, extent)` per axis.
    pub fn contains(&self, c: ICoords) -> (r: bool)
        ensures
            r == self.contains_spec(c),
    {
        c.x >= 0 && (c.x as u64) < self.x && c.y >= 0 && (c.y as u64) < self.y && c.z >= 0
            && (c.z as u64) < self.z
    }

    /// The coordinate whose linear index is `i`: the inverse of `c1d`.
    pub fn c3d(&self, i: u64) -> (r: ICoords)
        requires
            self.wf(),
            i < vol3(*self),
        ensures
            r.x == c3d_x(*self, i as int),
            r.y == c3d_y(*self, i as int),
            r.z == c3d_z(*self, i as int),
            self.contains_spec(r),
            idx3(*self, r.x as int, r.y as int, r.z as int) == i,
    {
        proof {
            lemma_extents_positive(*self, i as int);
            assert(1 <= self.y * self.z <= self.x * self.y * self.z) by (nonlinear_arith)
                requires
                    self.x >= 1,
                    self.y >= 1,
                    self.z >= 1,
            ;
            lemma_c1d_of_c3d(*self, i as int);
        }
        let x = (i / (self.y * self.z)) % self.x;
        let y = (i / self.z) % self.y;
        let z = i % self.z;
        ICoords { x: x as i64, y: y as i64, z: z as i64 }
    }
}

/// A box with a cell has three positive extents.
proof fn lemma_extents_positive(s: Size3D, i: int)
    requires
        0 <= i < vol3(s),
    ensures
        s.x >= 1,
        s.y >= 1,
        s.z >= 1,
{
    if s.x == 0 || s.y == 0 || s.z == 0 {
        assert(s.x * s.y * s.z == 0) by (nonlinear_arith)
            requires
                s.x == 0 || s.y == 0 || s.z == 0,
        ;
    }
}

/// The linear index of a contained coordinate lies in `[0, volume)`, and
/// each partial sum of its formula is already within the volume.
pub proof fn lemma_idx3_in_range(s: Size3D, cx: int, cy: int, cz: int)
    requires
        0 <= cx < s.x,
        0 <= cy < s.y,
        0 <= cz < s.z,
    ensures
        0 <= idx3(s, cx, cy, cz) < vol3(s),
        0 <= s.y * s.z * cx,
        0 <= s.z * cy,
{
    assert(s.y * s.z * cx + s.z * cy + cz < s.x * s.y * s.z && s.y * s.z * cx >= 0 && s.z * cy
        >= 0) by (nonlinear_arith)
        requires
            0 <= cx < s.x,
            0 <= cy < s.y,
            0 <= cz < s.z,
    ;
}

/// Round trip one way: converting a contained coordinate to its linear
/// index and back recovers the coordinate.
pub proof fn lemma_c3d_of_c1d(s: Size3D, cx: int, cy: int, cz: int)
    requires
        0 <= cx < s.x,
        0 <= cy < s.y,
        0 <= cz < s.z,
    ensures
        c3d_x(s, idx3(s, cx, cy, cz)) == cx,
        c3d_y(s, idx3(s, cx, cy, cz)) == cy,
        c3d_z(s, idx3(s, cx, cy, cz)) == cz,
{
    let yz = s.y * s.z as int;
    let i = idx3(s, cx, cy, cz);
    let rest = s.z * cy + cz;
    assert(0 <= rest < yz && s.y * s.z * cx == cx * yz) by (nonlinear_arith)
        requires
            0 <= cx < s.x,
            0 <= cy < s.y,
            0 <= cz < s.z,
            yz == s.y * s.z,
            rest == s.z * cy + cz,
    ;
    // i == cx * yz + rest with 0 <= rest < yz pins i / yz and i % yz.
    lemma_fundamental_div_mod_converse_div(i, yz, cx, rest);
    lemma_small_mod(cx as nat, s.x as nat);
    assert(c3d_x(s, i) == cx);
    // i == (s.y * cx + cy) * s.z + cz pins i / s.z and i % s.z.
    assert(i == (s.y * cx + cy) * s.z + cz) by (nonlinear_arith)
        requires
            i == s.y * s.z * cx + s.z * cy + cz,
    ;
    lemma_fundamental_div_mod_converse_div(i, s.z as int, s.y * cx + cy, cz);
    lemma_fundamental_div_mod_converse_mod(i, s.z as int, s.y * cx + cy, cz);
    assert(c3d_z(s, i) == cz);
    // (s.y * cx + cy) % s.y == cy.
    assert((s.y * cx + cy) == cx * s.y + cy) by (nonlinear_arith);
    lemma_fundamental_div_mod_converse_mod(s.y * cx + cy, s.y as int, cx, cy);
    assert(c3d_y(s, i) == cy);
}

/// Round trip the other way: converting a linear index to a coordinate
/// and back recovers the index, and the coordinate is contained. Together
/// with `lemma_c3d_of_c1d` this makes the indexing a bijection between
/// the box's cells and `{0, ..., volume - 1}`.
pub proof fn lemma_c1d_of_c3d(s: Size3D, i: int)
    requires
        0 <= i < vol3(s),
    ensures
        idx3(s, c3d_x(s, i), c3d_y(s, i), c3d_z(s, i)) == i,
        0 <= c3d_x(s, i) < s.x,
        0 <= c3d_y(s, i) < s.y,
        0 <= c3d_z(s, i) < s.z,
{
    lemma_extents_positive(s, i);
    let yz = s.y * s.z as int;
    assert(yz >= 1 && vol3(s) == s.x * yz) by (nonlinear_arith)
        requires
            s.y >= 1,
            s.z >= 1,
            yz == s.y * s.z,
    ;
    let q = i / yz;
    lemma_div_pos_is_pos(i, yz);
    assert(q < s.x) by {
        if q >= s.x {
            lemma_fundamental_div_mod(i, yz);
            lemma_mod_division_less_than_divisor(i, yz);
            assert(yz * q >= yz * s.x) by (nonlinear_arith)
                requires
                    q >= s.x,
                    yz >= 1,
            ;
            assert(s.x * yz == yz * s.x) by (nonlinear_arith);
        }
    }
    lemma_small_mod(q as nat, s.x as nat);
    assert(c3d_x(s, i) == q);
    lemma_fundamental_div_mod(i, yz);
    // i % (s.z * s.y) == s.z * ((i / s.z) % s.y) + i % s.z.
    lemma_breakdown(i, s.z as int, s.y as int);
    assert(s.z * s.y == yz) by (nonlinear_arith)
        requires
            yz == s.y * s.z,
    ;
    lemma_mod_division_less_than_divisor(i / (s.z as int), s.y as int);
    lemma_mod_division_less_than_divisor(i, s.z as int);
    lemma_div_pos_is_pos(i, s.z as int);
    lemma_mod_division_less_than_divisor(i, yz);
    assert(i == yz * q + s.z * c3d_y(s, i) + c3d_z(s, i));
    assert(yz * q == s.y * s.z * q) by (nonlinear_arith)
        requires
            yz == s.y * s.z,
    ;
}

/// Extents of a two-dimensional plane.
#[derive(Clone, Copy, Debug)]
pub struct Size2D {
    pub x: u64,
    pub y: u64,
}

/// Number of cells of the plane.
pub open spec fn area2(s: Size2D) -> int {
    s.x * s.y
}

/// Linear index of the cell `(cx, cy)`: y fastest.
pub open spec fn idx2(s: Size2D, cx: int, cy: int) -> int {
    s.y * cx + cy
}

impl Size2D {
    /// Number of cells of the plane.
    pub fn area(&self) -> (r: u64)
        requires
            self.x * self.y <= u64::MAX,
        ensures
            r == area2(*self),
    {
        self.x * self.y
    }

    /// Linear index of a contained cell, y fastest.
    pub fn c1d(&self, x: i64, y: i64) -> (r: usize)
        requires
            0 <= x < self.x,
            0 <= y < self.y,
            self.x * self.y <= usize::MAX,
        ensures
            r == idx2(*self, x as int, y as int),
            0 <= r < area2(*self),
    {
        proof {
            assert(self.y * x + y < self.x * self.y && self.y * x >= 0) by (nonlinear_arith)
                requires
                    0 <= x < self.x,
                    0 <= y < self.y,
            ;
        }
        (self.y * (x as u64) + (y as u64)) as usize
    }
}

/// Visits every cell of a box once, in linear-index order.
pub struct Size3DIterator {
    pub size: Size3D,
    pub i: u64,
}

impl Size3DIterator {
    /// The next coordinate in `c1d` order, or `None` once every cell of
    /// the box has been visited.
    pub fn next(&mut self) -> (r: Option<ICoords>)
        requires
            old(self).size.wf(),
        ensures
            final(self).size == old(self).size,
            old(self).i < vol3(old(self).size) ==> {
                &&& final(self).i == old(self).i + 1
                &&& r matches Some(c) && c.x == c3d_x(old(self).size, old(self).i as int) && c.y
                    == c3d_y(old(self).size, old(self).i as int) && c.z == c3d_z(
                    old(self).size,
                    old(self).i as int,
                )
            },
            old(self).i >= vol3(old(self).size) ==> r is None && final(self).i == old(self).i,
    {
        let v = self.size.volume();
        if self.i >= v {
            return None;
        }
        self.i = self.i + 1;
        Some(self.size.c3d(self.i - 1))
    }
}

impl Size3D {
    /// An iterator over the box's cells in `c1d` order.
    pub fn iter(&self) -> (r: Size3DIterator)
        ensures
            r.size == *self,
            r.i == 0,
    {
        Size3DIterator { size: *self, i: 0 }
    }
}

/// Visits every cell of a plane once, in linear-index order (y fastest).
pub struct Size2DIterator {
    pub size: Size2D,
    pub i: u64,
}

impl Size2DIterator {
    /// The next cell in `c1d` order, or `None` once every cell of the
    /// plane has been visited.
    pub fn next(&mut self) -> (r: Option<(i64, i64)>)
        requires
            old(self).size.x * old(self).size.y <= u64::MAX,
            old(self).size.x <= i64::MAX,
            old(self).size.y <= i64::MAX,
        ensures
            final(self).size == old(self).size,
            old(self).i < area2(old(self).size) ==> {
                &&& final(self).i == old(self).i + 1
                &&& r matches Some(c) && c.0 == (old(self).i as int / old(self).size.y as int) % (
                old(self).size.x as int) && c.1 == old(self).i as int % old(self).size.y as int
            },
            old(self).i >= area2(old(self).size) ==> r is None && final(self).i == old(self).i,
    {
        let a = self.size.area();
        if self.i >= a {
            return None;
        }
        proof {
            if self.size.y == 0 {
                assert(area2(self.size) == 0) by (nonlinear_arith)
                    requires
                        self.size.y == 0,
                ;
            }
            lemma_div_pos_is_pos(self.i as int, self.size.y as int);
            lemma_mod_division_less_than_divisor(self.i as int, self.size.y as int);
            lemma_mod_division_less_than_divisor(
                self.i as int / self.size.y as int,
                self.size.x as int,
            );
            if self.size.x == 0 {
                assert(area2(self.size) == 0) by (nonlinear_arith)
                    requires
                        self.size.x == 0,
                ;
            }
        }
        let y = self.i % self.size.y;
        let x = (self.i / self.size.y) % self.size.x;
        self.i = self.i + 1;
        Some((x as i64, y as i64))
    }
}

impl Size2D {
    /// An iterator over the plane's cells in `c1d` order.
    pub fn iter(&self) -> (r: Size2DIterator)
        ensures
            r.size == *self,
            r.i == 0,
    {
        Size2DIterator { size: *self, i: 0 }
    }
}

} // verus!
