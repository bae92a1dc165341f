//! Signed global block coordinates and their hierarchical decomposition.
//!
//! A global coordinate is split per axis into the owning L3 segment, the
//! local L2 and L1 cells inside it, and the block cell inside the leaf.
//! All splits use Euclidean (always-nonnegative remainder) semantics so
//! that negative coordinates decompose consistently, with no off-by-one at
//! zero crossings.

use vstd::prelude::*;
use vstd::arithmetic::div_mod::{
    lemma_fundamental_div_mod, lemma_fundamental_div_mod_converse_div,
    lemma_fundamental_div_mod_converse_mod, lemma_mod_division_less_than_divisor,
    lemma_div_pos_is_pos, lemma_div_nonincreasing,
};
use vstd::arithmetic::mul::{lemma_mul_inequality, lemma_mul_left_inequality};

verus! {

/// One of the three coordinate axes.
#[derive(Clone, Copy, Debug)]
pub enum Axis {
    X,
    Y,
    Z,
}

/// A signed global block coordinate.
#[derive(Clone, Copy, Debug, PartialEq, Eq, Hash, Structural)]
pub struct ICoords {
    pub x: i64,
    pub y: i64,
    pub z: i64,
}

/// Index of the L3 segment that owns block coordinate `v`, along one axis.
pub open spec fn l3_glob_of(v: int) -> int {
    v / 2048
}

/// Index of the L2 segment that owns block coordinate `v`, along one axis.
pub open spec fn l2_glob_of(v: int) -> int {
    v / 256
}

/// Cell of the owning L2 segment inside its L3 segment, along one axis.
pub open spec fn l2_loc_of(v: int) -> int {
    (v / 256) % 8
}

/// Index of the leaf segment that owns block coordinate `v`, along one axis.
pub open spec fn l1_glob_of(v: int) -> int {
    v / 32
}

/// Cell of the owning leaf segment inside its L2 segment, along one axis.
pub open spec fn l1_loc_of(v: int) -> int {
    (v / 32) % 8
}

/// Cell of the block inside its leaf segment, along one axis.
pub open spec fn bl_loc_of(v: int) -> int {
    v % 32
}

/// Euclidean quotient of an `i64` by a positive divisor never leaves the
/// `i64` range.
pub(crate) proof fn lemma_div_in_range(a: int, d: int)
    requires
        1 <= d,
        i64::MIN <= a <= i64::MAX,
    ensures
        i64::MIN <= a / d <= i64::MAX,
{
    broadcast use vstd::arithmetic::mul::lemma_mul_is_commutative;

    lemma_fundamental_div_mod(a, d);
    lemma_mod_division_less_than_divisor(a, d);
    let q = a / d;
    let r = a % d;
    if a >= 0 {
        lemma_div_pos_is_pos(a, d);
        lemma_div_nonincreasing(a, d);
    } else {
        // q cannot be below a: otherwise q * d + r would undershoot a.
        if q < a {
            assert(q <= a - 1);
            lemma_mul_inequality(q, a - 1, d);
            assert((a - 1) * d <= a - d) by (nonlinear_arith)
                requires
                    a <= -1,
                    d >= 1,
            ;
            assert(a == q * d + r);
            assert(false);
        }
        // q is negative, hence below i64::MAX.
        assert(q * d == a - r);
        assert(q * d <= -1);
        assert(q <= -1) by (nonlinear_arith)
            requires
                q * d <= -1,
                d >= 1,
        ;
    }
}

/// Euclidean division of an `i64` by a positive constant divisor.
fn div_e(a: i64, d: i64) -> (q: i64)
    requires
        1 <= d,
    ensures
        q == a as int / d as int,
{
    proof {
        lemma_div_in_range(a as int, d as int);
    }
    a.checked_div_euclid(d).unwrap()
}

/// Euclidean remainder of an `i64` by a positive constant divisor.
fn rem_e(a: i64, d: i64) -> (r: i64)
    requires
        1 <= d,
    ensures
        r == a as int % d as int,
{
    proof {
        lemma_mod_division_less_than_divisor(a as int, d as int);
    }
    a.checked_rem_euclid(d).unwrap()
}

impl ICoords {
    pub fn new(x: i64, y: i64, z: i64) -> (r: Self)
        ensures
            r == (ICoords { x, y, z }),
    {
        ICoords { x, y, z }
    }

    /// The three components as a tuple.
    pub fn triple(&self) -> (r: (i64, i64, i64))
        ensures
            r == (self.x, self.y, self.z),
    {
        (self.x, self.y, self.z)
    }

    /// Component-wise sum.
    pub fn add(self, rhs: ICoords) -> (r: ICoords)
        requires
            i64::MIN <= self.x + rhs.x <= i64::MAX,
            i64::MIN <= self.y + rhs.y <= i64::MAX,
            i64::MIN <= self.z + rhs.z <= i64::MAX,
        ensures
            r.x == self.x + rhs.x,
            r.y == self.y + rhs.y,
            r.z == self.z + rhs.z,
    {
        ICoords { x: self.x + rhs.x, y: self.y + rhs.y, z: self.z + rhs.z }
    }

    /// Component-wise product.
    pub fn mul(self, rhs: ICoords) -> (r: ICoords)
        requires
            i64::MIN <= self.x * rhs.x <= i64::MAX,
            i64::MIN <= self.y * rhs.y <= i64::MAX,
            i64::MIN <= self.z * rhs.z <= i64::MAX,
        ensures
            r.x == self.x * rhs.x,
            r.y == self.y * rhs.y,
            r.z == self.z * rhs.z,
    {
        ICoords { x: self.x * rhs.x, y: self.y * rhs.y, z: self.z * rhs.z }
    }

    /// Component-wise Euclidean quotient by a positive divisor.
    pub fn div_euclid(self, rhs: ICoords) -> (r: ICoords)
        requires
            1 <= rhs.x,
            1 <= rhs.y,
            1 <= rhs.z,
        ensures
            r.x == self.x as int / rhs.x as int,
            r.y == self.y as int / rhs.y as int,
            r.z == self.z as int / rhs.z as int,
    {
        ICoords { x: div_e(self.x, rhs.x), y: div_e(self.y, rhs.y), z: div_e(self.z, rhs.z) }
    }

    /// Component-wise Euclidean remainder by a positive divisor. The result
    /// is nonnegative whatever the sign of `self`.
    pub fn rem_euclid(self, rhs: ICoords) -> (r: ICoords)
        requires
            1 <= rhs.x,
            1 <= rhs.y,
            1 <= rhs.z,
        ensures
            r.x == self.x as int % rhs.x as int,
            r.y == self.y as int % rhs.y as int,
            r.z == self.z as int % rhs.z as int,
    {
        ICoords { x: rem_e(self.x, rhs.x), y: rem_e(self.y, rhs.y), z: rem_e(self.z, rhs.z) }
    }

    /// Local cells of the owning L2 segment, leaf segment and block along
    /// one axis: `(l2_loc, l1_loc, bl_loc)` of the chosen component.
    pub fn decompose(&self, along: Axis) -> (r: (i64, i64, i64))
        ensures
            ({
                let v = match along {
                    Axis::X => self.x as int,
                    Axis::Y => self.y as int,
                    Axis::Z => self.z as int,
                };
                r.0 == l2_loc_of(v) && r.1 == l1_loc_of(v) && r.2 == bl_loc_of(v)
            }),
    {
        let v = match along {
            Axis::X => self.x,
            Axis::Y => self.y,
            Axis::Z => self.z,
        };
        let l2c = rem_e(div_e(v, 256), 8);
        let l1c = rem_e(div_e(v, 32), 8);
        let bc = rem_e(v, 32);
        (l2c, l1c, bc)
    }

    /// Global coordinates of the L3 segment that contains `self`.
    pub fn l3_glob(&self) -> (r: ICoords)
        ensures
            r.x == l3_glob_of(self.x as int),
            r.y == l3_glob_of(self.y as int),
            r.z == l3_glob_of(self.z as int),
    {
        ICoords { x: div_e(self.x, 2048), y: div_e(self.y, 2048), z: div_e(self.z, 2048) }
    }

    /// Global coordinates of the L2 segment that contains `self`.
    pub fn l2_glob(&self) -> (r: ICoords)
        ensures
            r.x == l2_glob_of(self.x as int),
            r.y == l2_glob_of(self.y as int),
            r.z == l2_glob_of(self.z as int),
    {
        ICoords { x: div_e(self.x, 256), y: div_e(self.y, 256), z: div_e(self.z, 256) }
    }

    /// Cell of the owning L2 segment inside its L3 segment.
    pub fn l2_loc(&self) -> (r: ICoords)
        ensures
            r.x == l2_loc_of(self.x as int),
            r.y == l2_loc_of(self.y as int),
            r.z == l2_loc_of(self.z as int),
    {
        ICoords {
            x: rem_e(div_e(self.x, 256), 8),
            y: rem_e(div_e(self.y, 256), 8),
            z: rem_e(div_e(self.z, 256), 8),
        }
    }

    /// Global coordinates of the leaf segment that contains `self`.
    pub fn l1_glob(&self) -> (r: ICoords)
        ensures
            r.x == l1_glob_of(self.x as int),
            r.y == l1_glob_of(self.y as int),
            r.z == l1_glob_of(self.z as int),
    {
        ICoords { x: div_e(self.x, 32), y: div_e(self.y, 32), z: div_e(self.z, 32) }
    }

    /// Cell of the owning leaf segment inside its L2 segment.
    pub fn l1_loc(&self) -> (r: ICoords)
        ensures
            r.x == l1_loc_of(self.x as int),
            r.y == l1_loc_of(self.y as int),
            r.z == l1_loc_of(self.z as int),
    {
        ICoords {
            x: rem_e(div_e(self.x, 32), 8),
            y: rem_e(div_e(self.y, 32), 8),
            z: rem_e(div_e(self.z, 32), 8),
        }
    }

    /// Cell of the block inside its leaf segment.
    pub fn bl_loc(&self) -> (r: ICoords)
        ensures
            r.x == bl_loc_of(self.x as int),
            r.y == bl_loc_of(self.y as int),
            r.z == bl_loc_of(self.z as int),
    {
        ICoords { x: rem_e(self.x, 32), y: rem_e(self.y, 32), z: rem_e(self.z, 32) }
    }
}

/// Splitting one coordinate component into its four levels and scaling
/// them back together recovers the component exactly.
pub proof fn lemma_recompose_axis(v: int)
    ensures
        v == 2048 * l3_glob_of(v) + 256 * l2_loc_of(v) + 32 * l1_loc_of(v) + bl_loc_of(v),
        0 <= l2_loc_of(v) < 8,
        0 <= l1_loc_of(v) < 8,
        0 <= bl_loc_of(v) < 32,
{
    let q3 = v / 2048;
    let r3 = v % 2048;
    lemma_fundamental_div_mod(v, 2048);
    lemma_mod_division_less_than_divisor(v, 2048);
    let a = r3 / 256;
    let r2 = r3 % 256;
    lemma_fundamental_div_mod(r3, 256);
    lemma_mod_division_less_than_divisor(r3, 256);
    let b = r2 / 32;
    let r1 = r2 % 32;
    lemma_fundamental_div_mod(r2, 32);
    lemma_mod_division_less_than_divisor(r2, 32);
    lemma_div_pos_is_pos(r3, 256);
    lemma_div_pos_is_pos(r2, 32);
    assert(a < 8) by {
        if a >= 8 {
            lemma_mul_inequality(8, a, 256);
        }
    }
    assert(b < 8) by {
        if b >= 8 {
            lemma_mul_inequality(8, b, 32);
        }
    }
    // v == 256 * (8 * q3 + a) + r2, so v / 256 == 8 * q3 + a.
    assert(v == (8 * q3 + a) * 256 + r2);
    lemma_fundamental_div_mod_converse_div(v, 256, 8 * q3 + a, r2);
    lemma_fundamental_div_mod_converse_mod(8 * q3 + a, 8, q3, a);
    assert(l2_loc_of(v) == a);
    // v == 32 * (64 * q3 + 8 * a + b) + r1, so v / 32 == 64 * q3 + 8 * a + b.
    assert(v == (64 * q3 + 8 * a + b) * 32 + r1);
    lemma_fundamental_div_mod_converse_div(v, 32, 64 * q3 + 8 * a + b, r1);
    lemma_fundamental_div_mod_converse_mod(64 * q3 + 8 * a + b, 8, 8 * q3 + a, b);
    assert(l1_loc_of(v) == b);
    // v == (64 * q3 + 8 * a + b) * 32 + r1 also pins the block cell.
    lemma_fundamental_div_mod_converse_mod(v, 32, 64 * q3 + 8 * a + b, r1);
    assert(bl_loc_of(v) == r1);
}

/// Decomposition round-trip: reconstructing a global coordinate from its
/// four per-level parts recovers exactly the original coordinate, for
/// negative, zero and positive components alike.
pub proof fn lemma_decompose_round_trip(c: ICoords)
    ensures
        c.x == 2048 * l3_glob_of(c.x as int) + 256 * l2_loc_of(c.x as int) + 32 * l1_loc_of(
            c.x as int,
        ) + bl_loc_of(c.x as int),
        c.y == 2048 * l3_glob_of(c.y as int) + 256 * l2_loc_of(c.y as int) + 32 * l1_loc_of(
            c.y as int,
        ) + bl_loc_of(c.y as int),
        c.z == 2048 * l3_glob_of(c.z as int) + 256 * l2_loc_of(c.z as int) + 32 * l1_loc_of(
            c.z as int,
        ) + bl_loc_of(c.z as int),
{
    lemma_recompose_axis(c.x as int);
    lemma_recompose_axis(c.y as int);
    lemma_recompose_axis(c.z as int);
}

/// A coordinate whose component is a multiple of the leaf edge, plus an
/// offset inside the leaf, decomposes to the same segment cells as the
/// base coordinate, and the offset becomes the block cell.
pub proof fn lemma_aligned_decompose(o: int, delta: int)
    requires
        o % 32 == 0,
        0 <= delta < 32,
    ensures
        l3_glob_of(o + delta) == l3_glob_of(o),
        l2_loc_of(o + delta) == l2_loc_of(o),
        l1_loc_of(o + delta) == l1_loc_of(o),
        bl_loc_of(o + delta) == delta,
        bl_loc_of(o) == 0,
{
    let k = o / 32;
    lemma_fundamental_div_mod(o, 32);
    assert(o == 32 * k);
    assert(o + delta == k * 32 + delta);
    lemma_fundamental_div_mod_converse_div(o + delta, 32, k, delta);
    lemma_fundamental_div_mod_converse_mod(o + delta, 32, k, delta);
    assert(l1_glob_of(o + delta) == k);
    assert(bl_loc_of(o + delta) == delta);
    // The L2 cell: both o and o + delta sit 256 * (k / 8) below the same base.
    let q = k / 8;
    let s = k % 8;
    lemma_fundamental_div_mod(k, 8);
    lemma_mod_division_less_than_divisor(k, 8);
    assert(o + delta == q * 256 + (32 * s + delta));
    lemma_fundamental_div_mod_converse_div(o + delta, 256, q, 32 * s + delta);
    assert(o == q * 256 + (32 * s + 0));
    lemma_fundamental_div_mod_converse_div(o, 256, q, 32 * s);
    assert(l2_glob_of(o + delta) == l2_glob_of(o));
    // The L3 cell: both share 2048 * (q / 8).
    let q2 = q / 8;
    let s2 = q % 8;
    lemma_fundamental_div_mod(q, 8);
    lemma_mod_division_less_than_divisor(q, 8);
    assert(o + delta == q2 * 2048 + (256 * s2 + 32 * s + delta));
    lemma_fundamental_div_mod_converse_div(o + delta, 2048, q2, 256 * s2 + 32 * s + delta);
    assert(o == q2 * 2048 + (256 * s2 + 32 * s));
    lemma_fundamental_div_mod_converse_div(o, 2048, q2, 256 * s2 + 32 * s);
    assert(l3_glob_of(o + delta) == l3_glob_of(o));
}

} // verus!
