//! The integer part of the terrain noise field: a pseudo-random
//! gradient vector per lattice point, picked by a quick bit-mixing hash
//! of the point's coordinates. The floating-point interpolation that
//! turns gradients into a scalar field is a consumer's concern; the
//! library itself only needs the threshold decisions it produces.

use vstd::prelude::*;
use crate::icoords::ICoords;

verus! {

/// The mixing hash of a lattice point: fold the high bits of
/// `x - y - z` (wrapping) down and keep the low four bits.
pub open spec fn gradient_hash(p: ICoords) -> u64 {
    let h0 = vstd::wrapping::u64_specs::wrapping_sub(
        vstd::wrapping::u64_specs::wrapping_sub(p.x as u64, p.y as u64),
        p.z as u64,
    );
    let h1 = h0 ^ (h0 >> 32u64);
    let h2 = h1 ^ (h1 >> 16u64);
    let h3 = h2 ^ (h2 >> 8u64);
    let h4 = h3 ^ (h3 >> 4u64);
    h4 & 0xf
}

/// The gradient assigned to hash value `h`: one of twelve edge
/// directions of a cube, the four spare hash values reusing one each.
pub open spec fn gradient_of(h: u64) -> ICoords {
    if h == 0 || h == 12 {
        ICoords { x: 0i64, y: 1i64, z: 1i64 }
    } else if h == 1 {
        ICoords { x: 0i64, y: 1i64, z: -1i64 }
    } else if h == 2 || h == 14 {
        ICoords { x: 0i64, y: -1i64, z: 1i64 }
    } else if h == 3 {
        ICoords { x: 0i64, y: -1i64, z: -1i64 }
    } else if h == 4 {
        ICoords { x: 1i64, y: 1i64, z: 0i64 }
    } else if h == 5 {
        ICoords { x: 1i64, y: -1i64, z: 0i64 }
    } else if h == 6 || h == 13 {
        ICoords { x: -1i64, y: 1i64, z: 0i64 }
    } else if h == 7 {
        ICoords { x: -1i64, y: -1i64, z: 0i64 }
    } else if h == 8 {
        ICoords { x: 1i64, y: 0i64, z: 1i64 }
    } else if h == 9 {
        ICoords { x: 1i64, y: 0i64, z: -1i64 }
    } else if h == 10 {
        ICoords { x: -1i64, y: 0i64, z: 1i64 }
    } else {
        ICoords { x: -1i64, y: 0i64, z: -1i64 }
    }
}

/// The pseudo-random gradient vector at grid point `p`.
pub fn gradient(p: &ICoords) -> (r: ICoords)
    ensures
        r == gradient_of(gradient_hash(*p)),
{
    let h0 = (p.x as u64).wrapping_sub(p.y as u64).wrapping_sub(p.z as u64);
    let h1 = h0 ^ (h0 >> 32u64);
    let h2 = h1 ^ (h1 >> 16u64);
    let h3 = h2 ^ (h2 >> 8u64);
    let h4 = h3 ^ (h3 >> 4u64);
    let hash = h4 & 0xf;
    proof {
        assert(hash < 16) by (bit_vector)
            requires
                hash == h4 & 0xf,
        ;
    }
    if hash == 0 || hash == 12 {
        ICoords { x: 0, y: 1, z: 1 }
    } else if hash == 1 {
        ICoords { x: 0, y: 1, z: -1 }
    } else if hash == 2 || hash == 14 {
        ICoords { x: 0, y: -1, z: 1 }
    } else if hash == 3 {
        ICoords { x: 0, y: -1, z: -1 }
    } else if hash == 4 {
        ICoords { x: 1, y: 1, z: 0 }
    } else if hash == 5 {
        ICoords { x: 1, y: -1, z: 0 }
    } else if hash == 6 || hash == 13 {
        ICoords { x: -1, y: 1, z: 0 }
    } else if hash == 7 {
        ICoords { x: -1, y: -1, z: 0 }
    } else if hash == 8 {
        ICoords { x: 1, y: 0, z: 1 }
    } else if hash == 9 {
        ICoords { x: 1, y: 0, z: -1 }
    } else if hash == 10 {
        ICoords { x: -1, y: 0, z: 1 }
    } else {
        ICoords { x: -1, y: 0, z: -1 }
    }
}

} // verus!
