use citrus::icoords::{Axis, ICoords};

#[test]
fn round_trip_positive() {
    let c = ICoords::new(5000, 123, 2047);
    let l3 = c.l3_glob();
    let l2 = c.l2_loc();
    let l1 = c.l1_loc();
    let bl = c.bl_loc();
    assert_eq!(2048 * l3.x + 256 * l2.x + 32 * l1.x + bl.x, c.x);
    assert_eq!(2048 * l3.y + 256 * l2.y + 32 * l1.y + bl.y, c.y);
    assert_eq!(2048 * l3.z + 256 * l2.z + 32 * l1.z + bl.z, c.z);
}

#[test]
fn round_trip_negative() {
    for &(x, y, z) in &[
        (-1i64, -2048i64, -2049i64),
        (-1000000, 0, 1000000),
        (-32, -256, -2048),
        (-31, 31, -33),
        (i64::MIN / 4, -7, 7),
    ] {
        let c = ICoords::new(x, y, z);
        let l3 = c.l3_glob();
        let l2 = c.l2_loc();
        let l1 = c.l1_loc();
        let bl = c.bl_loc();
        assert_eq!(2048 * l3.x + 256 * l2.x + 32 * l1.x + bl.x, c.x);
        assert_eq!(2048 * l3.y + 256 * l2.y + 32 * l1.y + bl.y, c.y);
        assert_eq!(2048 * l3.z + 256 * l2.z + 32 * l1.z + bl.z, c.z);
        assert!(l2.x >= 0 && l2.x < 8);
        assert!(l1.x >= 0 && l1.x < 8);
        assert!(bl.x >= 0 && bl.x < 32);
    }
}

#[test]
fn decompose_matches_locals() {
    let c = ICoords::new(-5000, 777, -1);
    let (l2x, l1x, blx) = c.decompose(Axis::X);
    let (l2y, l1y, bly) = c.decompose(Axis::Y);
    let (l2z, l1z, blz) = c.decompose(Axis::Z);
    let l2 = c.l2_loc();
    let l1 = c.l1_loc();
    let bl = c.bl_loc();
    assert_eq!((l2x, l1x, blx), (l2.x, l1.x, bl.x));
    assert_eq!((l2y, l1y, bly), (l2.y, l1.y, bl.y));
    assert_eq!((l2z, l1z, blz), (l2.z, l1.z, bl.z));
}

#[test]
fn euclidean_remainder_nonnegative() {
    let c = ICoords::new(-1, -33, -2049);
    let d = ICoords::new(32, 32, 32);
    let r = c.rem_euclid(d);
    assert_eq!((r.x, r.y, r.z), (31, 31, 31));
    let q = c.div_euclid(d);
    assert_eq!((q.x, q.y, q.z), (-1, -2, -65));
}

#[test]
fn zero_crossing_decomposition() {
    // No off-by-one at the zero crossing: -1 belongs to segment -1.
    let a = ICoords::new(-1, -1, -1);
    let b = ICoords::new(0, 0, 0);
    assert_eq!(a.l1_glob().triple(), (-1, -1, -1));
    assert_eq!(b.l1_glob().triple(), (0, 0, 0));
    assert_eq!(a.bl_loc().triple(), (31, 31, 31));
    assert_eq!(b.bl_loc().triple(), (0, 0, 0));
}

#[test]
fn add_and_mul_componentwise() {
    let a = ICoords::new(1, -2, 3);
    let b = ICoords::new(10, 20, -30);
    let s = a.add(b);
    assert_eq!(s.triple(), (11, 18, -27));
    let p = a.mul(b);
    assert_eq!(p.triple(), (10, -40, -90));
}
