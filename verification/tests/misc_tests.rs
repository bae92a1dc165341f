use citrus::block::BlockType;
use citrus::face::Face;
use citrus::icoords::ICoords;
use citrus::mt::Mt19937;
use citrus::noise::gradient;
use citrus::segment::{L1Segment, L2Segment, L3Segment};

#[test]
fn solidity_of_block_kinds() {
    assert!(!BlockType::NoBlock.is_solid());
    assert!(BlockType::Grass.is_solid());
    assert_eq!(BlockType::default(), BlockType::NoBlock);
}

#[test]
fn face_order_and_directions() {
    let all = Face::all();
    assert_eq!(all.len(), 6);
    let dirs: Vec<(i64, i64, i64)> = all.iter().map(|f| f.numeric().triple()).collect();
    assert_eq!(
        dirs,
        vec![(1, 0, 0), (-1, 0, 0), (0, 1, 0), (0, -1, 0), (0, 0, 1), (0, 0, -1)]
    );
}

#[test]
fn face_corner_tables() {
    // Each face's table names six corner references covering exactly
    // the four corners of that face, two triangles.
    assert_eq!(Face::XPos.indices(), [4, 5, 6, 5, 7, 6]);
    assert_eq!(Face::XNeg.indices(), [1, 0, 2, 1, 2, 3]);
    assert_eq!(Face::YPos.indices(), [2, 6, 3, 3, 6, 7]);
    assert_eq!(Face::YNeg.indices(), [0, 1, 4, 1, 5, 4]);
    assert_eq!(Face::ZPos.indices(), [1, 3, 5, 3, 7, 5]);
    assert_eq!(Face::ZNeg.indices(), [0, 4, 2, 2, 4, 6]);
    // Corner bit 2 is the x offset: XPos touches only corners with
    // that bit set, XNeg only those without.
    for c in Face::XPos.indices() {
        assert_eq!(c / 4, 1);
    }
    for c in Face::XNeg.indices() {
        assert_eq!(c / 4, 0);
    }
    for c in Face::ZPos.indices() {
        assert_eq!(c % 2, 1);
    }
    for c in Face::ZNeg.indices() {
        assert_eq!(c % 2, 0);
    }
}

#[test]
fn fresh_segments_are_empty() {
    let l1 = L1Segment::default();
    assert_eq!(l1.blocks.len(), 32768);
    assert_eq!(l1.number_of_solid_blocks(), 0);
    let l2 = L2Segment::default();
    assert_eq!(l2.sub_segments.len(), 512);
    assert_eq!(l2.number_of_l1_segments(), 0);
    let l3 = L3Segment::default();
    assert_eq!(l3.sub_segments.len(), 512);
    assert_eq!(l3.number_of_l2_segments(), 0);
}

#[test]
fn segment_counts_track_content() {
    let mut l1 = L1Segment::default();
    l1.blocks[0] = BlockType::Grass;
    l1.blocks[32767] = BlockType::Grass;
    assert_eq!(l1.number_of_solid_blocks(), 2);
    let mut l2 = L2Segment::default();
    l2.sub_segments[3] = Some(L1Segment::default());
    assert_eq!(l2.number_of_l1_segments(), 1);
    let mut l3 = L3Segment::default();
    l3.sub_segments[0] = Some(L2Segment::default());
    l3.sub_segments[511] = Some(L2Segment::default());
    assert_eq!(l3.number_of_l2_segments(), 2);
}

#[test]
fn twister_is_deterministic() {
    let mut a = Mt19937::new(123);
    let mut b = Mt19937::new(123);
    for _ in 0..1000 {
        assert_eq!(a.next(), b.next());
    }
    let mut c = Mt19937::new(124);
    let first: Vec<u32> = (0..16).map(|_| Mt19937::new(123).next()).collect();
    assert!(first.iter().all(|&v| v == first[0]));
    let differs = (0..16).any(|_| a.next() != c.next());
    assert!(differs);
}

#[test]
fn twister_reference_output() {
    // The standard first output for seed 5489.
    let mut mt = Mt19937::new(5489);
    assert_eq!(mt.next(), 3499211612);
}

#[test]
fn gradient_is_a_unit_edge_direction() {
    for &(x, y, z) in &[
        (0i64, 0i64, 0i64),
        (1, 0, 0),
        (-5, 7, 12),
        (1000, -2000, 3000),
        (-1, -1, -1),
    ] {
        let g = gradient(&ICoords::new(x, y, z));
        let ones = [g.x, g.y, g.z].iter().filter(|&&v| v == 1 || v == -1).count();
        let zeros = [g.x, g.y, g.z].iter().filter(|&&v| v == 0).count();
        assert_eq!((ones, zeros), (2, 1));
    }
}

#[test]
fn gradient_concrete_values() {
    // Hash of (0, 0, 0) is 0; hash of (1, 0, 0) is 1.
    assert_eq!(gradient(&ICoords::new(0, 0, 0)).triple(), (0, 1, 1));
    assert_eq!(gradient(&ICoords::new(1, 0, 0)).triple(), (0, 1, -1));
    // Equal points give equal gradients.
    let p = ICoords::new(-123456, 789, -42);
    assert_eq!(gradient(&p).triple(), gradient(&p).triple());
}
