use citrus::block::BlockType;
use citrus::icoords::ICoords;
use citrus::world::{World, WorldError};

#[test]
fn get_block_on_empty_world() {
    let w = World::new(12);
    assert_eq!(w.get_block(ICoords::new(0, 0, 0)), BlockType::NoBlock);
    assert_eq!(w.get_block(ICoords::new(-1, 5000, -70000)), BlockType::NoBlock);
}

#[test]
fn set_then_get() {
    let mut w = World::new(12);
    let c = ICoords::new(100, 200, 300);
    assert_eq!(w.set_block(c, BlockType::Grass), Ok(()));
    assert_eq!(w.get_block(c), BlockType::Grass);
    assert_eq!(w.get_block(ICoords::new(100, 200, 301)), BlockType::NoBlock);
    assert_eq!(w.get_block(ICoords::new(101, 200, 300)), BlockType::NoBlock);
}

#[test]
fn set_block_negative_coordinates() {
    // The sparse top level extends in any direction.
    let mut w = World::new(12);
    let c = ICoords::new(-1, -2049, -100000);
    assert_eq!(w.set_block(c, BlockType::Grass), Ok(()));
    assert_eq!(w.get_block(c), BlockType::Grass);
    assert_eq!(w.get_block(ICoords::new(-1, -2049, -100001)), BlockType::NoBlock);
}

#[test]
fn set_block_overwrites() {
    let mut w = World::new(12);
    let c = ICoords::new(7, 8, 9);
    assert_eq!(w.set_block(c, BlockType::Grass), Ok(()));
    assert_eq!(w.set_block(c, BlockType::NoBlock), Ok(()));
    assert_eq!(w.get_block(c), BlockType::NoBlock);
}

#[test]
fn out_of_bounds_set_block_rejected() {
    // A write beyond the configured maximum leaves every in-range
    // block unchanged.
    let mut w = World::new(12);
    let a = ICoords::new(1, 2, 3);
    let b = ICoords::new(2000, 100, 50);
    assert_eq!(w.set_block(a, BlockType::Grass), Ok(()));
    assert_eq!(w.set_block(b, BlockType::Grass), Ok(()));
    assert_eq!(
        w.set_block(ICoords::new(2048, 0, 0), BlockType::Grass),
        Err(WorldError::OutOfBounds)
    );
    assert_eq!(
        w.set_block(ICoords::new(0, 5000, 0), BlockType::Grass),
        Err(WorldError::OutOfBounds)
    );
    assert_eq!(w.get_block(a), BlockType::Grass);
    assert_eq!(w.get_block(b), BlockType::Grass);
    assert_eq!(w.get_block(ICoords::new(2048, 0, 0)), BlockType::NoBlock);
    for x in 0..4 {
        for y in 0..4 {
            for z in 0..4 {
                let c = ICoords::new(x * 600, y * 600, z * 600);
                let before = w.get_block(c);
                assert_eq!(
                    w.set_block(ICoords::new(3000, 3000, 3000), BlockType::Grass),
                    Err(WorldError::OutOfBounds)
                );
                assert_eq!(w.get_block(c), before);
            }
        }
    }
}

#[test]
fn generate_l1_segment_applies_samples() {
    let mut w = World::new(7);
    let origin = ICoords::new(32, 64, -32);
    let mut samples = vec![false; 32768];
    samples[0] = true;
    samples[1024 * 3 + 32 * 4 + 5] = true;
    w.generate_l1_segment(origin, &samples);
    assert_eq!(w.get_block(ICoords::new(32, 64, -32)), BlockType::Grass);
    assert_eq!(w.get_block(ICoords::new(32 + 3, 64 + 4, -32 + 5)), BlockType::Grass);
    assert_eq!(w.get_block(ICoords::new(33, 64, -32)), BlockType::NoBlock);
    assert_eq!(w.get_block(ICoords::new(31, 64, -32)), BlockType::NoBlock);
}

#[test]
fn generate_keeps_existing_blocks() {
    let mut w = World::new(7);
    let c = ICoords::new(5, 6, 7);
    assert_eq!(w.set_block(c, BlockType::Grass), Ok(()));
    let samples = vec![false; 32768];
    w.generate_l1_segment(ICoords::new(0, 0, 0), &samples);
    assert_eq!(w.get_block(c), BlockType::Grass);
}

#[test]
fn generation_is_deterministic() {
    // Two runs from equal worlds with the same origin and samples
    // produce bit-identical block content.
    let mut samples = vec![false; 32768];
    for i in 0..32768 {
        samples[i] = (i * 2654435761usize) % 7 < 3;
    }
    let origin = ICoords::new(-64, 0, 96);
    let mut w1 = World::new(3);
    let mut w2 = World::new(3);
    w1.generate_l1_segment(origin, &samples);
    w2.generate_l1_segment(origin, &samples);
    for x in 0..32 {
        for y in 0..32 {
            for z in 0..32 {
                let c = ICoords::new(-64 + x, y, 96 + z);
                assert_eq!(w1.get_block(c), w2.get_block(c));
            }
        }
    }
    // Repeating the call on the same world changes nothing either.
    w1.generate_l1_segment(origin, &samples);
    for x in 0..32 {
        for y in 0..32 {
            for z in 0..32 {
                let c = ICoords::new(-64 + x, y, 96 + z);
                assert_eq!(w1.get_block(c), w2.get_block(c));
            }
        }
    }
}

#[test]
fn l1_segment_lookup() {
    let mut w = World::new(0);
    assert!(w.l1_segment(ICoords::new(0, 0, 0)).is_none());
    assert_eq!(w.set_block(ICoords::new(40, 40, 40), BlockType::Grass), Ok(()));
    let leaf = w.l1_segment(ICoords::new(40, 40, 40)).expect("leaf created by write");
    assert_eq!(leaf.blocks[1024 * 8 + 32 * 8 + 8], BlockType::Grass);
    assert_eq!(leaf.number_of_solid_blocks(), 1);
    // A different leaf of the same L2 segment is still absent.
    assert!(w.l1_segment(ICoords::new(40, 40, 80)).is_none());
}

#[test]
fn meshes_over_populated_leaves() {
    let mut w = World::new(0);
    // One isolated block in one leaf, far from every boundary.
    assert_eq!(w.set_block(ICoords::new(10, 10, 10), BlockType::Grass), Ok(()));
    w.generate_meshes();
    let meshes = w.mesh_objects();
    assert_eq!(meshes.len(), 1);
    let m = &meshes[0];
    assert_eq!((m.offset.x, m.offset.y, m.offset.z), (0, 0, 0));
    assert_eq!(m.indices().len(), 36);
    assert_eq!(m.vertices().len(), 8);
}

#[test]
fn meshing_culls_across_segment_boundary() {
    // Two solid blocks facing each other across a leaf boundary: each
    // leaf's mesh drops the face toward the other block.
    let mut w = World::new(0);
    assert_eq!(w.set_block(ICoords::new(31, 5, 5), BlockType::Grass), Ok(()));
    assert_eq!(w.set_block(ICoords::new(32, 5, 5), BlockType::Grass), Ok(()));
    w.generate_meshes();
    let meshes = w.mesh_objects();
    assert_eq!(meshes.len(), 2);
    for m in meshes.iter() {
        assert_eq!(m.indices().len(), 5 * 6);
    }
}

#[test]
fn remeshing_after_neighbour_arrives() {
    // Meshing before the neighbour exists over-draws the boundary
    // face; meshing again after the neighbour is generated culls it.
    let mut w = World::new(0);
    assert_eq!(w.set_block(ICoords::new(31, 5, 5), BlockType::Grass), Ok(()));
    w.generate_meshes();
    assert_eq!(w.mesh_objects()[0].indices().len(), 6 * 6);
    assert_eq!(w.set_block(ICoords::new(32, 5, 5), BlockType::Grass), Ok(()));
    w.generate_meshes();
    assert_eq!(w.mesh_objects().len(), 2);
    assert_eq!(w.mesh_objects()[0].indices().len(), 5 * 6);
}
