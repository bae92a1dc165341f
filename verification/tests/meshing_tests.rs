use citrus::block::BlockType;
use citrus::icoords::ICoords;
use citrus::meshing::{l1_solids, mesh_l1_segment, MeshVertex};
use citrus::segment::L1Segment;

fn leaf_with(cells: &[(usize, usize, usize)]) -> L1Segment {
    let mut seg = L1Segment::default();
    for &(x, y, z) in cells {
        seg.blocks[1024 * x + 32 * y + z] = BlockType::Grass;
    }
    seg
}

fn origin() -> ICoords {
    ICoords { x: 0, y: 0, z: 0 }
}

#[test]
fn solids_bitmask_single_column() {
    let seg = leaf_with(&[(3, 7, 0), (3, 7, 5), (3, 7, 31)]);
    let words = l1_solids(&seg);
    assert_eq!(words.len(), 1024);
    let col = 32 * 3 + 7;
    assert_eq!(words[col], 1 | (1 << 5) | (1u32 << 31));
    assert_eq!(words[0], 0);
}

#[test]
fn isolated_block_emits_six_faces() {
    // One solid block, everything else empty, no neighbours: exactly
    // 6 faces, 12 triangles, 36 index entries, 8 compacted vertices.
    let seg = leaf_with(&[(5, 6, 7)]);
    let (vertices, indices) = mesh_l1_segment(&seg, [None, None, None, None, None, None], origin());
    assert_eq!(indices.len(), 36);
    assert_eq!(vertices.len(), 8);
    for idx in &indices {
        assert!((*idx as usize) < vertices.len());
    }
}

#[test]
fn isolated_block_vertex_positions() {
    let seg = leaf_with(&[(5, 6, 7)]);
    let (vertices, _) = mesh_l1_segment(&seg, [None, None, None, None, None, None], origin());
    let mut expected = Vec::new();
    for dx in 0..2i64 {
        for dy in 0..2i64 {
            for dz in 0..2i64 {
                expected.push((5 + dx, 6 + dy, 7 + dz));
            }
        }
    }
    let mut got: Vec<(i64, i64, i64)> = vertices.iter().map(|v| (v.x, v.y, v.z)).collect();
    got.sort();
    expected.sort();
    assert_eq!(got, expected);
    for v in &vertices {
        assert_eq!(v.block, 1024 * 5 + 32 * 6 + 7);
    }
}

#[test]
fn mesh_respects_world_offset() {
    let seg = leaf_with(&[(0, 0, 0)]);
    let pos = ICoords { x: 64, y: -32, z: 96 };
    let (vertices, indices) = mesh_l1_segment(&seg, [None, None, None, None, None, None], pos);
    assert_eq!(indices.len(), 36);
    for v in &vertices {
        assert!(v.x == 64 || v.x == 65);
        assert!(v.y == -32 || v.y == -31);
        assert!(v.z == 96 || v.z == 97);
    }
}

#[test]
fn adjacent_pair_culls_touching_faces() {
    // Two solid blocks side by side: 10 faces, not 12; the two faces
    // where the blocks touch are suppressed.
    let seg = leaf_with(&[(0, 0, 0), (1, 0, 0)]);
    let (vertices, indices) = mesh_l1_segment(&seg, [None, None, None, None, None, None], origin());
    assert_eq!(indices.len(), 10 * 6);
    assert_eq!(vertices.len(), 16);
}

#[test]
fn two_by_two_cube_exposes_24_faces() {
    // 2x2x2 fully solid, no neighbours: 48 possible faces minus 24
    // hidden at the 12 internal adjacency pairs.
    let mut cells = Vec::new();
    for x in 0..2 {
        for y in 0..2 {
            for z in 0..2 {
                cells.push((x, y, z));
            }
        }
    }
    let seg = leaf_with(&cells);
    let (vertices, indices) = mesh_l1_segment(&seg, [None, None, None, None, None, None], origin());
    assert_eq!(indices.len(), 24 * 6);
    // Each corner block shows three faces, which together use 7 of its
    // 8 corner ids.
    assert_eq!(vertices.len(), 8 * 7);
}

#[test]
fn two_by_two_cube_with_corner_removed() {
    // The first block of the 2x2x2 sample set back to NoBlock: the
    // index count follows the adjacency count of the 7 remaining
    // blocks: 36 * 7 - 6 * 18 = 144 entries.
    let mut cells = Vec::new();
    for x in 0..2 {
        for y in 0..2 {
            for z in 0..2 {
                if (x, y, z) != (0, 0, 0) {
                    cells.push((x, y, z));
                }
            }
        }
    }
    let seg = leaf_with(&cells);
    let (vertices, indices) = mesh_l1_segment(&seg, [None, None, None, None, None, None], origin());
    assert_eq!(indices.len(), 36 * 7 - 6 * 18);
    assert_eq!(vertices.len(), 3 * 8 + 4 * 7);
}

#[test]
fn absent_neighbour_equals_empty_neighbour() {
    // A boundary column meshed against an absent neighbour and against
    // a present-but-fully-empty neighbour produces identical output.
    let mut cells = Vec::new();
    for y in 0..32 {
        for z in 0..32 {
            cells.push((31, y, z));
        }
    }
    let seg = leaf_with(&cells);
    let empty = L1Segment::default();
    let (v_absent, i_absent) =
        mesh_l1_segment(&seg, [None, None, None, None, None, None], origin());
    let (v_empty, i_empty) = mesh_l1_segment(
        &seg,
        [Some(&empty), Some(&empty), Some(&empty), Some(&empty), Some(&empty), Some(&empty)],
        origin(),
    );
    assert_eq!(v_absent, v_empty);
    assert_eq!(i_absent, i_empty);
}

#[test]
fn solid_neighbour_hides_boundary_faces() {
    // A solid block at the +X boundary against a neighbour whose
    // x = 0 column is solid at the matching cell: the +X face is
    // culled, leaving 5 faces.
    let seg = leaf_with(&[(31, 4, 4)]);
    let neigh = leaf_with(&[(0, 4, 4)]);
    let (_, indices) = mesh_l1_segment(
        &seg,
        [Some(&neigh), None, None, None, None, None],
        origin(),
    );
    assert_eq!(indices.len(), 5 * 6);
}

#[test]
fn fully_buried_block_emits_nothing() {
    // A block surrounded by solid blocks on all six sides has no
    // exposed face; only the 3x3x3 shell around it is rendered.
    let mut cells = vec![(8, 8, 8)];
    for &(dx, dy, dz) in &[
        (1i64, 0i64, 0i64),
        (-1, 0, 0),
        (0, 1, 0),
        (0, -1, 0),
        (0, 0, 1),
        (0, 0, -1),
    ] {
        cells.push(((8 + dx) as usize, (8 + dy) as usize, (8 + dz) as usize));
    }
    let seg = leaf_with(&cells);
    let (_, indices) = mesh_l1_segment(&seg, [None, None, None, None, None, None], origin());
    // 7 blocks, 6 faces each would be 42; the 12 touching faces are
    // hidden (6 around the center, and the center's own 6).
    assert_eq!(indices.len(), (42 - 12) * 6);
}

#[test]
fn empty_leaf_meshes_to_nothing() {
    let seg = L1Segment::default();
    let (vertices, indices) =
        mesh_l1_segment(&seg, [None, None, None, None, None, None], origin());
    assert_eq!(vertices, Vec::<MeshVertex>::new());
    assert_eq!(indices, Vec::<u32>::new());
}

#[test]
fn indices_reference_compacted_vertices() {
    let seg = leaf_with(&[(0, 0, 0), (0, 0, 2), (10, 20, 30)]);
    let (vertices, indices) = mesh_l1_segment(&seg, [None, None, None, None, None, None], origin());
    assert_eq!(indices.len(), 3 * 36);
    assert_eq!(vertices.len(), 3 * 8);
    let mut used = vec![false; vertices.len()];
    for idx in &indices {
        used[*idx as usize] = true;
    }
    assert!(used.iter().all(|&u| u));
}
