use citrus::icoords::ICoords;
use citrus::size::{Size2D, Size3D};

#[test]
fn bijection_3_4_5() {
    // c3d inverts c1d on every contained coordinate, and the c1d
    // outputs are exactly 0 .. volume - 1.
    let s = Size3D { x: 3, y: 4, z: 5 };
    assert_eq!(s.volume(), 60);
    let mut seen = vec![false; 60];
    for x in 0..3i64 {
        for y in 0..4i64 {
            for z in 0..5i64 {
                let p = ICoords { x, y, z };
                assert!(s.contains(p));
                let i = s.c1d(p);
                assert!(i < 60);
                assert!(!seen[i as usize]);
                seen[i as usize] = true;
                let q = s.c3d(i);
                assert_eq!((q.x, q.y, q.z), (x, y, z));
            }
        }
    }
    assert!(seen.iter().all(|&b| b));
}

#[test]
fn c1d_order_z_fastest() {
    let s = Size3D { x: 3, y: 4, z: 5 };
    assert_eq!(s.c1d(ICoords { x: 0, y: 0, z: 0 }), 0);
    assert_eq!(s.c1d(ICoords { x: 0, y: 0, z: 1 }), 1);
    assert_eq!(s.c1d(ICoords { x: 0, y: 1, z: 0 }), 5);
    assert_eq!(s.c1d(ICoords { x: 1, y: 0, z: 0 }), 20);
    assert_eq!(s.c1d(ICoords { x: 2, y: 3, z: 4 }), 59);
}

#[test]
fn contains_rejects_outside() {
    let s = Size3D { x: 3, y: 4, z: 5 };
    assert!(!s.contains(ICoords { x: -1, y: 0, z: 0 }));
    assert!(!s.contains(ICoords { x: 3, y: 0, z: 0 }));
    assert!(!s.contains(ICoords { x: 0, y: 4, z: 0 }));
    assert!(!s.contains(ICoords { x: 0, y: 0, z: 5 }));
    assert!(s.contains(ICoords { x: 2, y: 3, z: 4 }));
}

#[test]
fn iterator_visits_in_order() {
    let s = Size3D { x: 2, y: 2, z: 2 };
    let mut it = s.iter();
    let mut visited = Vec::new();
    while let Some(c) = it.next() {
        visited.push((c.x, c.y, c.z));
    }
    assert_eq!(
        visited,
        vec![
            (0, 0, 0),
            (0, 0, 1),
            (0, 1, 0),
            (0, 1, 1),
            (1, 0, 0),
            (1, 0, 1),
            (1, 1, 0),
            (1, 1, 1)
        ]
    );
    assert!(it.next().is_none());
}

#[test]
fn plane_area_and_index() {
    let s = Size2D { x: 32, y: 32 };
    assert_eq!(s.area(), 1024);
    assert_eq!(s.c1d(0, 0), 0);
    assert_eq!(s.c1d(0, 31), 31);
    assert_eq!(s.c1d(1, 0), 32);
    assert_eq!(s.c1d(31, 31), 1023);
}

#[test]
fn plane_iterator_y_fastest() {
    let s = Size2D { x: 2, y: 3 };
    let mut it = s.iter();
    let mut visited = Vec::new();
    while let Some(c) = it.next() {
        visited.push(c);
    }
    assert_eq!(visited, vec![(0, 0), (0, 1), (0, 2), (1, 0), (1, 1), (1, 2)]);
}
