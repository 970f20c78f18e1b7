use admin_boundaries::{assemble_rings, BoundaryError, Coord};

fn line(pts: &[(i32, i32)]) -> Vec<Coord> {
    pts.iter().map(|&(x, y)| Coord::new(x, y)).collect()
}

#[test]
fn single_closed_segment_is_its_own_ring() {
    let seg = line(&[(0, 0), (5, 0), (5, 5), (0, 5), (0, 0)]);
    let rings = assemble_rings(&vec![seg.clone()]).unwrap();
    assert_eq!(rings, vec![seg]);
}

#[test]
fn two_segments_close_into_one_ring() {
    let a = line(&[(0, 0), (1, 0), (1, 1)]);
    let b = line(&[(1, 1), (0, 1), (0, 0)]);
    let rings = assemble_rings(&vec![a, b]).unwrap();
    assert_eq!(rings, vec![line(&[(0, 0), (1, 0), (1, 1), (0, 1), (0, 0)])]);
}

#[test]
fn reversed_segment_is_walked_backwards() {
    let a = line(&[(0, 0), (1, 0), (1, 1)]);
    let b = line(&[(0, 0), (0, 1), (1, 1)]);
    let rings = assemble_rings(&vec![a, b]).unwrap();
    assert_eq!(rings, vec![line(&[(0, 0), (1, 0), (1, 1), (0, 1), (0, 0)])]);
}

#[test]
fn disjoint_rings_are_all_returned() {
    let a = line(&[(0, 0), (2, 0), (2, 2)]);
    let b = line(&[(2, 2), (0, 2), (0, 0)]);
    let c = line(&[(10, 10), (12, 10), (12, 12), (10, 10)]);
    let rings = assemble_rings(&vec![a, c.clone(), b]).unwrap();
    assert_eq!(rings.len(), 2);
    assert_eq!(rings[0], line(&[(0, 0), (2, 0), (2, 2), (0, 2), (0, 0)]));
    assert_eq!(rings[1], c);
    for r in &rings {
        assert!(r.len() >= 4);
        assert_eq!(r[0], r[r.len() - 1]);
    }
}

#[test]
fn no_segments_is_malformed() {
    assert_eq!(assemble_rings(&vec![]), Err(BoundaryError::MalformedBoundary));
}

#[test]
fn dangling_end_is_malformed() {
    let a = line(&[(0, 0), (1, 0), (1, 1)]);
    let b = line(&[(1, 1), (0, 1), (0, 2)]);
    assert_eq!(assemble_rings(&vec![a, b]), Err(BoundaryError::MalformedBoundary));
}

#[test]
fn too_short_ring_is_malformed() {
    let a = line(&[(0, 0), (1, 0), (0, 0)]);
    assert_eq!(assemble_rings(&vec![a]), Err(BoundaryError::MalformedBoundary));
}

#[test]
fn single_point_segment_is_malformed() {
    let a = line(&[(0, 0)]);
    assert_eq!(assemble_rings(&vec![a]), Err(BoundaryError::MalformedBoundary));
}
