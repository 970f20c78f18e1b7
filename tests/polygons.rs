use admin_boundaries::{
    assemble_polygons, build_boundary, orient_ring, point_in_ring, BoundaryError, Coord,
    MultiPolygon, Polygon, Role, Segment,
};

fn line(pts: &[(i32, i32)]) -> Vec<Coord> {
    pts.iter().map(|&(x, y)| Coord::new(x, y)).collect()
}

fn square(lo: i32, hi: i32) -> Vec<Coord> {
    line(&[(lo, lo), (hi, lo), (hi, hi), (lo, hi), (lo, lo)])
}

#[test]
fn point_in_ring_follows_even_odd_rule() {
    let r = square(0, 10);
    assert!(point_in_ring(Coord::new(5, 5), &r));
    assert!(!point_in_ring(Coord::new(15, 5), &r));
    assert!(!point_in_ring(Coord::new(-1, 5), &r));
    assert!(!point_in_ring(Coord::new(5, 11), &r));
    let tri = line(&[(0, 0), (10, 0), (0, 10), (0, 0)]);
    assert!(point_in_ring(Coord::new(2, 2), &tri));
    assert!(!point_in_ring(Coord::new(6, 6), &tri));
}

#[test]
fn outer_with_inner_makes_one_polygon_with_one_hole() {
    let rings = vec![square(0, 10), square(2, 8)];
    let a = assemble_polygons(&rings, &vec![Role::Outer, Role::Inner]).unwrap();
    assert_eq!(a.polygons.len(), 1);
    assert_eq!(a.polygons[0].outer, square(0, 10));
    assert_eq!(a.polygons[0].holes, vec![square(2, 8)]);
    assert!(a.unassigned.is_empty());
}

#[test]
fn inner_tagged_outer_becomes_its_own_polygon() {
    let rings = vec![square(0, 10), square(2, 8)];
    let a = assemble_polygons(&rings, &vec![Role::Outer, Role::Outer]).unwrap();
    assert_eq!(a.polygons.len(), 2);
    assert!(a.polygons[0].holes.is_empty());
    assert!(a.polygons[1].holes.is_empty());
    assert!(a.unassigned.is_empty());
}

#[test]
fn untagged_ring_inside_outer_becomes_hole() {
    let rings = vec![square(0, 10), square(2, 8)];
    let a = assemble_polygons(&rings, &vec![Role::Outer, Role::Unknown]).unwrap();
    assert_eq!(a.polygons.len(), 1);
    assert_eq!(a.polygons[0].holes, vec![square(2, 8)]);
}

#[test]
fn untagged_ring_alone_becomes_shell() {
    let rings = vec![square(0, 10), square(20, 30)];
    let a = assemble_polygons(&rings, &vec![Role::Outer, Role::Unknown]).unwrap();
    assert_eq!(a.polygons.len(), 2);
    assert_eq!(a.polygons[1].outer, square(20, 30));
}

#[test]
fn hole_outside_every_shell_is_dropped() {
    let rings = vec![square(0, 10), square(20, 30)];
    let a = assemble_polygons(&rings, &vec![Role::Outer, Role::Inner]).unwrap();
    assert_eq!(a.polygons.len(), 1);
    assert!(a.polygons[0].holes.is_empty());
    assert_eq!(a.unassigned, vec![1]);
}

#[test]
fn hole_goes_to_the_shell_that_holds_it() {
    let rings = vec![square(0, 10), square(20, 30), square(22, 28)];
    let a =
        assemble_polygons(&rings, &vec![Role::Outer, Role::Outer, Role::Inner]).unwrap();
    assert_eq!(a.polygons.len(), 2);
    assert!(a.polygons[0].holes.is_empty());
    assert_eq!(a.polygons[1].holes, vec![square(22, 28)]);
}

#[test]
fn no_shell_is_an_empty_boundary() {
    let rings = vec![square(2, 8)];
    assert_eq!(
        assemble_polygons(&rings, &vec![Role::Inner]).err(),
        Some(BoundaryError::EmptyBoundary)
    );
}

#[test]
fn multipolygon_needs_a_polygon() {
    assert_eq!(
        MultiPolygon::build(7, "x".to_string(), vec![]).err(),
        Some(BoundaryError::EmptyBoundary)
    );
}

fn seg(pts: &[(i32, i32)], role: Role) -> Segment {
    Segment { points: line(pts), role }
}

#[test]
fn relation_with_outer_and_inner_segments() {
    let segments = vec![
        seg(&[(0, 0), (10, 0), (10, 10)], Role::Outer),
        seg(&[(3, 3), (7, 3), (7, 7), (3, 7), (3, 3)], Role::Inner),
        seg(&[(0, 0), (0, 10), (10, 10)], Role::Outer),
    ];
    let b = build_boundary(42, "Mitte".to_string(), &segments).unwrap();
    assert_eq!(b.shape.relation_id, 42);
    assert_eq!(b.shape.name, "Mitte");
    assert_eq!(b.shape.polygons.len(), 1);
    assert_eq!(
        b.shape.polygons[0].outer,
        line(&[(0, 0), (10, 0), (10, 10), (0, 10), (0, 0)])
    );
    assert_eq!(
        b.shape.polygons[0].holes,
        vec![line(&[(3, 3), (3, 7), (7, 7), (7, 3), (3, 3)])]
    );
    assert_eq!(b.dropped_holes, 0);
}

#[test]
fn relation_with_stray_hole_counts_it() {
    let segments = vec![
        seg(&[(0, 0), (10, 0), (10, 10), (0, 10), (0, 0)], Role::Outer),
        seg(&[(20, 20), (30, 20), (30, 30), (20, 20)], Role::Inner),
    ];
    let b = build_boundary(1, "a".to_string(), &segments).unwrap();
    assert_eq!(b.shape.polygons.len(), 1);
    assert_eq!(b.dropped_holes, 1);
}

#[test]
fn relation_without_segments_is_malformed() {
    assert_eq!(
        build_boundary(1, "a".to_string(), &vec![]).err(),
        Some(BoundaryError::MalformedBoundary)
    );
}

#[test]
fn relation_with_open_outline_is_malformed() {
    let segments = vec![seg(&[(0, 0), (10, 0), (10, 10)], Role::Outer)];
    assert_eq!(
        build_boundary(1, "a".to_string(), &segments).err(),
        Some(BoundaryError::MalformedBoundary)
    );
}

#[test]
fn relation_with_only_holes_is_empty() {
    let segments = vec![seg(&[(0, 0), (10, 0), (10, 10), (0, 0)], Role::Inner)];
    assert_eq!(
        build_boundary(1, "a".to_string(), &segments).err(),
        Some(BoundaryError::EmptyBoundary)
    );
}

#[test]
fn orient_ring_turns_only_when_needed() {
    let ccw = square(0, 10);
    let cw = line(&[(0, 0), (0, 10), (10, 10), (10, 0), (0, 0)]);
    assert_eq!(orient_ring(&ccw, true), ccw);
    assert_eq!(orient_ring(&cw, true), ccw);
    assert_eq!(orient_ring(&ccw, false), cw);
    assert_eq!(orient_ring(&cw, false), cw);
}

#[test]
fn multipolygon_turns_outer_ccw_and_holes_cw() {
    let cw_outer = line(&[(0, 0), (0, 10), (10, 10), (10, 0), (0, 0)]);
    let p = Polygon { outer: cw_outer, holes: vec![square(2, 8)] };
    let mp = MultiPolygon::build(9, "b".to_string(), vec![p]).unwrap();
    assert_eq!(mp.relation_id, 9);
    assert_eq!(mp.name, "b");
    assert_eq!(mp.polygons[0].outer, square(0, 10));
    assert_eq!(
        mp.polygons[0].holes,
        vec![line(&[(2, 2), (2, 8), (8, 8), (8, 2), (2, 2)])]
    );
}

#[test]
fn relation_with_exclave_gives_two_polygons() {
    let segments = vec![
        seg(&[(0, 0), (10, 0), (10, 10), (0, 10), (0, 0)], Role::Outer),
        seg(&[(20, 20), (30, 20), (30, 30)], Role::Outer),
        seg(&[(30, 30), (20, 30), (20, 20)], Role::Outer),
    ];
    let b = build_boundary(3, "c".to_string(), &segments).unwrap();
    assert_eq!(b.shape.polygons.len(), 2);
    assert_eq!(b.shape.polygons[1].outer, line(&[(20, 20), (30, 20), (30, 30), (20, 30), (20, 20)]));
}
