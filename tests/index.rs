use admin_boundaries::{Coord, Piece, SpatialIndex};

fn piece(lx: i32, ly: i32, ux: i32, uy: i32, name: &str) -> Piece {
    Piece::new(Coord::new(lx, ly), Coord::new(ux, uy), name.to_string())
}

fn five_pieces() -> Vec<Piece> {
    vec![
        piece(0, 0, 40, 100, "left"),
        piece(0, 0, 30, 100, "small left"),
        piece(60, 0, 100, 100, "right"),
        piece(25, 0, 75, 100, "middle"),
        piece(0, 0, 100, 100, "huge"),
    ]
}

fn names_at(index: &SpatialIndex, x: i32, y: i32) -> Vec<String> {
    let mut names: Vec<String> = index
        .locate_all_at_point(Coord::new(x, y))
        .into_iter()
        .map(|i| index.piece(i).name().to_string())
        .collect();
    names.sort();
    names
}

#[test]
fn piece_orders_corners_and_computes_area() {
    let p = piece(40, 100, 0, 0, "p");
    assert_eq!(p.lower, Coord::new(0, 0));
    assert_eq!(p.upper, Coord::new(40, 100));
    assert_eq!(p.area, 4000);
    assert_eq!(p.name(), "p");
}

#[test]
fn piece_area_at_full_range() {
    let p = piece(i32::MIN, i32::MIN, i32::MAX, i32::MAX, "all");
    assert_eq!(p.area, 0xFFFF_FFFFu64 * 0xFFFF_FFFFu64);
}

#[test]
fn locate_returns_the_three_boxes_holding_the_point() {
    let index = SpatialIndex::bulk_load(five_pieces());
    assert_eq!(index.len(), 5);
    assert_eq!(names_at(&index, 40, 50), vec!["huge", "left", "middle"]);
}

#[test]
fn locate_outside_every_box_is_empty() {
    let index = SpatialIndex::bulk_load(five_pieces());
    assert!(index.locate_all_at_point(Coord::new(150, 50)).is_empty());
}

#[test]
fn empty_index_answers_nothing() {
    let index = SpatialIndex::bulk_load(vec![]);
    assert!(index.locate_all_at_point(Coord::new(0, 0)).is_empty());
    assert_eq!(index.nearest(Coord::new(0, 0)), None);
}

#[test]
fn nearest_picks_least_squared_distance() {
    let index = SpatialIndex::bulk_load(vec![piece(0, 0, 10, 10, "a"), piece(20, 0, 30, 10, "b")]);
    assert_eq!(index.nearest(Coord::new(14, 5)), Some(0));
    assert_eq!(index.nearest(Coord::new(17, 5)), Some(1));
    assert_eq!(index.nearest(Coord::new(33, 14)), Some(1));
    assert_eq!(index.nearest(Coord::new(5, 5)), Some(0));
}

#[test]
fn nearest_tie_goes_to_first_inserted() {
    let index = SpatialIndex::bulk_load(five_pieces());
    assert_eq!(index.nearest(Coord::new(200, 50)), Some(2));
    assert_eq!(index.nearest(Coord::new(-10, 50)), Some(0));
    let index = SpatialIndex::bulk_load(vec![piece(20, 0, 30, 10, "b"), piece(0, 0, 10, 10, "a")]);
    assert_eq!(index.nearest(Coord::new(15, 5)), Some(0));
}

#[test]
fn reloading_answers_alike() {
    let a = SpatialIndex::bulk_load(five_pieces());
    let b = SpatialIndex::bulk_load(five_pieces());
    for &(x, y) in &[(40, 50), (0, 0), (100, 100), (70, 20), (-5, -5), (200, 50)] {
        assert_eq!(names_at(&a, x, y), names_at(&b, x, y));
        assert_eq!(a.nearest(Coord::new(x, y)), b.nearest(Coord::new(x, y)));
    }
}

#[test]
fn border_points_are_inside() {
    let index = SpatialIndex::bulk_load(five_pieces());
    assert_eq!(names_at(&index, 100, 100), vec!["huge", "right"]);
    assert_eq!(names_at(&index, 30, 0), vec!["huge", "left", "middle", "small left"]);
}
