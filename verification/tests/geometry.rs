use cena_map_layout::geometry::{
    anchor_at, anchor_index, chebyshev, default_town_scale, free_cell_near, occupied_bounds,
    ring, segments_cross, violated_at, Bounds, Cell, PackMethod, TOWN_SCALE,
};
use cena_map_layout::group::Group;
use cena_map_layout::model::RoomId;

fn c(x: i32, y: i32) -> Cell {
    Cell { x, y }
}

#[test]
fn chebyshev_is_the_king_move_distance() {
    assert_eq!(chebyshev(c(0, 0), c(3, -5)), 5);
    assert_eq!(chebyshev(c(2, 2), c(2, 2)), 0);
    assert_eq!(chebyshev(c(-4, 1), c(0, 0)), 4);
}

#[test]
fn bounds_count_both_edges() {
    let b = Bounds { min_x: -2, max_x: 3, min_y: 1, max_y: 1 };
    assert_eq!(b.width(), 6);
    assert_eq!(b.height(), 1);
}

#[test]
fn pack_methods_have_their_report_names() {
    assert_eq!(PackMethod::Image.name(), "image");
    assert_eq!(PackMethod::InteriorShelf.name(), "interior-shelf");
    assert_eq!(PackMethod::InteriorInline.name(), "interior-inline");
}

#[test]
fn the_default_town_scale_is_the_shelf_scale() {
    assert_eq!(default_town_scale(), TOWN_SCALE);
    assert_eq!(TOWN_SCALE, 4);
}

#[test]
fn a_ring_walks_columns_left_to_right() {
    assert_eq!(ring(c(5, 5), 0), vec![c(5, 5)]);
    let one = ring(c(0, 0), 1);
    assert_eq!(
        one,
        vec![c(-1, -1), c(-1, 0), c(-1, 1), c(0, -1), c(0, 1), c(1, -1), c(1, 0), c(1, 1)]
    );
    assert_eq!(ring(c(0, 0), 2).len(), 16);
    assert!(ring(c(0, 0), -1).is_empty());
}

#[test]
fn crossing_is_strict() {
    assert!(segments_cross(c(0, 0), c(2, 2), c(0, 2), c(2, 0)));
    // Sharing an endpoint is not a crossing.
    assert!(!segments_cross(c(0, 0), c(2, 2), c(2, 2), c(4, 0)));
    // Collinear segments do not cross.
    assert!(!segments_cross(c(0, 0), c(2, 0), c(1, 0), c(3, 0)));
    // Apart.
    assert!(!segments_cross(c(0, 0), c(1, 0), c(0, 5), c(1, 5)));
}

#[test]
fn a_wrong_sign_is_a_violation() {
    // East of r, stated as east: fine.
    assert!(!violated_at(c(0, 0), c(2, 0), 1, 0));
    // Stated as north, but it lies east.
    assert!(violated_at(c(0, 0), c(2, 0), 0, -1));
}

#[test]
fn occupied_bounds_start_from_zero() {
    assert_eq!(occupied_bounds(&[]), (0, 0));
    assert_eq!(occupied_bounds(&[c(3, -4), c(5, -1)]), (0, 0));
    assert_eq!(occupied_bounds(&[c(-3, 4), c(5, 7)]), (-3, 7));
}

#[test]
fn a_free_cell_is_found_beside_the_room() {
    assert_eq!(free_cell_near(c(0, 0), &[]), Some(c(0, -1)));
    assert_eq!(free_cell_near(c(0, 0), &[c(0, -1)]), Some(c(0, 1)));
    let near: Vec<Cell> = ring(c(0, 0), 1);
    // With every neighbour taken, the top-left corner of ring two.
    assert_eq!(free_cell_near(c(0, 0), &near), Some(c(-2, -2)));
    let mut all: Vec<Cell> = Vec::new();
    for r in 1..=6 {
        all.extend(ring(c(0, 0), r));
    }
    assert_eq!(free_cell_near(c(0, 0), &all), None);
}

#[test]
fn echo_indices_read_back() {
    assert_eq!(anchor_at(3), None);
    assert_eq!(anchor_at(anchor_index(0)), Some(0));
    assert_eq!(anchor_at(anchor_index(41)), Some(41));
}

#[test]
fn a_group_places_its_rooms_by_its_offset() {
    let g = Group {
        index: 0,
        room_ids: vec![RoomId(1), RoomId(2)],
        positions: vec![(RoomId(1), c(0, 0)), (RoomId(2), c(1, -2))],
        violations: vec![],
        base_offset: Some(c(10, 10)),
        packing: Some(PackMethod::Seed),
        name: None,
    };
    assert_eq!(g.final_cell(RoomId(2)), c(11, 8));
    let b = g.bounds();
    assert_eq!((b.min_x, b.max_x, b.min_y, b.max_y), (0, 1, -2, 0));
}
