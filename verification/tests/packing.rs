use cena_map_layout::direction::DirectionMap;
use cena_map_layout::geometry::{Cell, PackMethod};
use cena_map_layout::group::Group;
use cena_map_layout::model::{Crossing, Exit, ExitKind, Room, RoomId, RoomMap};
use cena_map_layout::packer::{find_free_offset, Sheet};
use cena_map_layout::packing::pack_groups;
use cena_map_layout::positioner::position_rooms;

fn outdoor(id: u32, exits: Vec<Exit>) -> Room {
    let mut r = Room::bare(RoomId(id));
    r.title = vec![format!("[Room {id}]")];
    r.paths = vec!["Obvious paths: see below".to_owned()];
    r.exits = exits;
    r
}

fn exit(to: u32, kind: ExitKind, command: &str) -> Exit {
    Exit { to: RoomId(to), kind, crossing: Crossing::Command(command.to_owned()) }
}

/// A street of three, a yard through a gate off its east end, and a lone
/// hut nothing reaches.
fn street() -> RoomMap {
    RoomMap::from_rooms(vec![
        outdoor(1, vec![exit(2, ExitKind::Cardinal, "east")]),
        outdoor(2, vec![exit(1, ExitKind::Cardinal, "west"), exit(3, ExitKind::Cardinal, "east")]),
        outdoor(3, vec![exit(2, ExitKind::Cardinal, "west"), exit(4, ExitKind::Go, "go gate")]),
        outdoor(4, vec![exit(3, ExitKind::Go, "go gate")]),
        outdoor(9, vec![]),
    ])
    .expect("the ids are distinct")
}

fn group_with(groups: &[Group], id: u32) -> usize {
    groups.iter().position(|g| g.room_ids.contains(&RoomId(id))).expect("every room is placed")
}

fn final_cells(groups: &[Group]) -> Vec<(RoomId, Cell)> {
    let mut out = Vec::new();
    for g in groups {
        let off = g.base_offset.expect("every group is packed");
        for (id, c) in &g.positions {
            out.push((*id, Cell { x: c.x + off.x, y: c.y + off.y }));
        }
    }
    out
}

#[test]
fn every_packed_group_gets_an_offset_and_a_method() {
    let map = street();
    let dirs = DirectionMap::build(&map);
    let mut groups = position_rooms(&map, &dirs);
    let packed: Vec<usize> = (0..groups.len()).collect();
    pack_groups(&mut groups, &packed, &map, &dirs, &Vec::new());
    for g in &groups {
        assert!(g.base_offset.is_some());
        assert!(matches!(g.packing, Some(PackMethod::Seed | PackMethod::Connector | PackMethod::Strip)));
    }
}

#[test]
fn the_largest_group_is_seeded_at_the_origin() {
    let map = street();
    let dirs = DirectionMap::build(&map);
    let mut groups = position_rooms(&map, &dirs);
    let packed: Vec<usize> = (0..groups.len()).collect();
    pack_groups(&mut groups, &packed, &map, &dirs, &Vec::new());
    let s = group_with(&groups, 1);
    assert_eq!(groups[s].base_offset, Some(Cell { x: 0, y: 0 }));
    assert_eq!(groups[s].packing, Some(PackMethod::Seed));
}

fn component(index: usize, rooms: &[(u32, i32, i32)]) -> Group {
    Group {
        index,
        room_ids: rooms.iter().map(|r| RoomId(r.0)).collect(),
        positions: rooms.iter().map(|r| (RoomId(r.0), Cell { x: r.1, y: r.2 })).collect(),
        violations: Vec::new(),
        base_offset: None,
        packing: None,
        name: None,
    }
}

#[test]
fn a_gate_lands_its_yard_beside_the_street_and_the_hut_goes_to_the_strip() {
    let map = street();
    let dirs = DirectionMap::build(&map);
    let mut groups = vec![
        component(0, &[(1, 0, 0), (2, 1, 0), (3, 2, 0)]),
        component(1, &[(4, 0, 0)]),
        component(2, &[(9, 0, 0)]),
    ];
    pack_groups(&mut groups, &vec![0, 1, 2], &map, &dirs, &Vec::new());
    assert_eq!(groups[0].base_offset, Some(Cell { x: 0, y: 0 }));
    assert_eq!(groups[0].packing, Some(PackMethod::Seed));
    assert_eq!(groups[1].packing, Some(PackMethod::Connector));
    assert_eq!(groups[2].packing, Some(PackMethod::Strip));
    let cells = final_cells(&groups);
    let at = |id: u32| cells.iter().find(|(r, _)| *r == RoomId(id)).unwrap().1;
    let (a, b) = (at(3), at(4));
    assert!((a.x - b.x).abs().max((a.y - b.y).abs()) <= 1);
    for (i, (_, c)) in cells.iter().enumerate() {
        for (_, d) in &cells[i + 1..] {
            assert_ne!(c, d);
        }
    }
}

#[test]
fn a_seat_places_its_group_first_at_the_nearest_free_offset() {
    let map = street();
    let dirs = DirectionMap::build(&map);
    let mut groups = position_rooms(&map, &dirs);
    let packed: Vec<usize> = (0..groups.len()).collect();
    let hut = group_with(&groups, 9);
    assert_ne!(hut, group_with(&groups, 1));
    pack_groups(&mut groups, &packed, &map, &dirs, &vec![(hut, Cell { x: 40, y: -7 })]);
    assert_eq!(groups[hut].base_offset, Some(Cell { x: 40, y: -7 }));
    assert_eq!(groups[hut].packing, Some(PackMethod::Image));
}

#[test]
fn a_packed_group_skips_occupied_cells() {
    let mut sheet = Sheet::new();
    sheet.take(Cell { x: 0, y: 0 });
    let cells = vec![Cell { x: 0, y: 0 }];
    let found = find_free_offset(&cells, Cell { x: 0, y: 0 }, &sheet);
    assert!(matches!(found, Some(c) if c != Cell { x: 0, y: 0 } && c.x.abs() <= 1 && c.y.abs() <= 1));
}
