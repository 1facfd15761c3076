use cena_map_layout::direction::DirectionMap;
use cena_map_layout::geometry::Cell;
use cena_map_layout::group::Group;
use cena_map_layout::model::{Crossing, Exit, ExitKind, Room, RoomId, RoomMap};
use cena_map_layout::positioner::{compact_cells, open_air, position_rooms, validate_component};

fn room(id: u32, paths: &str, exits: Vec<Exit>) -> Room {
    let mut r = Room::bare(RoomId(id));
    r.title = vec![format!("[Room {id}]")];
    r.paths = vec![paths.to_owned()];
    r.exits = exits;
    r
}

fn outdoor(id: u32, exits: Vec<Exit>) -> Room {
    room(id, "Obvious paths: see below", exits)
}

fn indoor(id: u32, exits: Vec<Exit>) -> Room {
    room(id, "Obvious exits: see below", exits)
}

fn cardinal(to: u32, command: &str) -> Exit {
    Exit { to: RoomId(to), kind: ExitKind::Cardinal, crossing: Crossing::Command(command.to_owned()) }
}

fn plain(to: u32, kind: ExitKind, command: &str) -> Exit {
    Exit { to: RoomId(to), kind, crossing: Crossing::Command(command.to_owned()) }
}

/// A square, a bank behind a door, a loft up a rope and a shop behind a
/// one-way arch.
fn town() -> RoomMap {
    RoomMap::from_rooms(vec![
        outdoor(
            1,
            vec![
                cardinal(10, "north"),
                cardinal(2, "east"),
                plain(8, ExitKind::Climb, "climb rope"),
                plain(3, ExitKind::Go, "go door"),
            ],
        ),
        outdoor(2, vec![cardinal(1, "west"), plain(5, ExitKind::Go, "go arch")]),
        indoor(3, vec![plain(1, ExitKind::Go, "go door"), cardinal(4, "down")]),
        indoor(4, vec![cardinal(3, "up")]),
        outdoor(5, vec![]),
        outdoor(8, vec![plain(1, ExitKind::Climb, "climb down")]),
        outdoor(10, vec![cardinal(1, "south")]),
    ])
    .expect("the ids are distinct")
}

fn group_of(groups: &[Group], id: u32) -> &Group {
    groups.iter().find(|g| g.room_ids.contains(&RoomId(id))).expect("every room is placed")
}

fn cell_of(g: &Group, id: u32) -> Cell {
    g.positions.iter().find(|p| p.0 == RoomId(id)).expect("placed rooms have a cell").1
}

#[test]
fn every_room_is_placed_exactly_once() {
    let map = town();
    let dirs = DirectionMap::build(&map);
    let groups = position_rooms(&map, &dirs);
    let mut all: Vec<RoomId> = groups.iter().flat_map(|g| g.room_ids.iter().copied()).collect();
    all.sort_by_key(|r| r.0);
    assert_eq!(all, vec![RoomId(1), RoomId(2), RoomId(3), RoomId(4), RoomId(5), RoomId(8), RoomId(10)]);
    for (i, g) in groups.iter().enumerate() {
        assert_eq!(g.index, i);
        assert_eq!(g.positions.len(), g.room_ids.len());
    }
}

#[test]
fn the_busiest_room_starts_and_bearings_hold() {
    let map = town();
    let dirs = DirectionMap::build(&map);
    let groups = position_rooms(&map, &dirs);
    assert_eq!(groups[0].room_ids[0], RoomId(1), "room 1 has the most bearings");
    let square = group_of(&groups, 1);
    let (c1, c2, c10) = (cell_of(square, 1), cell_of(square, 2), cell_of(square, 10));
    assert_eq!(c2.y, c1.y);
    assert!(c2.x > c1.x, "east of the centre");
    assert_eq!(c10.x, c1.x);
    assert!(c10.y < c1.y, "north of the centre");
    assert!(groups.iter().all(|g| g.violations.is_empty()));
}

#[test]
fn a_one_way_arch_still_places_its_room() {
    let map = town();
    let dirs = DirectionMap::build(&map);
    let groups = position_rooms(&map, &dirs);
    assert!(groups.iter().any(|g| g.room_ids.contains(&RoomId(5))));
}

#[test]
fn the_bank_door_is_a_front_door_and_up_down_keep_the_bank_together() {
    let map = town();
    let dirs = DirectionMap::build(&map);
    let groups = position_rooms(&map, &dirs);
    let lobby = group_of(&groups, 3);
    let vault = group_of(&groups, 4);
    assert_eq!(lobby.index, vault.index);
    assert_ne!(group_of(&groups, 1).index, lobby.index, "the bank is not welded onto the square");
}

#[test]
fn components_are_compact_with_distinct_cells() {
    let map = town();
    let dirs = DirectionMap::build(&map);
    for g in position_rooms(&map, &dirs) {
        let n = g.positions.len() as i32;
        let xs: Vec<i32> = g.positions.iter().map(|p| p.1.x).collect();
        let ys: Vec<i32> = g.positions.iter().map(|p| p.1.y).collect();
        for v in 0..=*xs.iter().max().unwrap() {
            assert!(xs.contains(&v), "column {v} is empty");
        }
        for v in 0..=*ys.iter().max().unwrap() {
            assert!(ys.contains(&v), "row {v} is empty");
        }
        assert!(xs.iter().chain(ys.iter()).all(|&v| 0 <= v && v < n));
        for a in 0..g.positions.len() {
            for b in a + 1..g.positions.len() {
                assert_ne!(g.positions[a].1, g.positions[b].1, "two rooms share a cell");
            }
        }
    }
}

#[test]
fn compaction_keeps_the_order_of_every_pair() {
    let cells = vec![Cell { x: 10, y: -5 }, Cell { x: -3, y: 7 }, Cell { x: 10, y: 100 }, Cell { x: 4, y: -5 }];
    let out = compact_cells(&cells);
    assert_eq!(
        out,
        vec![Cell { x: 2, y: 0 }, Cell { x: 0, y: 1 }, Cell { x: 2, y: 2 }, Cell { x: 1, y: 0 }]
    );
}

#[test]
fn a_wrong_way_edge_is_reported_with_its_offset() {
    let map = RoomMap::from_rooms(vec![
        outdoor(1, vec![cardinal(2, "east")]),
        outdoor(2, vec![cardinal(1, "west")]),
    ])
    .expect("distinct ids");
    let dirs = DirectionMap::build(&map);
    let ids = vec![RoomId(1), RoomId(2)];
    let wrong = vec![(RoomId(1), Cell { x: 3, y: 0 }), (RoomId(2), Cell { x: 1, y: 0 })];
    let v = validate_component(&ids, &wrong, &map, &dirs);
    assert_eq!(v.len(), 2);
    assert_eq!(v[0].from, RoomId(1));
    assert_eq!(v[0].to, RoomId(2));
    assert_eq!(v[0].actual, Cell { x: -2, y: 0 });
    let right = vec![(RoomId(1), Cell { x: 0, y: 0 }), (RoomId(2), Cell { x: 5, y: 0 })];
    assert!(validate_component(&ids, &right, &map, &dirs).is_empty(), "a stretched edge passes");
}

#[test]
fn the_open_air_is_the_large_outdoor_runs() {
    let map = town();
    let air = open_air(&map);
    let rooms = map.rooms();
    let flag = |id: u32| air[rooms.iter().position(|r| r.id == RoomId(id)).unwrap()];
    assert!(flag(1) && flag(2) && flag(10) && flag(8) && flag(5), "the square's run is the world outside");
    assert!(!flag(3) && !flag(4), "indoor rooms are never the open air");
}
