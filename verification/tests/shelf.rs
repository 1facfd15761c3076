use cena_map_layout::geometry::{Cell, PackMethod, TOWN_SCALE};
use cena_map_layout::group::Group;
use cena_map_layout::shelf::merge_cluster_members;
use cena_map_layout::model::{Crossing, Exit, ExitKind, Room, RoomId, RoomMap};
use cena_map_layout::pipeline::{self, Layout};

fn room(id: u32, title: &str, paths: &str, exits: Vec<Exit>) -> Room {
    let mut r = Room::bare(RoomId(id));
    r.title = vec![title.to_owned()];
    r.paths = vec![paths.to_owned()];
    r.exits = exits;
    r
}

fn exit(to: u32, command: &str) -> Exit {
    Exit { to: RoomId(to), kind: ExitKind::Cardinal, crossing: Crossing::Command(command.to_owned()) }
}

fn door(to: u32, what: &str) -> Exit {
    Exit { to: RoomId(to), kind: ExitKind::Go, crossing: Crossing::Command(format!("go {what}")) }
}

/// The whole pipeline over a copy of the map.
fn generate_layout(map: &RoomMap) -> Layout {
    let map = RoomMap::from_rooms(map.rooms().clone()).expect("the ids are distinct");
    pipeline::generate_layout(map).expect("a small map fits the sheet")
}

fn cell_in(layout: &Layout, id: u32) -> Cell {
    layout
        .groups
        .iter()
        .find(|g| g.room_ids.contains(&RoomId(id)))
        .map(|g| g.final_cell(RoomId(id)))
        .expect("room is placed")
}

fn apart(a: Cell, b: Cell) -> i32 {
    (a.x - b.x).abs().max((a.y - b.y).abs())
}

const OUT: &str = "Obvious paths: east, west";
const IN: &str = "Obvious exits: out";

#[test]
fn the_shelf_follows_the_street_not_the_indices() {
    const CORNERS: u32 = 6;

    let mut rooms = Vec::new();
    for i in (0..CORNERS).rev() {
        let street = 1000 + i;
        for s in 0..2u32 {
            let head = i * 20 + s * 10;
            let depth = i + 1;
            let mut back: Vec<Exit> = vec![door(street, "out")];
            if depth > 1 {
                back.push(exit(head + 1, "north"));
            }
            rooms.push(room(head, "[Shop]", IN, back));
            for d in 1..depth {
                let mut e = vec![exit(head + d - 1, "south")];
                if d + 1 < depth {
                    e.push(exit(head + d + 1, "north"));
                }
                rooms.push(room(head + d, "[Shop Back]", IN, e));
            }
        }
    }
    for i in 0..CORNERS {
        let id = 1000 + i;
        let mut exits = vec![door(i * 20, "shop"), door(i * 20 + 10, "shop")];
        if i > 0 {
            exits.push(exit(id - 1, "west"));
        }
        if i + 1 < CORNERS {
            exits.push(exit(id + 1, "east"));
        }
        rooms.push(room(id, "[Street]", OUT, exits));
    }
    let map = RoomMap::from_rooms(rooms).expect("no duplicate ids");

    let layout = generate_layout(&map);
    assert!(!layout.interiors.is_empty(), "fixture inlined instead of shelving; the shelf is untested");
    let cell_of = |id: u32| cell_in(&layout, id);
    let street_at = |street: u32| {
        let c = cell_of(street);
        Cell { x: c.x * TOWN_SCALE, y: c.y * TOWN_SCALE }
    };
    for corner in 0..CORNERS {
        let here = street_at(1000 + corner);
        for shop in [corner * 20, corner * 20 + 10] {
            let d = apart(cell_of(shop), here);
            assert!(d <= 2, "shop {shop} sits {d} cells from its street room");
        }
        for other in 0..CORNERS {
            if other == corner {
                continue;
            }
            assert!(
                apart(here, street_at(1000 + other)) > 2,
                "two street rooms ({} and {}) sit on top of each other",
                1000 + corner,
                1000 + other
            );
        }
    }
}

#[test]
fn the_street_keeps_its_shape_and_the_buildings_hang_off_it() {
    const STREETS: u32 = 12;
    const HALL_STREETS: [u32; 5] = [1000, 1003, 1006, 1009, 1011];

    let mut rooms = Vec::new();
    for (i, street) in (0u32..).zip(HALL_STREETS) {
        let id = 500 + i;
        let mut exits = vec![door(street, "out")];
        if i > 0 {
            exits.push(exit(id - 1, "west"));
        }
        if usize::try_from(i + 1).is_ok_and(|n| n < HALL_STREETS.len()) {
            exits.push(exit(id + 1, "east"));
        }
        rooms.push(room(id, "[Guild Hall]", IN, exits));
    }
    for i in 0..STREETS {
        let id = 1000 + i;
        let mut exits = vec![door(2000 + i, "shop")];
        if let Some(k) = (0u32..).zip(HALL_STREETS).find(|&(_, s)| s == id) {
            exits.push(door(500 + k.0, "hall"));
        }
        if i > 0 {
            exits.push(exit(id - 1, "west"));
        }
        if i + 1 < STREETS {
            exits.push(exit(id + 1, "east"));
        }
        rooms.push(room(id, "[Street]", OUT, exits));
        rooms.push(room(2000 + i, "[Shop]", IN, vec![door(id, "out")]));
    }
    let map = RoomMap::from_rooms(rooms).expect("no duplicate ids");
    let layout = generate_layout(&map);
    assert!(!layout.interiors.is_empty(), "fixture inlined; the shelf is untested");

    let cell_of = |id: u32| cell_in(&layout, id);
    let echo_of = |street: u32| {
        let c = cell_of(street);
        Cell { x: c.x * TOWN_SCALE, y: c.y * TOWN_SCALE }
    };

    let echoes: Vec<Cell> = (0..STREETS).map(|i| echo_of(1000 + i)).collect();
    assert!(echoes.windows(2).all(|w| w[0].y == w[1].y), "the street did not stay on one row: {echoes:?}");
    assert!(echoes.windows(2).all(|w| w[0].x < w[1].x), "the street's rooms came out of order: {echoes:?}");
    assert!(
        echoes.windows(2).all(|w| w[1].x - w[0].x == TOWN_SCALE),
        "the street is not uniformly scaled: {echoes:?}"
    );

    for i in 0..STREETS {
        let d = apart(cell_of(2000 + i), echo_of(1000 + i));
        assert!(d <= 2, "shop {} sits {d} cells from its street room", 2000 + i);
    }

    let (first, last) = (echo_of(HALL_STREETS[0]), echo_of(HALL_STREETS[4]));
    for i in 0..5u32 {
        let c = cell_of(500 + i);
        assert!(
            (first.x..=last.x).contains(&c.x),
            "hall room {} at x={} is outside its streets' span {}..={}",
            500 + i,
            c.x,
            first.x,
            last.x
        );
        assert!((c.y - first.y).abs() <= 2, "hall room {} sits {} rows off the street", 500 + i, (c.y - first.y).abs());
    }
}

/// Every room on a cell of its own, on the one sheet: an outdoor room at
/// its cell times the town scale, a shelved room at its own cell.
fn assert_one_room_per_cell(map: &RoomMap) {
    let layout = generate_layout(map);
    let mut cells: Vec<Cell> = Vec::new();
    for (g, group) in layout.groups.iter().enumerate() {
        let scale = if layout.outdoor.contains(&g) { TOWN_SCALE } else { 1 };
        for id in &group.room_ids {
            let c = group.final_cell(*id);
            cells.push(Cell { x: c.x * scale, y: c.y * scale });
        }
    }
    cells.sort_unstable_by_key(|c| (c.x, c.y));
    let before = cells.len();
    cells.dedup();
    assert_eq!(cells.len(), before, "two rooms share a cell");
}

#[test]
fn a_building_with_no_street_shelves_below_the_streets() {
    let mut rooms = Vec::new();
    for i in 0..5u32 {
        let mut exits = Vec::new();
        if i > 0 {
            exits.push(exit(i - 1, "west"));
        }
        if i < 4 {
            exits.push(exit(i + 1, "east"));
        }
        rooms.push(room(i, "[Street]", OUT, exits));
    }
    rooms.push(room(100, "[Tent]", IN, vec![door(999, "flap"), exit(101, "north")]));
    rooms.push(room(101, "[Tent]", IN, vec![exit(100, "south"), exit(102, "north")]));
    rooms.push(room(102, "[Tent]", IN, vec![exit(101, "south")]));
    let map = RoomMap::from_rooms(rooms).expect("no duplicate ids");
    assert_one_room_per_cell(&map);

    let layout = generate_layout(&map);
    let street_bottom = (0..5u32).map(|i| cell_in(&layout, i).y * TOWN_SCALE).max().expect("five streets");
    for id in 100..=102u32 {
        let y = cell_in(&layout, id).y;
        assert!(y > street_bottom, "tent room {id} at y={y} is not below the street");
    }
}

#[test]
fn a_shop_with_two_street_doors_hangs_in_the_same_place_every_run() {
    let mut rooms = Vec::new();
    for i in 0..8u32 {
        let mut exits = Vec::new();
        if i > 0 {
            exits.push(exit(i - 1, "west"));
        }
        if i < 7 {
            exits.push(exit(i + 1, "east"));
        }
        if i == 1 || i == 6 {
            exits.push(door(100, "shop"));
        }
        rooms.push(room(i, "[Street]", OUT, exits));
    }
    rooms.push(room(100, "[Shop]", IN, vec![door(999, "back")]));
    let map = RoomMap::from_rooms(rooms).expect("no duplicate ids");
    let first = generate_layout(&map);
    for _ in 0..50 {
        let again = generate_layout(&map);
        assert_eq!(again.groups, first.groups, "the layout changed between runs");
        assert_eq!(again.outdoor, first.outdoor, "the layout changed between runs");
        assert_eq!(again.interiors, first.interiors, "the layout changed between runs");
        assert_eq!(again.classification, first.classification, "the layout changed between runs");
    }
}

#[test]
fn every_interior_is_shelved_and_nothing_shares_a_cell_on_the_shelf() {
    let mut rooms = Vec::new();
    for i in 0..3u32 {
        let mut exits = vec![door(10 + i, "shop")];
        if i > 0 {
            exits.push(exit(i - 1, "west"));
        }
        if i < 2 {
            exits.push(exit(i + 1, "east"));
        }
        rooms.push(room(i, "[Street]", OUT, exits));
        rooms.push(room(10 + i, "[Shop]", IN, vec![door(i, "out")]));
    }
    let map = RoomMap::from_rooms(rooms).expect("no duplicate ids");
    let layout = generate_layout(&map);
    assert_eq!(layout.interiors.len(), 3);
    for &g in &layout.interiors {
        assert!(layout.groups[g].base_offset.is_some());
        assert_eq!(layout.groups[g].packing, Some(PackMethod::InteriorShelf));
    }
    let mut shelf: Vec<Cell> = layout.interiors.iter().map(|&g| layout.groups[g].base_offset.unwrap()).collect();
    shelf.sort_unstable_by_key(|c| (c.x, c.y));
    shelf.dedup();
    assert_eq!(shelf.len(), 3, "two shops share a cell");
    assert_one_room_per_cell(&map);
}

#[test]
fn a_merge_seeds_on_the_largest_component_and_keeps_members_apart() {
    fn comp(index: usize, ids: &[u32]) -> Group {
        Group {
            index,
            room_ids: ids.iter().map(|&i| RoomId(i)).collect(),
            positions: ids.iter().enumerate().map(|(k, &i)| (RoomId(i), Cell { x: 0, y: -(k as i32) })).collect(),
            violations: Vec::new(),
            base_offset: None,
            packing: None,
            name: None,
        }
    }
    // A hall of three rooms and a back room behind a door from its first.
    let map = RoomMap::from_rooms(vec![
        room(1, "[Hall]", IN, vec![exit(2, "north"), door(9, "back")]),
        room(2, "[Hall]", IN, vec![exit(1, "south"), exit(3, "north")]),
        room(3, "[Hall]", IN, vec![exit(2, "south")]),
        room(9, "[Back]", IN, vec![door(1, "out")]),
    ])
    .expect("no duplicate ids");
    let groups = vec![comp(0, &[9]), comp(1, &[1, 2, 3])];
    let local = merge_cluster_members(&groups, &vec![0, 1], &map, &Vec::new(), &Vec::new());
    assert_eq!(local.len(), 2);
    assert_eq!(local[0].0, 0);
    assert_eq!(local[1].0, 1);
    assert_eq!(local[1].1, Cell { x: 0, y: 0 }, "the three-room hall is the seed");
    let back = Cell { x: local[0].1.x, y: local[0].1.y };
    for k in 0..3 {
        assert_ne!(back, Cell { x: 0, y: -k }, "the back room sits on a hall room");
    }
    assert!(apart(back, Cell { x: 0, y: 0 }) <= 1, "the back room is not beside the door it opens off");
}
