use cena_map_layout::direction::{Dir, DirectionMap};
use cena_map_layout::geometry::Cell;
use cena_map_layout::model::{Crossing, Exit, ExitKind, Room, RoomId, RoomMap};
use cena_map_layout::satisfiable::{is_satisfiable, place_by_order, problems, Axis, Problem};

fn exit(to: u32, command: &str) -> Exit {
    Exit {
        to: RoomId(to),
        kind: ExitKind::Cardinal,
        crossing: Crossing::Command(command.to_owned()),
    }
}

fn room(id: u32, exits: Vec<Exit>) -> Room {
    let mut r = Room::bare(RoomId(id));
    r.title = vec![format!("[R{id}]")];
    r.exits = exits;
    r
}

fn check(rooms: Vec<Room>) -> Vec<Problem> {
    let ids: Vec<RoomId> = rooms.iter().map(|r| r.id).collect();
    let map = RoomMap::from_rooms(rooms).expect("no duplicate ids");
    let dirs = DirectionMap::build(&map);
    problems(&ids, &map, &dirs)
}

fn cell_of(placed: &[(RoomId, Cell)], id: RoomId) -> Cell {
    placed
        .iter()
        .find(|(r, _)| *r == id)
        .map(|(_, c)| *c)
        .expect("every room is placed")
}

#[test]
fn the_four_room_counterexample_is_satisfiable() {
    let found = check(vec![
        room(
            0,
            vec![exit(1, "northeast"), exit(2, "northeast"), exit(3, "north")],
        ),
        room(1, vec![exit(0, "southwest"), exit(2, "southeast")]),
        room(2, vec![exit(0, "southwest"), exit(1, "northwest")]),
        room(3, vec![exit(0, "south")]),
    ]);
    assert!(found.is_empty(), "called satisfiable data bad: {found:?}");
}

#[test]
fn a_contradiction_through_an_alignment_is_found() {
    let found = check(vec![
        room(1, vec![exit(2, "north"), exit(3, "east")]),
        room(2, vec![exit(3, "north")]),
        room(3, vec![]),
    ]);
    assert!(
        found.iter().any(|p| matches!(
            p,
            Problem::OrderWithinAlignment {
                axis: Axis::EastWest,
                ..
            }
        )),
        "missed a contradiction running through an alignment: {found:?}"
    );
}

#[test]
fn rooms_forced_onto_one_cell_are_reported() {
    let found = check(vec![
        room(1, vec![exit(9, "south"), exit(5, "east")]),
        room(9, vec![exit(2, "north")]),
        room(5, vec![exit(2, "west")]),
        room(2, vec![]),
    ]);
    assert_eq!(
        found,
        vec![Problem::ForcedOverlap {
            a: RoomId(1),
            b: RoomId(2)
        }],
        "rooms pinned to one cell went unreported"
    );
}

#[test]
fn mutual_east_is_a_contradiction() {
    assert!(!check(vec![
        room(1, vec![exit(2, "east")]),
        room(2, vec![exit(1, "east")]),
    ])
    .is_empty());
}

#[test]
fn a_three_room_loop_is_a_contradiction() {
    let found = check(vec![
        room(1, vec![exit(2, "east")]),
        room(2, vec![exit(3, "east")]),
        room(3, vec![exit(1, "east")]),
    ]);
    assert!(found.iter().any(|p| matches!(
        p,
        Problem::Cycle {
            axis: Axis::EastWest,
            ..
        }
    )));
}

#[test]
fn ordinary_shapes_are_satisfiable() {
    assert!(check(vec![
        room(1, vec![exit(2, "east"), exit(3, "south")]),
        room(2, vec![exit(1, "west"), exit(4, "south")]),
        room(3, vec![exit(1, "north"), exit(4, "east")]),
        room(4, vec![exit(2, "north"), exit(3, "west")]),
    ])
    .is_empty());

    let long: Vec<Room> = (1..=100u32)
        .map(|id| {
            let mut e = vec![];
            if id > 1 {
                e.push(exit(id - 1, "west"));
            }
            if id < 100 {
                e.push(exit(id + 1, "east"));
            }
            room(id, e)
        })
        .collect();
    assert!(check(long).is_empty());
}

#[test]
fn a_stretched_edge_is_no_contradiction() {
    assert!(check(vec![
        room(1, vec![exit(2, "east"), exit(3, "east")]),
        room(2, vec![exit(1, "west"), exit(3, "east")]),
        room(3, vec![exit(1, "west"), exit(2, "west")]),
    ])
    .is_empty());
}

#[test]
fn the_ordering_placement_satisfies_every_sign() {
    let rooms = vec![
        room(1, vec![exit(2, "east"), exit(3, "south")]),
        room(2, vec![exit(1, "west"), exit(4, "south")]),
        room(3, vec![exit(1, "north"), exit(4, "east")]),
        room(4, vec![exit(2, "north"), exit(3, "west")]),
    ];
    let ids: Vec<RoomId> = rooms.iter().map(|r| r.id).collect();
    let map = RoomMap::from_rooms(rooms).expect("ok");
    let dirs = DirectionMap::build(&map);
    let placed = place_by_order(&ids, &map, &dirs).expect("satisfiable");

    for &from in &ids {
        let Some(r) = map.room(from) else { continue };
        for e in &r.exits {
            let Some(dir) = dirs.get(from, e.to) else {
                continue;
            };
            let (ex, ey) = dir.offset();
            let (a, b) = (cell_of(&placed, from), cell_of(&placed, e.to));
            assert_eq!((b.x - a.x).signum(), ex, "x sign wrong for {from:?} -> {:?}", e.to);
            assert_eq!((b.y - a.y).signum(), ey, "y sign wrong for {from:?} -> {:?}", e.to);
        }
    }
}

#[test]
fn contradictory_rooms_place_to_nothing() {
    let rooms = vec![
        room(1, vec![exit(2, "east")]),
        room(2, vec![exit(1, "east")]),
    ];
    let ids: Vec<RoomId> = rooms.iter().map(|r| r.id).collect();
    let map = RoomMap::from_rooms(rooms).expect("ok");
    let dirs = DirectionMap::build(&map);
    assert!(place_by_order(&ids, &map, &dirs).is_none());
    assert!(!is_satisfiable(&ids, &map, &dirs));
}

#[test]
fn rooms_nothing_orders_sit_beside_their_neighbour_not_stacked_at_the_origin() {
    let rooms = vec![
        room(1, vec![exit(2, "east")]),
        room(
            2,
            vec![
                exit(1, "west"),
                exit(3, "east"),
                exit(10, "go steps"),
                exit(20, "out"),
            ],
        ),
        room(3, vec![exit(2, "west")]),
        room(10, vec![exit(2, "down"), exit(11, "up")]),
        room(11, vec![exit(10, "down"), exit(12, "up")]),
        room(12, vec![exit(11, "down")]),
        room(20, vec![exit(2, "go gate")]),
    ];
    let ids: Vec<RoomId> = rooms.iter().map(|r| r.id).collect();
    let map = RoomMap::from_rooms(rooms).expect("ok");
    let dirs = DirectionMap::build(&map);
    let placed = place_by_order(&ids, &map, &dirs).expect("satisfiable");

    let mut cells: Vec<(i32, i32)> = placed.iter().map(|(_, c)| (c.x, c.y)).collect();
    cells.sort_unstable();
    let before = cells.len();
    cells.dedup();
    assert_eq!(cells.len(), before, "two rooms share a cell: {placed:?}");

    let at = |id: u32| cell_of(&placed, RoomId(id));
    assert!(
        at(1).x < at(2).x && at(2).x < at(3).x,
        "the street lost its order: {placed:?}"
    );
    assert_eq!(at(1).y, at(2).y);
    assert_eq!(at(2).y, at(3).y);
    let apart = |a: Cell, b: Cell| (a.x - b.x).abs().max((a.y - b.y).abs());
    for id in [10, 20] {
        assert!(
            apart(at(id), at(2)) <= 2,
            "room {id} is {} cells from the room it is reached from: {placed:?}",
            apart(at(id), at(2))
        );
    }
}

fn assert_drawable(placed: &[(RoomId, Cell)], map: &RoomMap, dirs: &DirectionMap) {
    for room in map.rooms() {
        for e in &room.exits {
            let Some(d) = dirs.get(room.id, e.to) else {
                continue;
            };
            if matches!(d, Dir::Up | Dir::Down) {
                continue;
            }
            let (a, b) = (cell_of(placed, room.id), cell_of(placed, e.to));
            let (dx, dy) = d.offset();
            assert!(
                (b.x - a.x).signum() == dx.signum() && (b.y - a.y).signum() == dy.signum(),
                "{} -> {} is {d:?} but sits at {a:?} -> {b:?}",
                room.id.0,
                e.to.0
            );
        }
    }
    let mut cells: Vec<(i32, i32)> = placed.iter().map(|(_, c)| (c.x, c.y)).collect();
    cells.sort_unstable();
    let before = cells.len();
    cells.dedup();
    assert_eq!(cells.len(), before, "two rooms share a cell: {placed:?}");
}

fn place(rooms: Vec<Room>) {
    let ids: Vec<RoomId> = rooms.iter().map(|r| r.id).collect();
    let map = RoomMap::from_rooms(rooms).expect("ok");
    let dirs = DirectionMap::build(&map);
    let placed = place_by_order(&ids, &map, &dirs).expect("satisfiable");
    assert_drawable(&placed, &map, &dirs);
}

#[test]
fn two_rooms_north_of_one_do_not_share_a_cell() {
    place(vec![
        room(1, vec![exit(2, "north"), exit(3, "north")]),
        room(2, vec![]),
        room(3, vec![]),
    ]);
}

#[test]
fn two_grids_a_doorway_joins_are_drawn_apart() {
    place(vec![
        room(
            1,
            vec![exit(2, "east"), exit(3, "south"), exit(11, "go arch")],
        ),
        room(2, vec![exit(1, "west"), exit(4, "south")]),
        room(3, vec![exit(1, "north"), exit(4, "east")]),
        room(4, vec![exit(2, "north"), exit(3, "west")]),
        room(
            11,
            vec![exit(12, "east"), exit(13, "south"), exit(1, "go arch")],
        ),
        room(12, vec![exit(11, "west"), exit(14, "south")]),
        room(13, vec![exit(11, "north"), exit(14, "east")]),
        room(14, vec![exit(12, "north"), exit(13, "west")]),
    ]);
}

#[test]
fn classes_ranked_onto_one_cell_are_pushed_apart() {
    place(vec![
        room(1, vec![exit(2, "south"), exit(5, "east")]),
        room(2, vec![exit(1, "north")]),
        room(5, vec![exit(1, "west"), exit(6, "east")]),
        room(6, vec![exit(5, "west")]),
        room(
            3,
            vec![exit(4, "south"), exit(7, "east"), exit(1, "go path")],
        ),
        room(4, vec![exit(3, "north")]),
        room(7, vec![exit(3, "west"), exit(8, "east")]),
        room(8, vec![exit(7, "west")]),
    ]);
}

#[test]
fn axes_and_problems_name_themselves() {
    assert_eq!(Axis::EastWest.name(), "east/west");
    assert_eq!(Axis::NorthSouth.name(), "north/south");
    let p = Problem::ForcedOverlap { a: RoomId(1), b: RoomId(2) };
    assert_eq!(p.rooms(), vec![RoomId(1), RoomId(2)]);
    let c = Problem::Cycle { axis: Axis::EastWest, cycle: vec![RoomId(1), RoomId(2), RoomId(1)] };
    assert_eq!(c.rooms().len(), 3);
}
