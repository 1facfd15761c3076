use cena_map_layout::classifier::{building_name, classify, interior_clusters, Entrance};
use cena_map_layout::geometry::Cell;
use cena_map_layout::group::Group;
use cena_map_layout::model::{Crossing, Exit, ExitKind, Room, RoomId, RoomMap};

fn room(id: u32, exits: &[(u32, &str)]) -> Room {
    let mut r = Room::bare(RoomId(id));
    r.exits = exits
        .iter()
        .map(|&(to, cmd)| Exit {
            to: RoomId(to),
            kind: ExitKind::Other,
            crossing: Crossing::Command(cmd.to_owned()),
        })
        .collect();
    r
}

fn with_paths(mut r: Room, paths: &str) -> Room {
    r.paths = vec![paths.to_owned()];
    r
}

fn group(index: usize, room_ids: &[u32]) -> Group {
    Group {
        index,
        room_ids: room_ids.iter().copied().map(RoomId).collect(),
        positions: room_ids
            .iter()
            .enumerate()
            .map(|(i, &id)| {
                (
                    RoomId(id),
                    Cell {
                        x: i32::try_from(i).unwrap_or(i32::MAX),
                        y: 0,
                    },
                )
            })
            .collect(),
        violations: vec![],
        base_offset: None,
        packing: None,
        name: None,
    }
}

/// The bank: 3850+3672 are one directional component, 3670 hangs off
/// 3672 via "go arch" (directionless, so its own component), and 3672
/// leads outside via "out" to 3669. All three interior rooms are ONE
/// cluster; the outdoor room never joins.
#[test]
fn go_arch_joins_a_building_but_out_does_not() {
    let rooms = vec![
        room(3669, &[(3672, "go bank")]),
        room(3670, &[(3672, "go arch")]),
        room(3672, &[(3850, "north"), (3670, "go arch"), (3669, "out")]),
        room(3850, &[(3672, "south")]),
    ];
    let map = RoomMap::from_rooms(rooms).expect("no duplicate ids");
    let groups = vec![group(0, &[3672, 3850]), group(1, &[3670]), group(2, &[3669])];
    let interior = vec![true, true, false];

    let clusters = interior_clusters(&groups, &interior, &map);
    assert_eq!(
        clusters.iter().filter(|c| c.is_some()).count(),
        2,
        "both interior groups get a cluster id"
    );
    assert_eq!(
        clusters[0], clusters[1],
        "'go arch' must join the bank's sub-groups into one building"
    );
    assert!(
        clusters[2].is_none(),
        "the outdoor group is not part of any interior cluster"
    );
}

#[test]
fn a_cluster_is_named_by_its_smallest_group() {
    let rooms = vec![
        room(1, &[(2, "go arch")]),
        room(2, &[(1, "out")]),
        room(3, &[]),
    ];
    let map = RoomMap::from_rooms(rooms).expect("no duplicate ids");
    let groups = vec![group(0, &[3]), group(1, &[2]), group(2, &[1])];
    let clusters = interior_clusters(&groups, &vec![true, true, true], &map);
    assert_eq!(clusters, vec![Some(0), Some(1), Some(1)]);
}

#[test]
fn a_majority_decides_and_an_out_marks_a_building() {
    let rooms = vec![
        with_paths(room(1, &[(2, "go door")]), "Obvious paths: north"),
        with_paths(room(2, &[(1, "out")]), "Obvious exits: out"),
        room(3, &[(1, "out")]),
        room(4, &[(3, "go trapdoor")]),
    ];
    let map = RoomMap::from_rooms(rooms).expect("no duplicate ids");
    let groups = vec![group(0, &[1]), group(1, &[2]), group(2, &[3]), group(3, &[4])];
    let c = classify(&groups, &map);
    // Street by majority, shop by majority, a room with no paths line whose
    // `out` leaves it, and a room reachable only through that one.
    assert_eq!(c.interior_groups, vec![false, true, true, true]);
    assert_eq!(
        c.entrances[1],
        vec![Entrance {
            outdoor_room_id: RoomId(1),
            interior_room_id: RoomId(2)
        }]
    );
    assert!(c.entrances[0].is_empty());
    assert!(c.entrances[2].is_empty());
    assert_eq!(c.entrance_room_ids, vec![RoomId(1)]);
}

#[test]
fn propagation_never_overrules_an_outdoor_majority() {
    // A boutique street, reachable only through the shop it serves.
    let rooms = vec![
        with_paths(room(1, &[(2, "out")]), "Obvious exits: out"),
        with_paths(room(2, &[(1, "go shop")]), "Obvious paths: east"),
    ];
    let map = RoomMap::from_rooms(rooms).expect("no duplicate ids");
    let groups = vec![group(0, &[1]), group(1, &[2])];
    let c = classify(&groups, &map);
    assert_eq!(c.interior_groups, vec![true, false]);
    assert_eq!(c.entrance_room_ids, vec![RoomId(2)]);
}

#[test]
fn recomputing_follows_the_flags() {
    let rooms = vec![
        with_paths(room(1, &[(2, "go door")]), "Obvious paths: north"),
        with_paths(room(2, &[(1, "out")]), "Obvious exits: out"),
    ];
    let map = RoomMap::from_rooms(rooms).expect("no duplicate ids");
    let groups = vec![group(0, &[1]), group(1, &[2])];
    let mut c = classify(&groups, &map);
    c.interior_groups = vec![false, false];
    c.recompute_entrances(&groups, &map);
    assert!(c.entrances.iter().all(|e| e.is_empty()));
    assert!(c.entrance_room_ids.is_empty());
}

#[test]
fn a_building_is_named_by_its_commonest_title_prefix() {
    let mut rooms = vec![room(1, &[]), room(2, &[]), room(3, &[]), room(4, &[])];
    rooms[0].title = vec!["[Manor House, Foyer]".to_owned()];
    rooms[1].title = vec!["[Gardens]".to_owned()];
    rooms[2].title = vec!["[Manor House, Hall]".to_owned()];
    rooms[3].title = vec!["no brackets".to_owned()];
    let map = RoomMap::from_rooms(rooms).expect("no duplicate ids");
    assert_eq!(
        building_name(&group(0, &[1, 2, 3, 4]), &map).as_deref(),
        Some("Manor House")
    );
    assert_eq!(
        building_name(&group(0, &[2, 1]), &map).as_deref(),
        Some("Gardens")
    );
    assert_eq!(building_name(&group(0, &[4]), &map), None);
}
