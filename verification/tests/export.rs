use cena_map_layout::direction::{Dir, EdgeAction};
use cena_map_layout::export::{build, export_path, interiors_slug, NOT_IN_MAP, NO_UID};
use cena_map_layout::model::{Room, RoomId, RoomMap, Uid};
use cena_map_layout::overrides::{store_path, MapOverrides, RoomKey};

fn room(id: u32, uid: Option<i64>) -> Room {
    let mut r = Room::bare(RoomId(id));
    r.uid = uid.map(Uid).into_iter().collect();
    r
}

#[test]
fn a_bearing_exports_as_dirto_both_ways() {
    let map = RoomMap::from_rooms(vec![room(1, Some(7_000_001)), room(2, Some(7_000_002))])
        .expect("two rooms");
    let mut store = MapOverrides::new();
    store.set_edge(
        "town",
        RoomKey::Uid(7_000_001),
        RoomKey::Uid(7_000_002),
        Some(EdgeAction::Direction(Dir::East)),
    );

    let (export, skipped) = build(&store, &map, None, &[], &[]);
    assert!(skipped.is_empty());
    assert_eq!(
        export.dirto.get(7_000_001).unwrap().get(7_000_002).unwrap(),
        "east"
    );
    assert_eq!(
        export.dirto.get(7_000_002).unwrap().get(7_000_001).unwrap(),
        "west",
        "the far room did not get the opposite bearing"
    );
}

#[test]
fn a_passage_exports_as_cross_group() {
    let map = RoomMap::from_rooms(vec![room(1, Some(7_000_001)), room(2, Some(7_000_002))])
        .expect("two rooms");
    let mut store = MapOverrides::new();
    store.set_edge(
        "town",
        RoomKey::Uid(7_000_001),
        RoomKey::Uid(7_000_002),
        Some(EdgeAction::Connector),
    );

    let (export, _) = build(&store, &map, None, &[], &[]);
    assert_eq!(
        export.dirto.get(7_000_001).unwrap().get(7_000_002).unwrap(),
        "cross-group"
    );
    assert_eq!(
        export.dirto.get(7_000_002).unwrap().get(7_000_001).unwrap(),
        "cross-group"
    );
}

#[test]
fn a_uidless_room_is_reported_not_exported() {
    let map =
        RoomMap::from_rooms(vec![room(1, Some(7_000_001)), room(2, None)]).expect("two rooms");
    let mut store = MapOverrides::new();
    store.set_edge(
        "town",
        RoomKey::Uid(7_000_001),
        RoomKey::Id(2),
        Some(EdgeAction::Connector),
    );

    let (export, skipped) = build(&store, &map, None, &[], &[]);
    assert!(export.dirto.is_empty(), "exported an unusable key");
    assert_eq!(skipped.len(), 1);
    assert_eq!(skipped[0].why, NO_UID);
    assert_eq!(skipped[0].what, "town: edge uid:7000001 <-> id:2");
}

#[test]
fn a_room_missing_from_the_map_is_reported_as_such() {
    let map = RoomMap::from_rooms(vec![room(1, Some(7_000_001))]).expect("one room");
    let mut store = MapOverrides::new();
    store.set_edge(
        "town",
        RoomKey::Uid(7_000_001),
        RoomKey::Id(9),
        Some(EdgeAction::Connector),
    );
    let (_, skipped) = build(&store, &map, None, &[], &[]);
    assert_eq!(skipped.len(), 1);
    assert_eq!(skipped[0].why, NOT_IN_MAP);
}

#[test]
fn plates_export_with_their_rooms() {
    let map = RoomMap::from_rooms(vec![room(1, Some(7120))]).expect("one room");
    let mut store = MapOverrides::new();
    let key = store.create_map("landing.well", None);
    store.move_room(RoomKey::Uid(7120), Some(&key));
    store.create_map("landing.empty", None);

    let (export, _) = build(&store, &map, None, &[], &[]);
    assert_eq!(export.map_membership.get(7120).unwrap(), "landing.well");
    assert_eq!(export.maps.len(), 1, "an empty plate travelled anyway");
    assert!(export.maps.contains_key("landing.well"));
}

#[test]
fn interiors_take_their_own_slug() {
    assert_eq!(
        interiors_slug("wehnimers-landing-town"),
        "wehnimers-landing-town.interiors"
    );
}

#[test]
fn shelved_rooms_export_onto_their_own_slug() {
    let map =
        RoomMap::from_rooms(vec![room(1, Some(7120)), room(2, Some(7121))]).expect("rooms");
    let interiors = vec![("town".to_owned(), vec![RoomId(2)])];
    let (export, _) = build(&MapOverrides::new(), &map, None, &interiors, &[]);
    assert_eq!(export.map_membership.get(7121).unwrap(), "town.interiors");
    assert!(
        !export.map_membership.contains_key(7120),
        "an outdoor room was given an interiors slug"
    );
}

#[test]
fn a_plated_room_keeps_its_area() {
    let map = RoomMap::from_rooms(vec![room(1, Some(7122))]).expect("one room");
    let mut store = MapOverrides::new();
    let key = store.create_map("landing.well", None);
    store.move_room(RoomKey::Uid(7122), Some(&key));

    let areas = vec![(RoomId(1), "the town of Wehnimer's Landing".to_owned())];
    let (export, _) = build(&store, &map, None, &[], &areas);
    assert_eq!(export.map_membership.get(7122).unwrap(), "landing.well");
    assert_eq!(
        export.area.get(7122).unwrap(),
        "the town of Wehnimer's Landing",
        "the room's area did not travel with its plate"
    );
}

#[test]
fn a_plate_move_beats_the_interiors_shelf() {
    let map = RoomMap::from_rooms(vec![room(1, Some(7120))]).expect("one room");
    let mut store = MapOverrides::new();
    let key = store.create_map("landing.well", None);
    store.move_room(RoomKey::Uid(7120), Some(&key));
    let interiors = vec![("town".to_owned(), vec![RoomId(1)])];

    let (export, _) = build(&store, &map, None, &interiors, &[]);
    assert_eq!(export.map_membership.get(7120).unwrap(), "landing.well");
}

#[test]
fn an_interior_room_without_a_uid_is_skipped() {
    let map = RoomMap::from_rooms(vec![room(4, None)]).expect("one room");
    let interiors = vec![("town".to_owned(), vec![RoomId(4)])];
    let (export, skipped) = build(&MapOverrides::new(), &map, None, &interiors, &[]);
    assert!(export.is_empty());
    assert_eq!(skipped.len(), 1);
    assert_eq!(skipped[0].what, "town: interior room 4");
    assert_eq!(skipped[0].why, NO_UID);
}

#[test]
fn the_export_counts_every_entry() {
    let map = RoomMap::from_rooms(vec![room(1, Some(10)), room(2, Some(20)), room(3, Some(30))])
        .expect("rooms");
    let mut store = MapOverrides::new();
    store.set_edge("town", RoomKey::Uid(10), RoomKey::Uid(20), Some(EdgeAction::Connector));
    let key = store.create_map("yard", None);
    store.move_room(RoomKey::Uid(30), Some(&key));
    let (export, _) = build(&store, &map, Some("gs.map".to_owned()), &[], &[]);
    assert!(!export.is_empty());
    assert_eq!(export.len(), 3);
    assert_eq!(export.source_map.as_deref(), Some("gs.map"));
    assert!(export.generator.starts_with("hydra-mapper "));
}

#[test]
fn the_store_path_sits_beside_the_map() {
    let path = store_path("/maps/gs.map");
    assert!(path.ends_with("gs.overrides.json"));
    assert_eq!(path, "/maps/gs.overrides.json");
}

#[test]
fn the_export_path_sits_beside_the_map() {
    assert_eq!(export_path("/maps/gs.map"), "/maps/gs.corrections.json");
    assert_eq!(export_path("gs"), "gs.corrections.json");
}
