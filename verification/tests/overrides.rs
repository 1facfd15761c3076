use cena_map_layout::direction::{Dir, EdgeAction};
use cena_map_layout::geometry::Cell;
use cena_map_layout::model::{Room, RoomId, RoomMap, Uid};
use cena_map_layout::overrides::{plate_key, MapOverrides, Plate, RoomKey};

#[test]
fn plate_keys_are_dotted_and_stable() {
    assert_eq!(plate_key("Landing Well"), "landing.well");
    assert_eq!(plate_key("landing.treehouse"), "landing.treehouse");
    assert_eq!(plate_key("  Town  Square--Central "), "town.square.central");
    assert_eq!(plate_key("Landing Well"), plate_key("landing well"));
}

#[test]
fn uid_and_id_keys_never_collide() {
    assert_ne!(RoomKey::Uid(17127), RoomKey::Id(17127));
    let mut store = MapOverrides::new();
    store.move_room(RoomKey::Uid(17127), Some("a"));
    store.move_room(RoomKey::Id(17127), Some("b"));
    assert_eq!(store.membership_moves.len(), 2, "one key overwrote the other");
}

#[test]
fn a_cancelled_drag_records_nothing() {
    let mut store = MapOverrides::new();
    let anchor = RoomKey::Uid(500);
    store.nudge_group("town", anchor, Cell { x: 3, y: -2 });
    assert_eq!(
        store.location("town").unwrap().group_offsets.get(anchor),
        Some(&Cell { x: 3, y: -2 })
    );
    store.nudge_group("town", anchor, Cell { x: -3, y: 2 });
    assert!(store.location("town").is_none(), "an undone drag left a trace");
}

#[test]
fn drags_accumulate() {
    let mut store = MapOverrides::new();
    let anchor = RoomKey::Uid(7);
    store.nudge_group("town", anchor, Cell { x: 2, y: 0 });
    store.nudge_group("town", anchor, Cell { x: 1, y: 5 });
    assert_eq!(
        store.location("town").unwrap().group_offsets.get(anchor),
        Some(&Cell { x: 3, y: 5 })
    );
}

#[test]
fn deleting_a_plate_releases_its_rooms() {
    let mut store = MapOverrides::new();
    let key = store.create_map("Landing Well", Some("town"));
    store.move_room(RoomKey::Uid(7120), Some(&key));
    store.move_room(RoomKey::Uid(9999), Some("landing.treehouse"));
    store.delete_map(&key);
    assert!(store.custom_maps.is_empty());
    assert_eq!(store.membership_moves.len(), 1, "an unrelated move was dropped");
}

#[test]
fn an_edge_is_one_entry_from_either_end() {
    let (a, b) = (RoomKey::Uid(100), RoomKey::Uid(200));
    let mut store = MapOverrides::new();
    store.set_edge("town", a, b, Some(EdgeAction::Direction(Dir::East)));
    store.set_edge("town", b, a, Some(EdgeAction::Direction(Dir::West)));
    let location = store.location("town").expect("has corrections");
    assert_eq!(location.edges.len(), 1, "one edge became two entries");
    assert_eq!(location.edge_action(a, b), Some(EdgeAction::Direction(Dir::East)));
    assert_eq!(location.edge_action(b, a), location.edge_action(a, b));
    store.set_edge("town", b, a, None);
    assert!(store.location("town").is_none(), "clearing left a trace");
}

fn room_with_uid(id: RoomId, uid: i64) -> Room {
    let mut r = Room::bare(id);
    r.uid = vec![Uid(uid)];
    r
}

#[test]
fn edge_overrides_resolve_to_room_ids() {
    let map = RoomMap::from_rooms(vec![room_with_uid(RoomId(5), 900_001)]).expect("one room");
    let mut store = MapOverrides::new();
    store.set_edge(
        "town",
        RoomKey::Uid(900_001),
        RoomKey::Uid(900_002),
        Some(EdgeAction::Direction(Dir::North)),
    );
    let location = store.location("town").expect("has corrections");
    assert!(
        location.edge_overrides(&map).is_empty(),
        "an override for a room this map lacks was resolved anyway"
    );
}

#[test]
fn edge_overrides_name_the_rooms_of_this_map() {
    let map = RoomMap::from_rooms(vec![
        room_with_uid(RoomId(5), 900_001),
        Room::bare(RoomId(6)),
    ])
    .expect("two rooms");
    let mut store = MapOverrides::new();
    store.set_edge(
        "town",
        RoomKey::Id(6),
        RoomKey::Uid(900_001),
        Some(EdgeAction::Direction(Dir::North)),
    );
    let resolved = store.location("town").unwrap().edge_overrides(&map);
    assert_eq!(resolved.len(), 1);
    // Uid keys sort first, so the pair is stored as (uid, id), south.
    assert_eq!(resolved[0].a, RoomId(5));
    assert_eq!(resolved[0].b, RoomId(6));
    assert_eq!(resolved[0].action, EdgeAction::Direction(Dir::South));
}

#[test]
fn a_self_owning_plate_is_repaired() {
    let mut store = MapOverrides::new();
    store.custom_maps.insert(
        "landing.well".to_owned(),
        Plate { name: "landing.well".to_owned(), area: Some("landing.well".to_owned()) },
    );
    store.custom_maps.insert(
        "landing.deeper".to_owned(),
        Plate { name: "landing.deeper".to_owned(), area: Some("landing.well".to_owned()) },
    );
    store.repair();
    assert_eq!(store.custom_maps.get("landing.well").unwrap().area, None);
    assert_eq!(
        store.custom_maps.get("landing.deeper").unwrap().area,
        None,
        "a plate parented to a plate kept a plate as its area"
    );
}

#[test]
fn plates_belong_to_their_area() {
    let mut store = MapOverrides::new();
    let well = store.create_map("landing.well", Some("wehnimers-landing-town"));
    store.create_map("elsewhere", Some("some-other-area"));
    store.create_map("orphan", None);

    let sheets = store.plates_of("wehnimers-landing-town");
    assert_eq!(sheets.len(), 1, "an unrelated plate was listed as a sheet");
    assert_eq!(sheets[0].0, well);
    assert_eq!(store.plate_name(&well), "landing.well");
    assert_eq!(store.plate_name("orphan"), "orphan");
}

#[test]
fn a_plate_leads_back_to_its_area() {
    let mut store = MapOverrides::new();
    store.create_map("landing.well", Some("wehnimers-landing-town"));
    store.create_map("landing.treehouse", Some("wehnimers-landing-town"));

    assert_eq!(store.owner_of("landing.well"), Some("wehnimers-landing-town"));
    let owner = store.owner_of("landing.well").expect("has an owner");
    let siblings: Vec<&str> = store.plates_of(owner).into_iter().map(|(_, n)| n).collect();
    assert_eq!(siblings, vec!["landing.treehouse", "landing.well"]);
    assert_eq!(store.owner_of("wehnimers-landing-town"), None);
}

#[test]
fn a_malformed_key_is_refused() {
    assert!(RoomKey::parse("uid:7120").is_ok());
    assert!(RoomKey::parse("id:9").is_ok());
    for bad in ["7120", "uid:", "uid:abc", "what:3", ""] {
        assert!(RoomKey::parse(bad).is_err(), "{bad:?} parsed as a key");
    }
}

#[test]
fn keys_read_back_as_written() {
    for key in [
        RoomKey::Uid(7120),
        RoomKey::Uid(-228),
        RoomKey::Uid(i64::MIN),
        RoomKey::Uid(i64::MAX),
        RoomKey::Id(0),
        RoomKey::Id(u32::MAX),
    ] {
        let text = key.to_text();
        assert_eq!(RoomKey::parse(&text).ok(), Some(key), "{text}");
    }
    assert_eq!(RoomKey::Uid(7120).to_text(), "uid:7120");
    assert_eq!(RoomKey::Id(4242).to_text(), "id:4242");
    assert_eq!(RoomKey::parse("uid:+5").ok(), Some(RoomKey::Uid(5)));
    assert!(RoomKey::parse("id:-1").is_err());
    assert!(RoomKey::parse("id:4294967296").is_err());
    assert!(RoomKey::parse("uid:9223372036854775808").is_err());
    let bad = RoomKey::parse("what").err().unwrap();
    assert_eq!(
        bad.message(),
        "\"what\" is not a room key (expected \"uid:N\" or \"id:N\")"
    );
}

#[test]
fn a_key_is_a_rooms_first_uid_or_its_id() {
    let map = RoomMap::from_rooms(vec![room_with_uid(RoomId(1), 42), Room::bare(RoomId(2))])
        .expect("two rooms");
    assert_eq!(RoomKey::of(RoomId(1), &map), RoomKey::Uid(42));
    assert_eq!(RoomKey::of(RoomId(2), &map), RoomKey::Id(2));
    assert_eq!(RoomKey::of(RoomId(3), &map), RoomKey::Id(3));
}

#[test]
fn pins_and_areas_come_and_go() {
    let mut store = MapOverrides::new();
    store.pin_room("town", RoomKey::Id(9), Some(Cell { x: -4, y: 0 }));
    assert_eq!(store.location("town").unwrap().len(), 1);
    store.pin_room("town", RoomKey::Id(9), None);
    assert!(store.location("town").is_none());

    let key = store.create_area(" Landing Town ");
    assert_eq!(key, "landing.town");
    assert_eq!(store.area_name(&key), "Landing Town");
    assert_eq!(store.area_name("nowhere"), "nowhere");
    assert_eq!(store.set_area(RoomKey::Uid(1), Some(&key)), None);
    assert_eq!(store.set_area(RoomKey::Uid(2), Some("other")), None);
    assert_eq!(store.set_area(RoomKey::Uid(1), Some(&key)), Some(key.clone()));
    store.delete_area(&key);
    assert!(store.custom_areas.is_empty());
    assert_eq!(store.area_moves.len(), 1);
    assert!(store.area_moves.contains_key(RoomKey::Uid(2)));

    store.move_room(RoomKey::Uid(3), Some("p"));
    assert!(store.is_plated(RoomKey::Uid(3)));
    store.move_room(RoomKey::Uid(3), None);
    assert!(!store.is_plated(RoomKey::Uid(3)));

    let plate = store.create_map("Well", None);
    store.set_plate_area(&plate, Some("town"));
    assert_eq!(store.owner_of("Well"), Some("town"));
    store.nudge_group("town", RoomKey::Uid(1), Cell { x: 1, y: 1 });
    store.reset_location("town");
    assert!(store.location("town").is_none());
}
