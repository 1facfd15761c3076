use cena_map_layout::areas::{
    layout_rooms, location_areas, official_areas, region_areas, Area, AreaKind, Areas,
};
use cena_map_layout::model::{Crossing, Exit, ExitKind, Room, RoomId, RoomMap};
use cena_map_layout::overrides::MapOverrides;

/// A room with just enough filled in to carry an id and a location.
fn room_in(id: RoomId, location: &str) -> Room {
    let mut room = Room::bare(id);
    room.location = Some(location.to_owned());
    room
}

/// A room with an id, a location and some exits.
fn room_linked(id: RoomId, location: &str, to: &[RoomId]) -> Room {
    let mut room = room_in(id, location);
    room.exits = to
        .iter()
        .map(|&t| Exit {
            to: t,
            kind: ExitKind::Go,
            crossing: Crossing::Command("go door".to_owned()),
        })
        .collect();
    room
}

const TABLE: &str = "area\tsource\troom_ids\n\
Town Square\tofficial layout\t1 2\n\
Some Shop\tmapdb location\t3\n\
Catacombs\tofficial layout\t99 4\n\
Nowhere\tofficial layout\t98\n";

fn ids(areas: &[Area]) -> Vec<RoomId> {
    areas.iter().flat_map(|a| a.rooms.iter().copied()).collect()
}

#[test]
fn official_areas_are_filtered_to_the_map() {
    let map = RoomMap::from_rooms(Vec::new()).expect("an empty map is a map");
    assert!(official_areas(TABLE, &map).is_empty());
}

#[test]
fn official_rows_keep_only_the_rooms_the_map_has() {
    let map = RoomMap::from_rooms((1..=4).map(|i| room_in(RoomId(i), "x")).collect()).expect("no duplicate ids");
    let areas = official_areas(TABLE, &map);
    let names: Vec<&str> = areas.iter().map(|a| a.name.as_str()).collect();
    assert_eq!(names, vec!["Catacombs", "Town Square"], "sorted by name, mapdb rows and empty rows dropped");
    assert_eq!(areas[0].rooms, vec![RoomId(4)]);
    assert_eq!(areas[1].rooms, vec![RoomId(1), RoomId(2)]);
    assert!(areas.iter().all(|a| a.kind == AreaKind::Official));
}

#[test]
fn the_header_decides_where_the_columns_are() {
    let map = RoomMap::from_rooms(vec![room_in(RoomId(7), "x")]).expect("one room");
    let reordered = "room_ids\tarea\tsource\r\n+7 x 7\tHall\tofficial layout\r\n";
    let areas = official_areas(reordered, &map);
    assert_eq!(areas.len(), 1);
    assert_eq!(areas[0].name, "Hall");
    assert_eq!(areas[0].rooms, vec![RoomId(7), RoomId(7)]);

    let headless = "area\tsource\n7\tofficial layout\n";
    assert!(official_areas(headless, &map).is_empty(), "no room_ids column, no areas");
    assert!(official_areas("", &map).is_empty());
    let short = "area\tsource\troom_ids\nHall\tofficial layout\n";
    assert!(official_areas(short, &map).is_empty(), "a row missing a field is skipped");
}

#[test]
fn a_claimed_room_is_not_listed_twice() {
    let claimed = RoomId(7);
    let rooms = vec![
        room_in(claimed, "Some Shop"),
        room_in(RoomId(8), "Some Shop"),
        room_in(RoomId(9), "Elsewhere"),
    ];
    let map = RoomMap::from_rooms(rooms).expect("no duplicate ids");

    let by_location = location_areas(&map, &[claimed]);
    let listed = ids(&by_location);

    assert!(!listed.contains(&claimed), "a claimed room was listed again");
    assert!(listed.contains(&RoomId(8)));
    assert!(listed.contains(&RoomId(9)));
}

#[test]
fn a_wholly_claimed_location_disappears() {
    let rooms = vec![room_in(RoomId(1), "Inside An Official Area")];
    let map = RoomMap::from_rooms(rooms).expect("no duplicate ids");
    assert!(location_areas(&map, &[RoomId(1)]).is_empty());
}

#[test]
fn the_region_list_covers_every_room_including_claimed_ones() {
    let mut a = room_in(RoomId(1), "the Upper Trollfang");
    a.meta = vec!["region:QUEST: Black Swan Castle".to_owned()];
    let b = room_in(RoomId(2), "the Upper Trollfang");
    let map = RoomMap::from_rooms(vec![a, b]).expect("no duplicate ids");

    let regions = region_areas(&map);
    let listed = ids(&regions);
    assert!(listed.contains(&RoomId(1)) && listed.contains(&RoomId(2)));

    let quest = regions
        .iter()
        .find(|r| r.name == "QUEST: Black Swan Castle")
        .expect("the quest is its own entry");
    assert_eq!(quest.rooms, vec![RoomId(1)]);
    let none = regions
        .iter()
        .find(|r| r.name == "(no region)")
        .expect("unclassified rooms are kept, not dropped");
    assert_eq!(none.rooms, vec![RoomId(2)]);
}

#[test]
fn a_region_and_a_location_of_one_name_do_not_share_a_store_key() {
    let region = Area {
        name: "Ta'Illistim".to_owned(),
        kind: AreaKind::Region,
        rooms: vec![],
    };
    let location = Area {
        name: "Ta'Illistim".to_owned(),
        kind: AreaKind::Location,
        rooms: vec![],
    };
    assert_ne!(region.store_key(), location.store_key());
    assert_eq!(region.store_key(), "region:Ta'Illistim");
    assert_eq!(location.store_key(), "Ta'Illistim");
}

#[test]
fn official_layout_is_truth_and_every_room_is_listed_once() {
    let map = RoomMap::from_rooms(vec![
        room_in(RoomId(1), "the town of Somewhere"),
        room_in(RoomId(2), "the town of Somewhere"),
        room_in(RoomId(3), "Some Shop"),
        room_in(RoomId(4), "the catacombs"),
    ])
    .expect("no duplicate ids");
    let areas = Areas::build(&map, &MapOverrides::new(), TABLE);

    let official = ids(&areas.official);
    let location = ids(&areas.location);
    for id in &official {
        assert!(!location.contains(id), "room {id:?} is in both lists");
    }
    for i in 1..=4 {
        let id = RoomId(i);
        assert!(official.contains(&id) || location.contains(&id));
        assert!(ids(&areas.region).contains(&id));
    }
    assert_eq!(location, vec![RoomId(3)]);
    assert_eq!(areas.list(AreaKind::Official).len(), 2);
    assert_eq!(areas.list(AreaKind::Location)[0].name, "Some Shop");
    assert!(areas.list(AreaKind::Plates).is_empty());
    assert_eq!(AreaKind::Derived.title(), "Derived");
}

#[test]
fn a_stranded_room_brings_its_doorway_with_it() {
    let shop = RoomId(1);
    let street = RoomId(2);
    let map = RoomMap::from_rooms(vec![
        room_linked(shop, "Cysaegir", &[street]),
        room_linked(street, "the village of Cysaegir", &[shop]),
    ])
    .expect("no duplicate ids");

    let rooms = layout_rooms(&[shop], &map);
    let ids: Vec<RoomId> = rooms.iter().map(|r| r.id).collect();
    assert!(ids.contains(&shop));
    assert!(
        ids.contains(&street),
        "the shop was laid out without the street it opens onto"
    );
}

#[test]
fn a_whole_area_pulls_nothing_in() {
    let (a, b, outside) = (RoomId(1), RoomId(2), RoomId(3));
    let map = RoomMap::from_rooms(vec![
        room_linked(a, "town", &[b, outside]),
        room_linked(b, "town", &[a]),
        room_linked(outside, "elsewhere", &[a]),
    ])
    .expect("no duplicate ids");

    let ids: Vec<RoomId> = layout_rooms(&[a, b], &map).iter().map(|r| r.id).collect();
    assert_eq!(ids.len(), 2, "pulled in a neighbour that was not needed");
    assert!(!ids.contains(&outside));
}

#[test]
fn an_inbound_only_doorway_still_counts() {
    let shop = RoomId(1);
    let street = RoomId(2);
    let map = RoomMap::from_rooms(vec![
        room_linked(shop, "shops", &[]),
        room_linked(street, "streets", &[shop]),
    ])
    .expect("no duplicate ids");

    let ids: Vec<RoomId> = layout_rooms(&[shop], &map).iter().map(|r| r.id).collect();
    assert!(
        ids.contains(&street),
        "a room reachable only one way was left stranded"
    );
}

#[test]
fn a_room_with_no_exits_pulls_nothing() {
    let lone = RoomId(1);
    let map = RoomMap::from_rooms(vec![room_linked(lone, "nowhere", &[])]).expect("one room");
    assert_eq!(layout_rooms(&[lone], &map).len(), 1);
}
