use cena_map_layout::derived::{
    derive_areas, title_inner, title_prefix, AreaKind, DerivedArea, TINY_ROOMS, ZONE_ROOMS,
};
use cena_map_layout::model::{Crossing, Exit, ExitKind, Room, RoomId, RoomMap};

const OUT: &str = "Obvious paths: north";
const IN: &str = "Obvious exits: out";
const VIRTUAL_ROOM_TAG: &str = "urchin-hideout";

fn room(id: u32, title: &str, location: Option<&str>, paths: &str, to: &[u32]) -> Room {
    let mut r = Room::bare(RoomId(id));
    r.title = vec![title.to_owned()];
    r.paths = vec![paths.to_owned()];
    r.location = location.map(str::to_owned);
    r.exits = to
        .iter()
        .map(|&t| Exit {
            to: RoomId(t),
            kind: ExitKind::Cardinal,
            crossing: Crossing::Command("north".to_owned()),
        })
        .collect();
    r
}

fn tagged(id: u32, title: &str, location: Option<&str>, tag: &str, to: &[u32]) -> Room {
    let mut r = room(id, title, location, IN, to);
    r.tags = vec![tag.to_owned()];
    r
}

fn area_of(areas: &[DerivedArea], id: u32) -> &DerivedArea {
    areas
        .iter()
        .find(|a| a.rooms.contains(&RoomId(id)))
        .unwrap_or_else(|| panic!("room {id} is in no area"))
}

/// A town whose streets carry two labels, with a shop under the hub
/// name, a back room behind the shop, a walled yard behind that, an
/// unlabelled porch, a zone-sized catacomb under its own name, and a
/// road out to another town.
fn two_towns_and_a_catacomb() -> RoomMap {
    let mut rooms = vec![
        room(1, "[Wehn, North Rd.]", Some("the town of Wehn"), OUT, &[2, 10]),
        room(2, "[Wehn, East Rd.]", Some("the town of Wehn"), OUT, &[1, 3, 30]),
        room(3, "[Wehn, South Rd.]", Some("Wehn"), OUT, &[2, 4, 100]),
        room(4, "[Wehn, West Rd.]", Some("the town of Wehn"), OUT, &[3, 1, 200]),
        room(10, "[Shop, Front]", Some("Wehn"), IN, &[1, 11]),
        room(11, "[Shop, Back]", Some("Wehn"), IN, &[10, 12]),
        room(12, "[Shop, Yard]", Some("Wehn"), OUT, &[11, 13]),
        room(13, "[Shop, Yard]", Some("Wehn"), OUT, &[12, 11]),
        room(30, "[Porch]", None, IN, &[2]),
        room(100, "[Road]", Some("the road"), OUT, &[3, 101]),
        room(101, "[Road]", Some("the road"), OUT, &[100, 102]),
        room(102, "[Road]", Some("the road"), OUT, &[101, 103]),
        room(103, "[Road]", Some("the road"), OUT, &[102, 104]),
        room(104, "[Road]", Some("the road"), OUT, &[103, 105]),
        room(105, "[Road]", Some("the road"), OUT, &[104, 106]),
        room(106, "[Sol, Gate]", Some("the town of Sol"), OUT, &[105, 107]),
        room(107, "[Sol, Square]", Some("the town of Sol"), OUT, &[106, 108]),
        room(108, "[Sol, Square]", Some("the town of Sol"), OUT, &[107, 109]),
        room(109, "[Sol, Square]", Some("the town of Sol"), OUT, &[108, 110]),
        room(110, "[Sol, Square]", Some("the town of Sol"), OUT, &[109, 111]),
        room(111, "[Sol, Square]", Some("the town of Sol"), OUT, &[110]),
    ];
    let zone = ZONE_ROOMS as u32;
    for i in 0..zone {
        let id = 200 + i;
        let mut to = vec![];
        if i > 0 {
            to.push(id - 1);
        }
        if i + 1 < zone {
            to.push(id + 1);
        }
        if i == 0 {
            to.push(4);
        }
        rooms.push(room(id, "[Catacombs]", Some("the catacombs"), IN, &to));
    }
    RoomMap::from_rooms(rooms).expect("no duplicate ids")
}

#[test]
fn a_hideout_is_no_place_and_fuses_nothing() {
    let mut rooms = Vec::new();
    for (t, town) in ["Wehn", "Sol", "Ice", "Riv"].iter().enumerate() {
        let base = 100 * (t as u32 + 1);
        let loc = format!("the town of {town}");
        for i in 0..TINY_ROOMS as u32 {
            let id = base + i;
            let mut to = vec![];
            if i > 0 {
                to.push(id - 1);
            }
            if i + 1 < TINY_ROOMS as u32 {
                to.push(id + 1);
            }
            if i == 0 {
                to.push(base + 50);
            }
            rooms.push(room(id, &format!("[{town}, Street]"), Some(&loc), OUT, &to));
        }
        let mut to: Vec<u32> = vec![base];
        to.extend((1..=4u32).map(|o| o * 100 + 50).filter(|&h| h != base + 50));
        rooms.push(tagged(
            base + 50,
            &format!("[{town} - Urchin Hideout]"),
            Some(town),
            VIRTUAL_ROOM_TAG,
            &to,
        ));
    }
    let map = RoomMap::from_rooms(rooms).expect("no duplicate ids");
    let areas = derive_areas(&map);
    let towns: Vec<&DerivedArea> = [100, 200, 300, 400]
        .iter()
        .map(|&id| area_of(&areas, id))
        .collect();
    for pair in towns.windows(2) {
        assert!(
            pair[0].rooms != pair[1].rooms,
            "two towns fused: {:?}",
            pair[0].name
        );
    }
    for base in [100, 200, 300, 400] {
        assert!(
            !areas.iter().any(|a| a.rooms.contains(&RoomId(base + 50))),
            "a hideout reached an area"
        );
    }
}

#[test]
fn a_town_is_its_streets_and_everything_that_opens_onto_them() {
    let map = two_towns_and_a_catacomb();
    let areas = derive_areas(&map);

    let town = area_of(&areas, 1);
    assert_eq!(town.region.as_deref(), Some("Wehn"));
    assert_eq!(town.kind, AreaKind::Streets);
    for id in [2, 3, 4, 10, 11, 12, 13, 30] {
        assert!(
            town.rooms.contains(&RoomId(id)),
            "room {id} is not in the town: {:?}",
            area_of(&areas, id).name
        );
    }
    let catacombs = area_of(&areas, 200);
    assert_eq!(catacombs.kind, AreaKind::Zone);
    assert_eq!(catacombs.rooms.len(), ZONE_ROOMS);
    let sol = area_of(&areas, 107);
    assert_eq!(sol.region.as_deref(), Some("Sol"));
    assert!(!sol.rooms.contains(&RoomId(1)), "the two towns merged");
    assert_eq!(
        areas
            .iter()
            .filter(|a| a.kind != AreaKind::Isolated)
            .count(),
        4,
        "{:?}",
        areas
            .iter()
            .map(|a| (&a.name, a.rooms.len()))
            .collect::<Vec<_>>()
    );
}

#[test]
fn every_real_room_lands_in_exactly_one_area_largest_first() {
    let map = two_towns_and_a_catacomb();
    let areas = derive_areas(&map);
    let mut seen: Vec<RoomId> = areas.iter().flat_map(|a| a.rooms.iter().copied()).collect();
    seen.sort_by_key(|r| r.0);
    let mut all: Vec<RoomId> = map.rooms().iter().map(|r| r.id).collect();
    all.sort_by_key(|r| r.0);
    assert_eq!(seen, all);
    for pair in areas.windows(2) {
        assert!(pair[0].rooms.len() >= pair[1].rooms.len());
    }
    assert_eq!(area_of(&areas, 200).rooms.len(), ZONE_ROOMS);
    assert_eq!(area_of(&areas, 1).rooms.len(), 9);
}

#[test]
fn rooms_no_walk_reaches_are_gathered_by_name() {
    // Three rooms of a travel puzzle, reached by nothing a person walks,
    // and one unlabelled room standing alone.
    let mut rooms = vec![
        room(1, "[Rift, Edge]", Some("the Rift"), IN, &[]),
        room(2, "[Rift, Core]", Some("the Rift"), IN, &[]),
        room(3, "[Rift, Pit]", Some("the Rift"), IN, &[]),
        room(9, "[Nowhere]", None, IN, &[]),
    ];
    rooms[0].exits.push(Exit {
        to: RoomId(2),
        kind: ExitKind::Go,
        crossing: Crossing::Routine("rift".to_owned()),
    });
    let map = RoomMap::from_rooms(rooms).expect("no duplicate ids");
    let areas = derive_areas(&map);
    assert_eq!(areas.len(), 2);
    let rift = area_of(&areas, 1);
    assert_eq!(rift.kind, AreaKind::Zone);
    assert_eq!(rift.rooms, vec![RoomId(1), RoomId(2), RoomId(3)]);
    assert_eq!(rift.name, "the Rift");
    let alone = area_of(&areas, 9);
    assert_eq!(alone.kind, AreaKind::Isolated);
    assert_eq!(alone.region, None);
    assert_eq!(alone.name, "Nowhere");
}

#[test]
fn a_lesser_area_of_a_region_takes_its_title_and_a_shared_name_its_size() {
    // Wehn's streets, and two pieces of "Wehn" that no road reaches: a
    // carnival, and a second carnival field with the same titles.
    let mut rooms = Vec::new();
    for i in 0..TINY_ROOMS as u32 {
        let mut to = vec![];
        if i > 0 {
            to.push(i);
        }
        if i + 1 < TINY_ROOMS as u32 {
            to.push(i + 2);
        }
        rooms.push(room(i + 1, "[Wehn, Street]", Some("the town of Wehn"), OUT, &to));
    }
    rooms.push(room(20, "[Carnival, Gate]", Some("Wehn"), OUT, &[21]));
    rooms.push(room(21, "[Carnival, Midway]", Some("Wehn"), OUT, &[20]));
    rooms.push(room(30, "[Carnival, Field]", Some("Wehn"), OUT, &[31]));
    rooms.push(room(31, "[Carnival, Field]", Some("Wehn"), OUT, &[30, 32]));
    rooms.push(room(32, "[Carnival, Field]", Some("Wehn"), OUT, &[31]));
    let map = RoomMap::from_rooms(rooms).expect("no duplicate ids");
    let areas = derive_areas(&map);
    let town = area_of(&areas, 1);
    assert_eq!(town.name, "the town of Wehn");
    assert_eq!(area_of(&areas, 30).name, "Carnival (3 rooms)");
    assert_eq!(area_of(&areas, 20).name, "Carnival (2 rooms)");
}

#[test]
fn a_hub_joins_nothing_it_reaches() {
    // A wagon with exits into three other towns is no street of any.
    let mut rooms = Vec::new();
    for (t, town) in ["A", "B", "C", "D"].iter().enumerate() {
        let base = 10 * (t as u32 + 1);
        let loc = format!("the town of {town}");
        let mut to = vec![base + 1];
        if t == 0 {
            to.extend([20, 30, 40]);
        }
        rooms.push(room(base, &format!("[{town}, Gate]"), Some(&loc), OUT, &to));
        rooms.push(room(base + 1, &format!("[{town}, Road]"), Some(&loc), OUT, &[base]));
    }
    let map = RoomMap::from_rooms(rooms).expect("no duplicate ids");
    let areas = derive_areas(&map);
    assert!(!area_of(&areas, 10).rooms.contains(&RoomId(20)));
    assert!(!area_of(&areas, 20).rooms.contains(&RoomId(30)));
    assert!(area_of(&areas, 10).rooms.contains(&RoomId(11)));
}

#[test]
fn titles_read_their_bracketed_text() {
    let r = room(1, "[Moonglae Inn, Atrium]", None, IN, &[]);
    assert_eq!(title_inner(&r).as_deref(), Some("Moonglae Inn, Atrium"));
    assert_eq!(title_prefix(&r).as_deref(), Some("Moonglae Inn"));
    let plain = room(2, "A plain title", None, IN, &[]);
    assert_eq!(title_inner(&plain), None);
    assert_eq!(title_prefix(&plain), None);
    let empty = room(3, "[ , ]", None, IN, &[]);
    assert_eq!(title_inner(&empty).as_deref(), Some(","));
    assert_eq!(title_prefix(&empty), None);
}
