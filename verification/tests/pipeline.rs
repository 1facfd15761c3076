use cena_map_layout::geometry::PackMethod;
use cena_map_layout::model::{Crossing, Exit, ExitKind, Room, RoomId, RoomMap};
use cena_map_layout::geometry::TOWN_SCALE;
use cena_map_layout::pipeline::{finish_layout, generate_layout, generate_layout_tuned, prepare_layout, LayoutParams};

fn room(id: u32, paths: &str, exits: Vec<Exit>) -> Room {
    let mut r = Room::bare(RoomId(id));
    r.title = vec![format!("[Room {id}]")];
    r.paths = vec![paths.to_owned()];
    r.exits = exits;
    r
}

fn exit(to: u32, kind: ExitKind, command: &str) -> Exit {
    Exit { to: RoomId(to), kind, crossing: Crossing::Command(command.to_owned()) }
}

/// A square with a street east of it, a bank behind a door, and a menu
/// room that is no place.
fn town() -> RoomMap {
    let mut hideout = room(50, "Obvious exits: none", vec![exit(1, ExitKind::Go, "go out")]);
    hideout.tags = vec!["urchin-hideout".to_owned()];
    RoomMap::from_rooms(vec![
        room(
            1,
            "Obvious paths: east",
            vec![exit(2, ExitKind::Cardinal, "east"), exit(3, ExitKind::Go, "go door")],
        ),
        room(2, "Obvious paths: west", vec![exit(1, ExitKind::Cardinal, "west")]),
        room(3, "Obvious exits: out", vec![exit(1, ExitKind::Out, "out"), exit(4, ExitKind::Cardinal, "north")]),
        room(4, "Obvious exits: south", vec![exit(3, ExitKind::Cardinal, "south")]),
        hideout,
    ])
    .expect("the ids are distinct")
}

#[test]
fn the_pipeline_drops_menus_and_packs_the_outdoors() {
    let p = prepare_layout(town(), &Vec::new()).expect("a small map fits");
    assert!(p.map.rooms().iter().all(|r| r.id != RoomId(50)));
    assert_eq!(p.map.rooms().len(), 4);
    let placed: Vec<RoomId> = p.groups.iter().flat_map(|g| g.room_ids.iter().copied()).collect();
    assert!(!placed.contains(&RoomId(50)));
    let outdoor = p.outdoor.clone();
    let interiors = p.interiors.clone();
    assert!(!outdoor.is_empty());
    let l = finish_layout(p, &Vec::new(), &Vec::new(), 4).expect("a small map fits the sheet");
    assert_eq!(l.town_scale, 4);
    for &g in &outdoor {
        assert!(l.groups[g].base_offset.is_some());
        assert!(matches!(
            l.groups[g].packing,
            Some(PackMethod::Image | PackMethod::Connector | PackMethod::Seed | PackMethod::Strip)
        ));
    }
    for &g in &interiors {
        assert!(l.groups[g].base_offset.is_some());
        assert_eq!(l.groups[g].packing, Some(PackMethod::InteriorShelf));
        assert!(l.groups[g].name.is_some());
    }
}

#[test]
fn a_town_scale_below_one_is_raised_to_one() {
    let p = prepare_layout(town(), &Vec::new()).expect("a small map fits");
    let l = finish_layout(p, &Vec::new(), &Vec::new(), 0).expect("a small map fits the sheet");
    assert_eq!(l.town_scale, 1);
}

#[test]
fn an_all_interior_selection_packs_every_group_outdoors() {
    let map = RoomMap::from_rooms(vec![
        room(3, "Obvious exits: north", vec![exit(4, ExitKind::Cardinal, "north")]),
        room(4, "Obvious exits: south", vec![exit(3, ExitKind::Cardinal, "south")]),
    ])
    .expect("the ids are distinct");
    let p = prepare_layout(map, &Vec::new()).expect("a small map fits");
    assert!(p.interiors.is_empty());
    assert_eq!(p.outdoor, (0..p.groups.len()).collect::<Vec<_>>());
}

#[test]
fn the_whole_pipeline_runs_with_its_knobs() {
    assert_eq!(LayoutParams::default().town_scale, TOWN_SCALE);
    let l = generate_layout(town()).expect("a small map fits the sheet");
    assert_eq!(l.town_scale, TOWN_SCALE);
    assert!(l.groups.iter().all(|g| !g.room_ids.contains(&RoomId(50))));
    for &g in &l.interiors {
        assert_eq!(l.groups[g].packing, Some(PackMethod::InteriorShelf));
    }
    let tuned = generate_layout_tuned(town(), &Vec::new(), LayoutParams { town_scale: 7 }).expect("fits");
    assert_eq!(tuned.town_scale, 7);
    assert_eq!(tuned.groups, l.groups, "the scale is recorded, not applied to the solve");
}
