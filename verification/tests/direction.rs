use cena_map_layout::direction::{
    contains_word, direction_from_command, direction_from_exit, direction_from_steps, Dir,
    DirectionMap, EdgeAction, EdgeOverride,
};
use cena_map_layout::model::{Action, Crossing, Exit, ExitKind, Room, RoomId, RoomMap, Step};

fn step(action: Action) -> Step {
    Step { action, when: None }
}

#[test]
fn a_script_that_only_moves_names_its_direction() {
    assert_eq!(
        direction_from_steps(&[step(Action::Move("southwest".to_owned()))]),
        Some(Dir::Southwest)
    );
    assert_eq!(
        direction_from_steps(&[step(Action::Move("ne".to_owned()))]),
        Some(Dir::Northeast)
    );
}

#[test]
fn a_guarded_move_still_names_its_direction() {
    let guarded = Step {
        action: Action::Move("north".to_owned()),
        when: Some("still here".to_owned()),
    };
    assert_eq!(direction_from_steps(&[guarded]), Some(Dir::North));
}

#[test]
fn a_script_that_moves_twice_names_nothing() {
    assert_eq!(
        direction_from_steps(&[
            step(Action::Move("north".to_owned())),
            step(Action::Move("east".to_owned())),
        ]),
        None,
        "a two-step walk was read as a single bearing"
    );
}

#[test]
fn only_a_plain_move_counts() {
    assert_eq!(
        direction_from_steps(&[step(Action::KeepMoving("south".to_owned()))]),
        None
    );
    assert_eq!(
        direction_from_steps(&[step(Action::MoveUntilThere("west".to_owned()))]),
        None
    );
    assert_eq!(direction_from_steps(&[]), None);
}

#[test]
fn a_scripted_door_names_no_direction() {
    assert_eq!(
        direction_from_steps(&[step(Action::Move("go oak door".to_owned()))]),
        None
    );
}

#[test]
fn abbreviations_are_directions() {
    for (short, long) in [
        ("n", Dir::North),
        ("s", Dir::South),
        ("e", Dir::East),
        ("w", Dir::West),
        ("ne", Dir::Northeast),
        ("nw", Dir::Northwest),
        ("se", Dir::Southeast),
        ("sw", Dir::Southwest),
        ("u", Dir::Up),
        ("d", Dir::Down),
    ] {
        assert_eq!(
            direction_from_command(short),
            Some(long),
            "{short:?} did not resolve"
        );
    }
}

#[test]
fn an_abbreviation_inside_a_command_is_not_a_direction() {
    assert_eq!(direction_from_command("go n gate"), None);
    assert_eq!(direction_from_command("go e door"), None);
    assert_eq!(
        direction_from_command("go northeast gate"),
        Some(Dir::Northeast)
    );
}

#[test]
fn word_boundaries() {
    assert!(contains_word("go northeast gate", "northeast"));
    assert!(!contains_word("go upper hallway", "up"));
    assert!(contains_word("climb up", "up"));
    assert!(!contains_word("go soupbone", "up"));
}

#[test]
fn longest_direction_wins() {
    assert!(!contains_word("northeast", "north"));
}

#[test]
fn a_cardinal_kind_still_needs_its_command_text() {
    assert_eq!(direction_from_command("north"), Some(Dir::North));
    assert_eq!(
        direction_from_command("go northeast gate"),
        Some(Dir::Northeast)
    );
    assert_eq!(direction_from_command("go upper hallway"), None);
}

#[test]
fn every_name_reads_back_and_reverses() {
    for d in [
        Dir::North,
        Dir::South,
        Dir::East,
        Dir::West,
        Dir::Northeast,
        Dir::Northwest,
        Dir::Southeast,
        Dir::Southwest,
        Dir::Up,
        Dir::Down,
    ] {
        assert_eq!(Dir::from_exact(d.name()), Some(d));
        assert_eq!(d.opposite().opposite(), d);
        let (x, y) = d.offset();
        let (ox, oy) = d.opposite().offset();
        assert_eq!((ox, oy), (-x, -y));
    }
    assert!(!Dir::Up.is_compass());
    assert!(Dir::Northeast.is_compass());
    assert_eq!(Dir::from_exact("out"), None);
    assert_eq!(Dir::from_abbreviation("north"), None);
}

#[test]
fn a_vertical_exit_is_never_scanned() {
    let cmd = Crossing::Command("climb up the ladder".to_owned());
    assert_eq!(direction_from_exit(ExitKind::Vertical, &cmd), None);
    assert_eq!(direction_from_exit(ExitKind::Climb, &cmd), Some(Dir::Up));
    assert_eq!(
        direction_from_exit(ExitKind::Vertical, &Crossing::Command("  D ".to_owned())),
        Some(Dir::Down)
    );
    assert_eq!(
        direction_from_exit(ExitKind::Scripted, &Crossing::Command("north".to_owned())),
        None
    );
    assert_eq!(
        direction_from_exit(ExitKind::Other, &Crossing::Routine("rift".to_owned())),
        None
    );
}

fn room(id: u32, exits: Vec<(u32, &str)>) -> Room {
    let mut r = Room::bare(RoomId(id));
    r.exits = exits
        .into_iter()
        .map(|(to, cmd)| Exit {
            to: RoomId(to),
            kind: ExitKind::Other,
            crossing: Crossing::Command(cmd.to_owned()),
        })
        .collect();
    r
}

#[test]
fn a_bare_return_exit_is_read_backwards() {
    let map = RoomMap::from_rooms(vec![
        room(1, vec![(2, "go door"), (9, "north")]),
        room(2, vec![(1, "s")]),
    ])
    .expect("distinct ids");
    let dirs = DirectionMap::build(&map);
    assert_eq!(dirs.get(RoomId(1), RoomId(2)), Some(Dir::North));
    assert_eq!(dirs.get(RoomId(2), RoomId(1)), Some(Dir::South));
    // The exit to a room outside the map is skipped.
    assert_eq!(dirs.get(RoomId(1), RoomId(9)), None);
}

#[test]
fn duplicate_ids_are_not_a_map() {
    assert!(RoomMap::from_rooms(vec![room(1, vec![]), room(1, vec![])]).is_none());
}

#[test]
fn corrections_set_both_senses_but_add_no_return() {
    let map = RoomMap::from_rooms(vec![
        room(1, vec![(2, "go door")]),
        room(2, vec![(1, "go door")]),
        room(3, vec![(1, "go arch")]),
    ])
    .expect("distinct ids");
    let mut dirs = DirectionMap::build(&map);
    assert_eq!(dirs.get(RoomId(1), RoomId(2)), None);
    dirs.apply_edge_overrides(
        &map,
        &[
            EdgeOverride { a: RoomId(1), b: RoomId(2), action: EdgeAction::Direction(Dir::East) },
            EdgeOverride { a: RoomId(1), b: RoomId(3), action: EdgeAction::Direction(Dir::North) },
        ],
    );
    assert_eq!(dirs.get(RoomId(1), RoomId(2)), Some(Dir::East));
    assert_eq!(dirs.get(RoomId(2), RoomId(1)), Some(Dir::West));
    // Room 1 has no exit to room 3: only the reverse sense is set.
    assert_eq!(dirs.get(RoomId(1), RoomId(3)), None);
    assert_eq!(dirs.get(RoomId(3), RoomId(1)), Some(Dir::South));
    dirs.apply_edge_overrides(
        &map,
        &[EdgeOverride { a: RoomId(2), b: RoomId(1), action: EdgeAction::Connector }],
    );
    assert_eq!(dirs.get(RoomId(1), RoomId(2)), None);
    assert_eq!(dirs.get(RoomId(2), RoomId(1)), None);
}
