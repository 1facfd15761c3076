use cena_map_layout::model::{Crossing, Exit, ExitKind, Room, RoomId};
use cena_map_layout::regions::{
    commonest, is_passage, is_real_room, majority, region_of, room_sense, Sense,
};

fn room_with_paths(paths: &[&str]) -> Room {
    let mut r = Room::bare(RoomId(1));
    r.paths = paths.iter().map(|p| p.to_string()).collect();
    r
}

#[test]
fn a_settlement_phrase_names_its_hub() {
    assert_eq!(
        region_of("the town of Wehnimer's Landing"),
        "Wehnimer's Landing"
    );
    assert_eq!(region_of("the city of Ta'Vaalor"), "Ta'Vaalor");
    assert_eq!(
        region_of("Kodos' Cottage, outside the frontier town of Wehnimer's Landing"),
        "Wehnimer's Landing"
    );
    assert_eq!(
        region_of("Oteska's Den, inside the island town of River's Rest"),
        "River's Rest"
    );
    assert_eq!(region_of("the free port of Solhaven"), "Solhaven");
    assert_eq!(region_of("the Temple of Love"), "the Temple of Love");
    assert_eq!(region_of("Wehnimer's Landing"), "Wehnimer's Landing");
}

#[test]
fn the_last_settlement_phrase_wins_and_case_does_not_matter() {
    assert_eq!(region_of("the Town of Icemule Trace"), "Icemule Trace");
    assert_eq!(
        region_of("the hamlet of Kraken's Fall, near the village of Zul"),
        "Zul"
    );
    assert_eq!(region_of("the town of   Solhaven  "), "Solhaven");
    assert_eq!(region_of(""), "");
}

#[test]
fn an_urchin_hideout_is_not_a_real_room() {
    let mut r = Room::bare(RoomId(3));
    assert!(is_real_room(&r));
    r.tags = vec!["shop".to_string(), "urchin-hideout".to_string()];
    assert!(!is_real_room(&r));
}

#[test]
fn only_commands_and_scripts_are_passages() {
    let exit = |crossing| Exit {
        to: RoomId(2),
        kind: ExitKind::Go,
        crossing,
    };
    assert!(is_passage(&exit(Crossing::Command("go door".to_string()))));
    assert!(is_passage(&exit(Crossing::Steps(vec![]))));
    assert!(!is_passage(&exit(Crossing::Routine("confluence".to_string()))));
    assert!(!is_passage(&exit(Crossing::PassThrough("urchin".to_string()))));
    assert!(!is_passage(&exit(Crossing::Unported("x".to_string()))));
    assert!(!is_passage(&exit(Crossing::Unknown("x".to_string()))));
}

#[test]
fn paths_lines_say_indoors_or_out() {
    assert_eq!(room_sense(&room_with_paths(&["Obvious exits: out"])), Sense::Indoor);
    assert_eq!(room_sense(&room_with_paths(&["Obvious paths: north"])), Sense::Outdoor);
    assert_eq!(
        room_sense(&room_with_paths(&["Obvious exits: out", "Obvious paths: north"])),
        Sense::Unknown
    );
    assert_eq!(room_sense(&room_with_paths(&[])), Sense::Unknown);
}

#[test]
fn the_majority_sense_wins_and_a_tie_is_unknown() {
    let sense = [Sense::Indoor, Sense::Outdoor, Sense::Outdoor, Sense::Unknown];
    assert_eq!(majority(&[0, 1, 2], &sense), Sense::Outdoor);
    assert_eq!(majority(&[0, 1], &sense), Sense::Unknown);
    assert_eq!(majority(&[0, 3], &sense), Sense::Indoor);
    assert_eq!(majority(&[], &sense), Sense::Unknown);
}

#[test]
fn the_commonest_name_wins_ties_going_first_in_text_order() {
    let names = |v: &[&str]| v.iter().map(|s| s.to_string()).collect::<Vec<String>>();
    assert_eq!(commonest(&names(&["b", "a", "b"])), Some("b".to_string()));
    assert_eq!(commonest(&names(&["b", "a"])), Some("a".to_string()));
    assert_eq!(commonest(&names(&[])), None);
}
