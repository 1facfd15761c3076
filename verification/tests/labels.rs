use cena_map_layout::direction::{Dir, EdgeAction};
use cena_map_layout::export::dirto_value;
use cena_map_layout::labels::{
    bearing, clean, connector_label, edge_label, escape,
    needs_fit_for, offset_phrase, walk, Crossed, Fit,
};
use cena_map_layout::areas::{Area, AreaKind};
use cena_map_layout::model::{Crossing, RoomId};

#[test]
fn an_offset_reads_in_compass_terms() {
    assert_eq!(offset_phrase(3, -2), "3 east, 2 north");
    assert_eq!(offset_phrase(-1, 4), "1 west, 4 south");
    assert_eq!(offset_phrase(0, -1), "1 north");
    assert_eq!(offset_phrase(2, 0), "2 east");
    assert_eq!(offset_phrase(0, 0), "same cell");
}

#[test]
fn only_a_switch_asks_for_a_refit() {
    assert!(needs_fit_for(Fit::Reset), "a switch should re-fit");
    assert!(!needs_fit_for(Fit::Keep), "an edit must not re-fit");
}

#[test]
fn the_trail_unwinds_rather_than_looping() {
    let (a, b, c) = (RoomId(1), RoomId(2), RoomId(3));
    let mut trail = Vec::new();

    walk(&mut trail, Some(a), b);
    assert_eq!(trail, vec![a], "did not remember where it came from");
    walk(&mut trail, Some(b), c);
    assert_eq!(trail, vec![a, b]);

    walk(&mut trail, Some(c), b);
    assert_eq!(trail, vec![a], "a revisit stacked instead of unwinding");

    walk(&mut trail, Some(b), a);
    assert!(trail.is_empty());
}

#[test]
fn the_first_room_has_no_way_back() {
    let mut trail = Vec::new();
    walk(&mut trail, None, RoomId(7));
    assert!(trail.is_empty());
}

#[test]
fn bearings_read_as_compass_points() {
    assert_eq!(bearing(0, -3), "north");
    assert_eq!(bearing(2, 0), "east");
    assert_eq!(bearing(-1, 4), "southwest");
    assert_eq!(bearing(0, 0), "the same cell");
}

#[test]
fn crossing_kinds_reduce_to_one_word() {
    assert_eq!(Crossed::of(&Crossing::Command("north".into())), Crossed::Command);
    assert_eq!(
        Crossed::of(&Crossing::Steps(vec![])),
        Crossed::Scripted,
        "a ported script is walkable, just not a plain command"
    );
    assert_eq!(
        Crossed::of(&Crossing::Unported("abc".into())),
        Crossed::Impassable,
        "an unported edge cannot be walked and should say so"
    );
    assert_eq!(Crossed::Impassable.label(), "IMPASSABLE");
    assert_eq!(Crossed::Command.label(), "");
}

#[test]
fn connector_labels() {
    assert_eq!(connector_label("go dock"), Some("dock".into()));
    assert_eq!(connector_label("climb rope ladder"), Some("rope ladder".into()));
    assert_eq!(connector_label("north"), None);
    assert_eq!(connector_label("out"), None);
    assert_eq!(connector_label("go some extremely long movement command"), None);
    assert_eq!(connector_label("   "), None);
}

#[test]
fn markup_is_escaped_and_rows_stay_rows() {
    assert_eq!(escape("Well & <Treehouse>"), "Well &amp; &lt;Treehouse&gt;");
    assert_eq!(escape("\"a\" 'b'"), "&quot;a&quot; &apos;b&apos;");
    assert_eq!(clean("a\tb\nc\rd"), "a b c d");
}

#[test]
fn edges_read_as_words() {
    assert_eq!(edge_label(None), "auto");
    assert_eq!(edge_label(Some(EdgeAction::Connector)), "passage");
    assert_eq!(edge_label(Some(EdgeAction::Direction(Dir::Southwest))), "southwest");
    assert_eq!(dirto_value(EdgeAction::Connector), "cross-group");
    assert_eq!(dirto_value(EdgeAction::Direction(Dir::East)), "east");
}

#[test]
fn lists_have_titles_and_keys() {
    assert_eq!(AreaKind::Official.title(), "Official");
    assert_eq!(AreaKind::Plates.title(), "Plates");
    let area = |kind| Area { name: "Ta'Illistim".to_owned(), kind, rooms: vec![] };
    assert_eq!(area(AreaKind::Region).store_key(), "region:Ta'Illistim");
    assert_eq!(area(AreaKind::Derived).store_key(), "derived:Ta'Illistim");
    assert_eq!(area(AreaKind::Location).store_key(), "Ta'Illistim");
}
