//! Exporting corrections for the map combiner.
//!
//! The clients that load the combined map run the layout themselves, so
//! what they need is not positions but the corrected inputs a layout is
//! derived from: the room record's `dirto` field (destination to a curated
//! direction word, which the layout already reads before the movement
//! command) and which grid each room is laid out on.
//!
//! Room references are **uids**, the game's own numbers, because the
//! combiner merges into a map whose room ids it assigns itself. A
//! correction on a room with no uid is reported as skipped, never written
//! under an id that will mean another room next build.

use vstd::prelude::*;

use crate::direction::{EdgeAction, exact_dir, name_of, offset_of, opposite_of};
use crate::keyed::{IntMap, TextMap};
use crate::model::{Room, RoomId, RoomMap, has_room, room_of};
use crate::overrides::{LocationOverrides, MapOverrides, Plate, RoomKey, key_text};
use crate::paths::{file_stem, file_stem_of, with_file_name, with_file_name_of};
use crate::text::{decimal, push_decimal, push_text};

verus! {

/// The suffix an area's interiors shelf takes as its own map slug.
pub const INTERIORS_SUFFIX: &'static str = ".interiors";

/// Why a correction on a room without a uid cannot travel.
pub const NO_UID: &'static str = "room has no uid, so it cannot be named across a map rebuild";

/// Why a correction on a room the map does not hold cannot travel.
pub const NOT_IN_MAP: &'static str = "room is not in this map";

/// What the export says produced it.
pub const GENERATOR: &'static str = "hydra-mapper 0.1.0";

pub open spec fn interiors_suffix() -> Seq<char> {
    ".interiors"@
}

/// The map slug for an area's interiors shelf.
pub fn interiors_slug(area: &str) -> (s: String)
    ensures
        s@ == area@ + interiors_suffix(),
{
    let mut s = area.to_owned();
    push_text(&mut s, ".interiors");
    s
}

/// The word a correction exports as: a bearing's name, or `cross-group`
/// for a passage, which downstream layout already knows not to position
/// by.
pub open spec fn dirto_text(action: EdgeAction) -> Seq<char> {
    match action {
        EdgeAction::Direction(d) => name_of(d),
        EdgeAction::Connector => "cross-group"@,
    }
}

/// The word the far room of a corrected edge gets: the opposite bearing,
/// or `cross-group` again.
pub open spec fn back_text(action: EdgeAction) -> Seq<char> {
    match action {
        EdgeAction::Direction(d) => name_of(opposite_of(d)),
        EdgeAction::Connector => "cross-group"@,
    }
}

/// The far room's word for a bearing reads back as the reverse bearing:
/// its step is the bearing's step negated, and it goes up or down exactly
/// when the bearing does. A passage reads as a passage from both ends.
pub proof fn lemma_back_word_reverses(a: EdgeAction)
    ensures
        a matches EdgeAction::Direction(d) ==> exact_dir(back_text(a)) matches Some(b) && offset_of(b).0
            == -offset_of(d).0 && offset_of(b).1 == -offset_of(d).1 && ((b is Up || b is Down) == (d is Up || d is Down)),
        a matches EdgeAction::Direction(d) ==> exact_dir(dirto_text(a)) == Some(d),
        a is Connector ==> back_text(a) == dirto_text(a),
{
    match a {
        EdgeAction::Direction(d) => {
            crate::direction::lemma_name_round_trip(d);
            crate::direction::lemma_name_round_trip(opposite_of(d));
        },
        EdgeAction::Connector => {},
    }
}

/// The `dirto` word for one action.
pub fn dirto_value(action: EdgeAction) -> (s: String)
    ensures
        s@ == dirto_text(action),
{
    match action {
        EdgeAction::Direction(dir) => dir.name().to_owned(),
        EdgeAction::Connector => "cross-group".to_owned(),
    }
}

fn back_value(action: EdgeAction) -> (s: String)
    ensures
        s@ == back_text(action),
{
    match action {
        EdgeAction::Direction(dir) => dir.opposite().name().to_owned(),
        EdgeAction::Connector => "cross-group".to_owned(),
    }
}

/// What the combiner is given.
pub struct Export {
    /// What produced this, so a file found later explains itself.
    pub generator: String,
    /// The map file the corrections were made against.
    pub source_map: Option<String>,
    /// `dirto` patches: room uid to destination uid to direction word.
    pub dirto: IntMap<IntMap<String>>,
    /// Room uid to map slug: the plates a person made, and every area's
    /// interiors shelf.
    pub map_membership: IntMap<String>,
    /// Map slug to display name, for the plates the membership names.
    pub maps: TextMap<String>,
    /// Room uid to the area it belongs to, for every room the export
    /// puts on a plate: a plate is a grid, not a place.
    pub area: IntMap<String>,
}

/// A correction that could not be exported, and why.
#[derive(Debug, Clone, PartialEq, Eq)]
pub struct Skipped {
    pub what: String,
    pub why: &'static str,
}

/// An export as maps of plain text, with what was skipped.
pub struct ExportView {
    pub dirto: Map<i64, Map<i64, Seq<char>>>,
    pub membership: Map<i64, Seq<char>>,
    pub maps: Map<Seq<char>, Seq<char>>,
    pub area: Map<i64, Seq<char>>,
    pub skipped: Seq<(Seq<char>, Seq<char>)>,
}

pub open spec fn texts(m: Map<i64, String>) -> Map<i64, Seq<char>> {
    m.map_values(|s: String| s@)
}

pub open spec fn nested(m: Map<i64, IntMap<String>>) -> Map<i64, Map<i64, Seq<char>>> {
    m.map_values(|inner: IntMap<String>| texts(inner@))
}

pub open spec fn skipped_view(s: Seq<Skipped>) -> Seq<(Seq<char>, Seq<char>)> {
    s.map_values(|k: Skipped| (k.what@, k.why@))
}

/// An export and its skipped list, read as plain text.
pub open spec fn view_of(e: Export, skipped: Seq<Skipped>) -> ExportView {
    ExportView {
        dirto: nested(e.dirto@),
        membership: texts(e.map_membership@),
        maps: e.maps@.map_values(|s: String| s@),
        area: texts(e.area@),
        skipped: skipped_view(skipped),
    }
}

/// Nothing exported and nothing skipped yet.
pub open spec fn empty_view() -> ExportView {
    ExportView {
        dirto: Map::empty(),
        membership: Map::empty(),
        maps: Map::empty(),
        area: Map::empty(),
        skipped: Seq::empty(),
    }
}

/// `m` with `m[a][b] = v`.
pub open spec fn put(m: Map<i64, Map<i64, Seq<char>>>, a: i64, b: i64, v: Seq<char>) -> Map<
    i64,
    Map<i64, Seq<char>>,
> {
    let inner = if m.contains_key(a) {
        m[a]
    } else {
        Map::empty()
    };
    m.insert(a, inner.insert(b, v))
}

/// A room's first uid, if it has one.
pub open spec fn first_uid(r: Room) -> Option<i64> {
    if r.uid@.len() > 0 {
        Some(r.uid@[0].0)
    } else {
        None
    }
}

/// The uid a key names a room by in a map of `rooms`: a uid key's own
/// number, or the first uid of the room an id key names.
pub open spec fn uid_of_key(rooms: Seq<Room>, k: RoomKey) -> Option<i64> {
    match k {
        RoomKey::Uid(u) => Some(u),
        RoomKey::Id(id) => match room_of(rooms, RoomId(id)) {
            Some(r) => first_uid(r),
            None => None,
        },
    }
}

/// Whether a room carries this uid among its uids.
pub open spec fn carries_uid(r: Room, u: i64) -> bool {
    exists|i: int| 0 <= i < r.uid@.len() && #[trigger] r.uid@[i].0 == u
}

/// The first room, in map order, carrying this uid.
pub open spec fn room_with_uid(rooms: Seq<Room>, u: i64) -> Option<RoomId>
    decreases rooms.len(),
{
    if rooms.len() == 0 {
        None
    } else if carries_uid(rooms[0], u) {
        Some(rooms[0].id)
    } else {
        room_with_uid(rooms.drop_first(), u)
    }
}

/// The room a key names in a map of `rooms`.
pub open spec fn room_id_of_key(rooms: Seq<Room>, k: RoomKey) -> Option<RoomId> {
    match k {
        RoomKey::Uid(u) => room_with_uid(rooms, u),
        RoomKey::Id(id) => if has_room(rooms, RoomId(id)) {
            Some(RoomId(id))
        } else {
            None
        },
    }
}

/// Whether a key names no room of the map.
pub open spec fn missing(rooms: Seq<Room>, k: RoomKey) -> bool {
    room_id_of_key(rooms, k) is None
}

/// Which of the two problems stopped a correction on `a` and `b`.
pub open spec fn reason_text(rooms: Seq<Room>, a: RoomKey, b: RoomKey) -> Seq<char> {
    if missing(rooms, a) || missing(rooms, b) {
        NOT_IN_MAP@
    } else {
        NO_UID@
    }
}

/// One edge correction, with the area it was made in.
pub type AreaEdge = (Seq<char>, (RoomKey, RoomKey), EdgeAction);

/// One area's edge corrections, in pair order.
pub open spec fn area_edges(area: Seq<char>, edges: Seq<((RoomKey, RoomKey), EdgeAction)>) -> Seq<
    AreaEdge,
> {
    edges.map_values(|e: ((RoomKey, RoomKey), EdgeAction)| (area, e.0, e.1))
}

/// Every area's edge corrections, areas in key order.
pub open spec fn all_edges(locs: Seq<(Seq<char>, LocationOverrides)>) -> Seq<AreaEdge>
    decreases locs.len(),
{
    if locs.len() == 0 {
        Seq::empty()
    } else {
        all_edges(locs.drop_last()) + area_edges(locs.last().0, locs.last().1.edges.pairs())
    }
}

/// How a skipped edge is described.
pub open spec fn edge_what(e: AreaEdge) -> Seq<char> {
    e.0 + ": edge "@ + key_text(e.1.0) + " <-> "@ + key_text(e.1.1)
}

/// One edge correction exported, both ways, or skipped.
pub open spec fn after_edge(v: ExportView, rooms: Seq<Room>, e: AreaEdge) -> ExportView {
    match (uid_of_key(rooms, e.1.0), uid_of_key(rooms, e.1.1)) {
        (Some(a), Some(b)) => ExportView {
            dirto: put(put(v.dirto, a, b, dirto_text(e.2)), b, a, back_text(e.2)),
            ..v
        },
        _ => ExportView {
            skipped: v.skipped.push((edge_what(e), reason_text(rooms, e.1.0, e.1.1))),
            ..v
        },
    }
}

pub open spec fn after_edges(v: ExportView, rooms: Seq<Room>, es: Seq<AreaEdge>) -> ExportView
    decreases es.len(),
{
    if es.len() == 0 {
        v
    } else {
        after_edge(after_edges(v, rooms, es.drop_last()), rooms, es.last())
    }
}

/// The area a room is listed under in the table, first entry first.
pub open spec fn area_lookup(table: Seq<(RoomId, String)>, id: RoomId) -> Option<Seq<char>>
    decreases table.len(),
{
    if table.len() == 0 {
        None
    } else if table[0].0 == id {
        Some(table[0].1@)
    } else {
        area_lookup(table.drop_first(), id)
    }
}

/// How a skipped plate move is described.
pub open spec fn move_what(k: RoomKey, plate: Seq<char>) -> Seq<char> {
    "plate move of "@ + key_text(k) + " to "@ + plate
}

/// One plate move exported, with the room's area, or skipped.
pub open spec fn after_move(
    v: ExportView,
    rooms: Seq<Room>,
    table: Seq<(RoomId, String)>,
    m: (RoomKey, String),
) -> ExportView {
    match uid_of_key(rooms, m.0) {
        Some(u) => {
            let area = match room_id_of_key(rooms, m.0) {
                Some(id) => match area_lookup(table, id) {
                    Some(a) => v.area.insert(u, a),
                    None => v.area,
                },
                None => v.area,
            };
            ExportView { membership: v.membership.insert(u, m.1@), area, ..v }
        },
        None => ExportView {
            skipped: v.skipped.push((move_what(m.0, m.1@), reason_text(rooms, m.0, m.0))),
            ..v
        },
    }
}

pub open spec fn after_moves(
    v: ExportView,
    rooms: Seq<Room>,
    table: Seq<(RoomId, String)>,
    ms: Seq<(RoomKey, String)>,
) -> ExportView
    decreases ms.len(),
{
    if ms.len() == 0 {
        v
    } else {
        after_move(after_moves(v, rooms, table, ms.drop_last()), rooms, table, ms.last())
    }
}

/// How a skipped interior room is described.
pub open spec fn interior_what(area: Seq<char>, id: RoomId) -> Seq<char> {
    area + ": interior room "@ + decimal(id.0 as int)
}

/// One shelved room put on its area's interiors slug, unless a plate move
/// already placed it; a room with no uid is skipped.
pub open spec fn after_interior(v: ExportView, rooms: Seq<Room>, area: Seq<char>, id: RoomId) -> ExportView {
    let uid = match room_of(rooms, id) {
        Some(r) => first_uid(r),
        None => None,
    };
    match uid {
        Some(u) => if v.membership.contains_key(u) {
            v
        } else {
            ExportView { membership: v.membership.insert(u, area + interiors_suffix()), ..v }
        },
        None => ExportView { skipped: v.skipped.push((interior_what(area, id), NO_UID@)), ..v },
    }
}

pub open spec fn after_shelf(v: ExportView, rooms: Seq<Room>, area: Seq<char>, ids: Seq<RoomId>) -> ExportView
    decreases ids.len(),
{
    if ids.len() == 0 {
        v
    } else {
        after_interior(after_shelf(v, rooms, area, ids.drop_last()), rooms, area, ids.last())
    }
}

pub open spec fn after_shelves(v: ExportView, rooms: Seq<Room>, shelves: Seq<(String, Vec<RoomId>)>) -> ExportView
    decreases shelves.len(),
{
    if shelves.len() == 0 {
        v
    } else {
        let last = shelves.last();
        after_shelf(after_shelves(v, rooms, shelves.drop_last()), rooms, last.0@, last.1@)
    }
}

/// The plates the membership names, with their display names: a plate
/// nothing is on does not travel.
pub open spec fn named_plates(membership: Map<i64, Seq<char>>, plates: Map<Seq<char>, Plate>) -> Map<
    Seq<char>,
    Seq<char>,
> {
    Map::new(
        |p: Seq<char>| membership.values().contains(p) && plates.contains_key(p),
        |p: Seq<char>| plates[p].name@,
    )
}

/// Everything the export is built from, in the order it is applied:
/// edges, then plate moves, then interiors shelves, then plate names.
pub open spec fn built(
    store: MapOverrides,
    rooms: Seq<Room>,
    shelves: Seq<(String, Vec<RoomId>)>,
    table: Seq<(RoomId, String)>,
) -> ExportView {
    let v1 = after_edges(empty_view(), rooms, all_edges(store.locations.pairs()));
    let v2 = after_moves(v1, rooms, table, store.membership_moves.pairs());
    let v3 = after_shelves(v2, rooms, shelves);
    ExportView { maps: named_plates(v3.membership, store.custom_maps@), ..v3 }
}

/// `dirto[a][b] = v`.
fn put_dirto(dirto: &mut IntMap<IntMap<String>>, a: i64, b: i64, v: String)
    ensures
        nested(final(dirto)@) == put(nested(old(dirto)@), a, b, v@),
{
    let ghost before = nested(dirto@);
    let mut inner = match dirto.remove(a) {
        Some(m) => m,
        None => IntMap::new(),
    };
    let ghost was = if before.contains_key(a) {
        before[a]
    } else {
        Map::<i64, Seq<char>>::empty()
    };
    assert(texts(inner@) == was);
    inner.insert(b, v);
    assert(texts(inner@) == was.insert(b, v@));
    dirto.insert(a, inner);
    assert(nested(dirto@) =~= put(before, a, b, v@));
}

/// The uid a key names a room by.
fn uid_of(key: RoomKey, map: &RoomMap) -> (r: Option<i64>)
    ensures
        r == uid_of_key(map@, key),
{
    match key {
        RoomKey::Uid(uid) => Some(uid),
        RoomKey::Id(id) => match map.room(RoomId(id)) {
            Some(room) => if room.uid.len() > 0 {
                Some(room.uid[0].0)
            } else {
                None
            },
            None => None,
        },
    }
}

fn carries(room: &Room, u: i64) -> (b: bool)
    ensures
        b == carries_uid(*room, u),
{
    let mut i: usize = 0;
    while i < room.uid.len()
        invariant
            i <= room.uid@.len(),
            forall|j: int| 0 <= j < i ==> #[trigger] room.uid@[j].0 != u,
        decreases room.uid.len() - i,
    {
        if room.uid[i].0 == u {
            return true;
        }
        i = i + 1;
    }
    false
}

fn with_uid(map: &RoomMap, u: i64) -> (r: Option<RoomId>)
    ensures
        r == room_with_uid(map@, u),
{
    let rooms = map.rooms();
    let mut i: usize = 0;
    assert(rooms@.skip(0) == rooms@);
    while i < rooms.len()
        invariant
            i <= rooms@.len(),
            rooms@ == map@,
            room_with_uid(map@, u) == room_with_uid(rooms@.skip(i as int), u),
        decreases rooms.len() - i,
    {
        proof {
            assert(rooms@.skip(i as int).drop_first() == rooms@.skip(i as int + 1));
        }
        if carries(&rooms[i], u) {
            return Some(rooms[i].id);
        }
        i = i + 1;
    }
    None
}

/// The room a key names in this map.
fn room_id_of(key: RoomKey, map: &RoomMap) -> (r: Option<RoomId>)
    ensures
        r == room_id_of_key(map@, key),
{
    match key {
        RoomKey::Uid(uid) => with_uid(map, uid),
        RoomKey::Id(id) => if map.contains(RoomId(id)) {
            Some(RoomId(id))
        } else {
            None
        },
    }
}

/// Which of the two problems stopped a correction being exported.
fn reason(a: RoomKey, b: RoomKey, map: &RoomMap) -> (s: &'static str)
    ensures
        s@ == reason_text(map@, a, b),
{
    if room_id_of(a, map).is_none() || room_id_of(b, map).is_none() {
        NOT_IN_MAP
    } else {
        NO_UID
    }
}

fn lookup_area(table: &[(RoomId, String)], id: RoomId) -> (r: Option<String>)
    ensures
        r matches Some(s) ==> area_lookup(table@, id) == Some(s@),
        r is None ==> area_lookup(table@, id) is None,
{
    let mut i: usize = 0;
    assert(table@.skip(0) == table@);
    while i < table.len()
        invariant
            i <= table@.len(),
            area_lookup(table@, id) == area_lookup(table@.skip(i as int), id),
        decreases table.len() - i,
    {
        proof {
            assert(table@.skip(i as int).drop_first() == table@.skip(i as int + 1));
        }
        if table[i].0.0 == id.0 {
            return Some(table[i].1.clone());
        }
        i = i + 1;
    }
    None
}

fn edge_text(area: &str, a: RoomKey, b: RoomKey) -> (s: String)
    ensures
        s@ == edge_what((area@, (a, b), EdgeAction::Connector)),
{
    let mut s = area.to_owned();
    push_text(&mut s, ": edge ");
    let at = a.to_text();
    push_text(&mut s, at.as_str());
    push_text(&mut s, " <-> ");
    let bt = b.to_text();
    push_text(&mut s, bt.as_str());
    s
}

fn move_text(key: RoomKey, plate: &str) -> (s: String)
    ensures
        s@ == move_what(key, plate@),
{
    let mut s = String::new();
    push_text(&mut s, "plate move of ");
    let kt = key.to_text();
    push_text(&mut s, kt.as_str());
    push_text(&mut s, " to ");
    push_text(&mut s, plate);
    assert(s@ =~= move_what(key, plate@));
    s
}

fn interior_text(area: &str, id: RoomId) -> (s: String)
    ensures
        s@ == interior_what(area@, id),
{
    let mut s = area.to_owned();
    push_text(&mut s, ": interior room ");
    push_decimal(&mut s, id.0 as i64);
    s
}

proof fn lemma_push_step(v: ExportView, rooms: Seq<Room>, done: Seq<AreaEdge>, e: AreaEdge)
    ensures
        after_edges(v, rooms, done.push(e)) == after_edge(after_edges(v, rooms, done), rooms, e),
{
    assert(done.push(e).drop_last() == done);
}

/// Build the export for `store` against `map`, with each area's interiors
/// shelf and a table of the area each room belongs to.
///
/// Returns the export and whatever had to be left out, in the order the
/// corrections were met.
pub fn build(
    store: &MapOverrides,
    map: &RoomMap,
    source_map: Option<String>,
    interiors: &[(String, Vec<RoomId>)],
    area_of: &[(RoomId, String)],
) -> (r: (Export, Vec<Skipped>))
    ensures
        r.0.generator@ == GENERATOR@,
        r.0.source_map == source_map,
        view_of(r.0, r.1@) == built(*store, map@, interiors@, area_of@),
{
    let ghost rooms = map@;
    let mut export = Export {
        generator: GENERATOR.to_owned(),
        source_map,
        dirto: IntMap::new(),
        map_membership: IntMap::new(),
        maps: TextMap::new(),
        area: IntMap::new(),
    };
    let mut skipped: Vec<Skipped> = Vec::new();
    assert(view_of(export, skipped@) =~= empty_view()) by {
        assert(nested(export.dirto@) =~= Map::empty());
        assert(texts(export.map_membership@) =~= Map::empty());
        assert(export.maps@.map_values(|s: String| s@) =~= Map::empty());
        assert(texts(export.area@) =~= Map::empty());
        assert(skipped_view(skipped@) =~= Seq::empty());
    }

    // Edge corrections, written both ways: `dirto` is per room, and the
    // layout reads the entry on whichever room it resolves an edge from.
    let locs = &store.locations;
    let nl = locs.len();
    let mut i: usize = 0;
    while i < nl
        invariant
            nl == locs.pairs().len(),
            i <= nl,
            rooms == map@,
            *locs == store.locations,
            export.generator@ == GENERATOR@,
            export.source_map == source_map,
            export.maps@ == Map::<Seq<char>, String>::empty(),
            export.map_membership@ == Map::<i64, String>::empty(),
            export.area@ == Map::<i64, String>::empty(),
            view_of(export, skipped@) == after_edges(empty_view(), rooms, all_edges(locs.pairs().take(i as int))),
        decreases nl - i,
    {
        let area = locs.key_at(i);
        let location = locs.value_at(i);
        let edges = &location.edges;
        let ne = edges.len();
        let ghost done = all_edges(locs.pairs().take(i as int));
        let mut j: usize = 0;
        while j < ne
            invariant
                ne == edges.pairs().len(),
                j <= ne,
                i < nl,
                nl == locs.pairs().len(),
                rooms == map@,
                *locs == store.locations,
                area@ == locs.pairs()[i as int].0,
                edges.pairs() == locs.pairs()[i as int].1.edges.pairs(),
                done == all_edges(locs.pairs().take(i as int)),
                export.generator@ == GENERATOR@,
                export.source_map == source_map,
                export.maps@ == Map::<Seq<char>, String>::empty(),
                export.map_membership@ == Map::<i64, String>::empty(),
                export.area@ == Map::<i64, String>::empty(),
                view_of(export, skipped@) == after_edges(
                    empty_view(),
                    rooms,
                    done + area_edges(area@, edges.pairs().take(j as int)),
                ),
            decreases ne - j,
        {
            let (a, b) = edges.key_at(j);
            let action = *edges.value_at(j);
            let ghost e: AreaEdge = (area@, (a, b), action);
            let ghost prev = done + area_edges(area@, edges.pairs().take(j as int));
            proof {
                assert(done + area_edges(area@, edges.pairs().take(j as int + 1)) =~= prev.push(e));
                lemma_push_step(empty_view(), rooms, prev, e);
            }
            let ghost before = view_of(export, skipped@);
            match (uid_of(a, map), uid_of(b, map)) {
                (Some(ua), Some(ub)) => {
                    put_dirto(&mut export.dirto, ua, ub, dirto_value(action));
                    put_dirto(&mut export.dirto, ub, ua, back_value(action));
                    assert(view_of(export, skipped@) =~= after_edge(before, rooms, e));
                },
                _ => {
                    let what = edge_text(area.as_str(), a, b);
                    let why = reason(a, b, map);
                    skipped.push(Skipped { what, why });
                    assert(skipped_view(skipped@) =~= before.skipped.push((edge_what(e), reason_text(rooms, a, b))));
                    assert(view_of(export, skipped@) =~= after_edge(before, rooms, e));
                },
            }
            j = j + 1;
        }
        proof {
            assert(edges.pairs().take(ne as int) == edges.pairs());
            assert(locs.pairs().take(i as int + 1).drop_last() == locs.pairs().take(i as int));
            assert(all_edges(locs.pairs().take(i as int + 1)) == done + area_edges(area@, edges.pairs()));
        }
        i = i + 1;
    }
    proof {
        assert(locs.pairs().take(nl as int) == locs.pairs());
    }
    let ghost v1 = view_of(export, skipped@);

    // Plate moves, with the area the room still belongs to: the plate
    // replaced its grid, not its place.
    let moves = &store.membership_moves;
    let nm = moves.len();
    let mut k: usize = 0;
    while k < nm
        invariant
            nm == moves.pairs().len(),
            k <= nm,
            rooms == map@,
            *moves == store.membership_moves,
            export.generator@ == GENERATOR@,
            export.source_map == source_map,
            export.maps@ == Map::<Seq<char>, String>::empty(),
            view_of(export, skipped@) == after_moves(v1, rooms, area_of@, moves.pairs().take(k as int)),
        decreases nm - k,
    {
        let key = moves.key_at(k);
        let plate = moves.value_at(k);
        let ghost m = (key, *plate);
        proof {
            assert(moves.pairs().take(k as int + 1).drop_last() == moves.pairs().take(k as int));
            assert(moves.pairs()[k as int] == m);
        }
        let ghost before = view_of(export, skipped@);
        match uid_of(key, map) {
            Some(uid) => {
                export.map_membership.insert(uid, plate.clone());
                match room_id_of(key, map) {
                    Some(id) => match lookup_area(area_of, id) {
                        Some(area) => {
                            let ghost text = area@;
                            export.area.insert(uid, area);
                            assert(texts(export.area@) =~= before.area.insert(uid, text));
                        },
                        None => {},
                    },
                    None => {},
                }
                assert(texts(export.map_membership@) =~= before.membership.insert(uid, plate@));
                assert(view_of(export, skipped@) =~= after_move(before, rooms, area_of@, m));
            },
            None => {
                let what = move_text(key, plate.as_str());
                let why = reason(key, key, map);
                skipped.push(Skipped { what, why });
                assert(skipped_view(skipped@) =~= before.skipped.push((move_what(key, plate@), reason_text(rooms, key, key))));
                assert(view_of(export, skipped@) =~= after_move(before, rooms, area_of@, m));
            },
        }
        k = k + 1;
    }
    proof {
        assert(moves.pairs().take(nm as int) == moves.pairs());
    }
    let ghost v2 = view_of(export, skipped@);

    // Every area's interiors shelf, as its own slug. A plate move wins:
    // a room deliberately put on a plate belongs there.
    let ns = interiors.len();
    let mut s: usize = 0;
    while s < ns
        invariant
            ns == interiors@.len(),
            s <= ns,
            rooms == map@,
            export.generator@ == GENERATOR@,
            export.source_map == source_map,
            export.maps@ == Map::<Seq<char>, String>::empty(),
            view_of(export, skipped@) == after_shelves(v2, rooms, interiors@.take(s as int)),
        decreases ns - s,
    {
        let area = &interiors[s].0;
        let ids = &interiors[s].1;
        let slug = interiors_slug(area.as_str());
        let ghost start = view_of(export, skipped@);
        let nr = ids.len();
        let mut t: usize = 0;
        while t < nr
            invariant
                nr == ids@.len(),
                t <= nr,
                s < ns,
                ns == interiors@.len(),
                rooms == map@,
                area == &interiors@[s as int].0,
                ids == &interiors@[s as int].1,
                slug@ == area@ + interiors_suffix(),
                export.generator@ == GENERATOR@,
                export.source_map == source_map,
                export.maps@ == Map::<Seq<char>, String>::empty(),
                view_of(export, skipped@) == after_shelf(start, rooms, area@, ids@.take(t as int)),
            decreases nr - t,
        {
            let id = ids[t];
            proof {
                assert(ids@.take(t as int + 1).drop_last() == ids@.take(t as int));
            }
            let ghost before = view_of(export, skipped@);
            let uid = match map.room(id) {
                Some(room) => if room.uid.len() > 0 {
                    Some(room.uid[0].0)
                } else {
                    None
                },
                None => None,
            };
            match uid {
                Some(u) => {
                    if !export.map_membership.contains_key(u) {
                        export.map_membership.insert(u, slug.clone());
                        assert(texts(export.map_membership@) =~= before.membership.insert(u, area@ + interiors_suffix()));
                    }
                    assert(view_of(export, skipped@) =~= after_interior(before, rooms, area@, id));
                },
                None => {
                    let what = interior_text(area.as_str(), id);
                    skipped.push(Skipped { what, why: NO_UID });
                    assert(skipped_view(skipped@) =~= before.skipped.push((interior_what(area@, id), NO_UID@)));
                    assert(view_of(export, skipped@) =~= after_interior(before, rooms, area@, id));
                },
            }
            t = t + 1;
        }
        proof {
            assert(ids@.take(nr as int) == ids@);
            assert(interiors@.take(s as int + 1).drop_last() == interiors@.take(s as int));
            assert(interiors@.take(s as int + 1).last() == interiors@[s as int]);
        }
        s = s + 1;
    }
    proof {
        assert(interiors@.take(ns as int) == interiors@);
    }
    let ghost v3 = view_of(export, skipped@);

    // Only the plates the export references, so a plate minted and left
    // empty does not travel as a map with no rooms.
    let nmem = export.map_membership.len();
    export.map_membership.facts();
    let mut p: usize = 0;
    while p < nmem
        invariant
            nmem == export.map_membership.pairs().len(),
            p <= nmem,
            view_of(export, skipped@).membership == v3.membership,
            view_of(export, skipped@).dirto == v3.dirto,
            view_of(export, skipped@).area == v3.area,
            view_of(export, skipped@).skipped == v3.skipped,
            export.generator@ == GENERATOR@,
            export.source_map == source_map,
            crate::keyed::keys_distinct(export.map_membership.pairs()),
            export.map_membership@ == crate::keyed::pairs_to_map(export.map_membership.pairs()),
            forall|q: Seq<char>| #[trigger] export.maps@.contains_key(q) ==> store.custom_maps@.contains_key(q)
                && export.maps@[q]@ == store.custom_maps@[q].name@
                && exists|j: int| 0 <= j < p && #[trigger] export.map_membership.pairs()[j].1@ == q,
            forall|j: int| 0 <= j < p && store.custom_maps@.contains_key(#[trigger] export.map_membership.pairs()[j].1@)
                ==> export.maps@.contains_key(export.map_membership.pairs()[j].1@),
        decreases nmem - p,
    {
        let plate = export.map_membership.value_at(p);
        match store.custom_maps.get(plate.as_str()) {
            Some(found) => {
                let key = plate.clone();
                let name = found.name.clone();
                export.maps.insert(key, name);
            },
            None => {},
        }
        p = p + 1;
    }
    proof {
        let mem = v3.membership;
        let want = named_plates(mem, store.custom_maps@);
        let got = export.maps@.map_values(|s: String| s@);
        let ps = export.map_membership.pairs();
        assert forall|q: Seq<char>| #[trigger] got.contains_key(q) == want.contains_key(q) by {
            if got.contains_key(q) {
                let j = choose|j: int| 0 <= j < nmem && #[trigger] ps[j].1@ == q;
                crate::keyed::lemma_pairs_index(ps, j);
                assert(mem.contains_key(ps[j].0) && mem[ps[j].0] == q);
                assert(mem.values().contains(q));
            }
            if want.contains_key(q) {
                assert(mem.values().contains(q));
                let u = choose|u: i64| #[trigger] mem.contains_key(u) && mem[u] == q;
                assert(export.map_membership@.contains_key(u));
                let j = choose|j: int| 0 <= j < ps.len() && #[trigger] ps[j].0 == u;
                crate::keyed::lemma_pairs_index(ps, j);
                assert(ps[j].1@ == q);
            }
        }
        assert(got =~= want);
    }
    (export, skipped)
}

impl Export {
    /// Whether there is anything to write.
    pub fn is_empty(&self) -> (b: bool)
        ensures
            b == (self.dirto@ == Map::<i64, IntMap<String>>::empty() && self.map_membership@ == Map::<
                i64,
                String,
            >::empty()),
    {
        self.dirto.is_empty() && self.map_membership.is_empty()
    }

    /// How many corrections this carries: every `dirto` entry, and every
    /// room given a map slug.
    pub fn len(&self) -> (n: usize)
        requires
            dirto_count(self.dirto.pairs()) + self.map_membership.pairs().len() <= usize::MAX,
        ensures
            n == dirto_count(self.dirto.pairs()) + self.map_membership.pairs().len(),
    {
        let nd = self.dirto.len();
        let mut total: usize = 0;
        let mut i: usize = 0;
        while i < nd
            invariant
                nd == self.dirto.pairs().len(),
                i <= nd,
                total == dirto_count(self.dirto.pairs().take(i as int)),
                dirto_count(self.dirto.pairs()) + self.map_membership.pairs().len() <= usize::MAX,
            decreases nd - i,
        {
            proof {
                assert(self.dirto.pairs().take(i as int + 1).drop_last() == self.dirto.pairs().take(i as int));
                lemma_dirto_count_prefix(self.dirto.pairs(), i as int + 1);
            }
            let inner = self.dirto.value_at(i);
            total = total + inner.len();
            i = i + 1;
        }
        proof {
            assert(self.dirto.pairs().take(nd as int) == self.dirto.pairs());
        }
        total + self.map_membership.len()
    }
}

/// The `dirto` entries over all rooms.
pub open spec fn dirto_count(p: Seq<(i64, IntMap<String>)>) -> nat
    decreases p.len(),
{
    if p.len() == 0 {
        0
    } else {
        dirto_count(p.drop_last()) + p.last().1.pairs().len()
    }
}

proof fn lemma_dirto_count_prefix(p: Seq<(i64, IntMap<String>)>, k: int)
    requires
        0 <= k <= p.len(),
    ensures
        dirto_count(p.take(k)) <= dirto_count(p),
    decreases p.len() - k,
{
    if k < p.len() {
        lemma_dirto_count_prefix(p, k + 1);
        assert(p.take(k + 1).drop_last() == p.take(k));
    } else {
        assert(p.take(k) == p);
    }
}

/// A correction exported for an edge reads the same bearing from both
/// ends: the far room gets the opposite of what the near one gets.
pub proof fn lemma_dirto_both_ways(v: ExportView, rooms: Seq<Room>, e: AreaEdge, a: i64, b: i64)
    requires
        uid_of_key(rooms, e.1.0) == Some(a),
        uid_of_key(rooms, e.1.1) == Some(b),
        a != b,
    ensures
        after_edge(v, rooms, e).dirto[a][b] == dirto_text(e.2),
        after_edge(v, rooms, e).dirto[b][a] == back_text(e.2),
        e.2 matches EdgeAction::Direction(d) ==> exact_dir(after_edge(v, rooms, e).dirto[a][b]) == Some(d),
        e.2 matches EdgeAction::Direction(d) ==> (exact_dir(after_edge(v, rooms, e).dirto[b][a]) matches Some(r)
            && offset_of(r).0 == -offset_of(d).0 && offset_of(r).1 == -offset_of(d).1 && ((r is Up || r is Down) == (
        d is Up || d is Down))),
{
    lemma_back_word_reverses(e.2);
}

/// Where an export is written: beside the map, named after it.
pub open spec fn export_path_of(map_path: Seq<char>) -> Seq<char> {
    with_file_name_of(map_path, file_stem_of(map_path) + ".corrections.json"@)
}

/// Where an export is written: beside the map, named after it.
pub fn export_path(map_path: &str) -> (p: String)
    ensures
        p@ == export_path_of(map_path@),
{
    let mut name = file_stem(map_path);
    push_text(&mut name, ".corrections.json");
    with_file_name(map_path, name.as_str())
}

} // verus!
