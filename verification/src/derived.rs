//! Areas derived from the room graph, with the map's location names as
//! labels.
//!
//! A location name is not a partition of the map: a town's streets carry
//! one label and each building on them the hub's own name, and many rooms
//! carry none. So the grouping is read off the graph, and the names only
//! say which pieces belong to the same place:
//!
//! - a **region** is the hub a location names ([`region_of`]);
//! - a **unit** is a connected run of rooms sharing one location and one
//!   sense (indoors or out);
//! - an **area** is one connected run of a region's units, plus every
//!   building, courtyard and unlabelled room that opens onto it. An
//!   indoor unit of [`ZONE_ROOMS`] or more under a name of its own is a
//!   place of its own.

use vstd::prelude::*;
use vstd::hash_map::HashMapWithView;
use vstd::multiset::Multiset;

use crate::model::{Exit, Room, RoomId, RoomMap, ids_unique, room_of};
use crate::keyed::{text_less, text_lt};
use crate::regions::{
    Sense, is_passage, is_real_room, region_of, region_text, room_sense, sense_of,
    virtual_room_tag,
};
use crate::text::{chars_of, digits, push_count, push_text, string_of, trim_chars, trimmed, same_text};
use crate::keyed::TextMap;
use crate::regions::{commonest, is_commonest};

verus! {

broadcast use vstd::std_specs::hash::group_hash_axioms;

/// An indoor unit this large is a zone -- a dungeon, a sewer, an
/// underground town -- and an area of its own.
pub const ZONE_ROOMS: usize = 50;

/// A runner-up with this share (percent) of a unit's doors, against the
/// winner's, makes the attachment contested.
pub const CONTESTED_SHARE: usize = 40;

/// An outdoor unit smaller than this is a scrap and joins whatever it
/// opens onto.
pub const TINY_ROOMS: usize = 6;

/// A room with exits into this many other regions is a transport hub,
/// and none of its exits say two places are adjacent.
pub const HUB_REGIONS: usize = 3;

// ---------------------------------------------------------------------
// Titles
// ---------------------------------------------------------------------

/// The characters of `s` before the first `c`, or all of them.
pub open spec fn upto(s: Seq<char>, c: char) -> Seq<char>
    decreases s.len(),
{
    if s.len() == 0 {
        s
    } else if s[0] == c {
        Seq::empty()
    } else {
        seq![s[0]] + upto(s.drop_first(), c)
    }
}

/// The text between a room's first title's opening `[` and its first `]`.
pub open spec fn bracketed(room: Room) -> Option<Seq<char>> {
    if room.title@.len() == 0 {
        None
    } else {
        let t = room.title@[0]@;
        if t.len() == 0 || t[0] != '[' {
            None
        } else {
            Some(upto(t.drop_first(), ']'))
        }
    }
}

/// "[Moonglae Inn, Atrium]" reads "Moonglae Inn, Atrium".
pub open spec fn title_inner_of(room: Room) -> Option<Seq<char>> {
    match bracketed(room) {
        Some(b) => if trimmed(b).len() == 0 {
            None
        } else {
            Some(trimmed(b))
        },
        None => None,
    }
}

/// "[Moonglae Inn, Atrium]" reads "Moonglae Inn".
pub open spec fn title_prefix_of(room: Room) -> Option<Seq<char>> {
    match bracketed(room) {
        Some(b) => if trimmed(upto(b, ',')).len() == 0 {
            None
        } else {
            Some(trimmed(upto(b, ',')))
        },
        None => None,
    }
}

/// The characters of `v` from `from` up to the first `c`.
fn upto_exec(v: &Vec<char>, from: usize, c: char) -> (out: Vec<char>)
    requires
        from <= v@.len(),
    ensures
        out@ == upto(v@.skip(from as int), c),
{
    let mut out: Vec<char> = Vec::new();
    let mut i: usize = from;
    while i < v.len() && v[i] != c
        invariant
            from <= i <= v@.len(),
            out@ + upto(v@.skip(i as int), c) == upto(v@.skip(from as int), c),
        decreases v.len() - i,
    {
        let ghost rest = v@.skip(i as int);
        assert(rest.drop_first() =~= v@.skip(i + 1));
        assert(out@.push(v@[i as int]) + upto(v@.skip(i + 1), c) =~= out@ + upto(rest, c));
        out.push(v[i]);
        i = i + 1;
    }
    proof {
        let rest = v@.skip(i as int);
        assert(upto(rest, c) =~= Seq::<char>::empty());
        assert(out@ + Seq::<char>::empty() =~= out@);
    }
    out
}

/// The bracketed text of a room's first title, as characters.
fn bracketed_exec(room: &Room) -> (r: Option<Vec<char>>)
    ensures
        r is None <==> bracketed(*room) is None,
        r matches Some(v) ==> bracketed(*room) == Some(v@),
{
    if room.title.len() == 0 {
        return None;
    }
    let t = chars_of(room.title[0].as_str());
    if t.len() == 0 || t[0] != '[' {
        return None;
    }
    let b = upto_exec(&t, 1, ']');
    assert(t@.skip(1) =~= t@.drop_first());
    Some(b)
}

/// "[Moonglae Inn, Atrium]" -> "Moonglae Inn, Atrium".
pub fn title_inner(room: &Room) -> (r: Option<String>)
    ensures
        r is None <==> title_inner_of(*room) is None,
        r matches Some(s) ==> title_inner_of(*room) == Some(s@),
{
    match bracketed_exec(room) {
        None => None,
        Some(b) => {
            let t = trim_chars(&b);
            if t.len() == 0 {
                None
            } else {
                Some(string_of(&t))
            }
        },
    }
}

/// "[Moonglae Inn, Atrium]" -> "Moonglae Inn".
pub fn title_prefix(room: &Room) -> (r: Option<String>)
    ensures
        r is None <==> title_prefix_of(*room) is None,
        r matches Some(s) ==> title_prefix_of(*room) == Some(s@),
{
    match bracketed_exec(room) {
        None => None,
        Some(b) => {
            let p = upto_exec(&b, 0, ',');
            assert(b@.skip(0) =~= b@);
            let t = trim_chars(&p);
            if t.len() == 0 {
                None
            } else {
                Some(string_of(&t))
            }
        },
    }
}

// ---------------------------------------------------------------------
// The real rooms, and where each id sits among them
// ---------------------------------------------------------------------

/// Whether a room is a place rather than a menu.
pub open spec fn is_place(r: Room) -> bool {
    !exists|i: int| 0 <= i < r.tags@.len() && #[trigger] r.tags@[i]@ == virtual_room_tag()
}

/// The rooms of `s` that are places, in order.
pub open spec fn real_rooms(s: Seq<Room>) -> Seq<Room>
    decreases s.len(),
{
    if s.len() == 0 {
        Seq::empty()
    } else if is_place(s.last()) {
        real_rooms(s.drop_last()).push(s.last())
    } else {
        real_rooms(s.drop_last())
    }
}

/// The rooms a list of references points at.
pub open spec fn rooms_of(v: Seq<&Room>) -> Seq<Room> {
    Seq::new(v.len(), |i: int| *v[i])
}

proof fn lemma_real_rooms_from(s: Seq<Room>)
    ensures
        forall|k: int| #![trigger real_rooms(s)[k]]
            0 <= k < real_rooms(s).len() ==> exists|j: int| 0 <= j < s.len() && s[j] == real_rooms(s)[k],
        forall|k: int| 0 <= k < real_rooms(s).len() ==> is_place(#[trigger] real_rooms(s)[k]),
    decreases s.len(),
{
    if s.len() > 0 {
        lemma_real_rooms_from(s.drop_last());
        let p = real_rooms(s.drop_last());
        assert forall|k: int| #![trigger real_rooms(s)[k]] 0 <= k < real_rooms(s).len() implies exists|j: int|
            0 <= j < s.len() && s[j] == real_rooms(s)[k] by {
            if k < p.len() {
                assert(real_rooms(s)[k] == p[k]);
                let j = choose|j: int| 0 <= j < s.drop_last().len() && s.drop_last()[j] == p[k];
                assert(s[j] == real_rooms(s)[k]);
            } else {
                assert(s[s.len() - 1] == real_rooms(s)[k]);
            }
        }
        assert forall|k: int| 0 <= k < real_rooms(s).len() implies is_place(#[trigger] real_rooms(s)[k]) by {
            if k < p.len() {
                assert(real_rooms(s)[k] == p[k]);
            }
        }
    }
}

pub proof fn lemma_real_rooms_unique(s: Seq<Room>)
    requires
        ids_unique(s),
    ensures
        ids_unique(real_rooms(s)),
    decreases s.len(),
{
    if s.len() > 0 {
        let d = s.drop_last();
        assert(ids_unique(d)) by {
            assert forall|i: int, j: int|
                0 <= i < d.len() && 0 <= j < d.len() && i != j implies #[trigger] d[i].id
                    != #[trigger] d[j].id by {
                assert(s[i].id != s[j].id);
            }
        }
        lemma_real_rooms_unique(d);
        lemma_real_rooms_from(d);
        let p = real_rooms(d);
        if is_place(s.last()) {
            let q = p.push(s.last());
            assert forall|i: int, j: int|
                0 <= i < q.len() && 0 <= j < q.len() && i != j implies #[trigger] q[i].id
                    != #[trigger] q[j].id by {
                if i < p.len() && j < p.len() {
                    assert(q[i] == p[i] && q[j] == p[j]);
                } else if i < p.len() {
                    assert(q[i] == p[i]);
                    let a = choose|a: int| 0 <= a < d.len() && d[a] == p[i];
                    assert(s[a].id != s[s.len() - 1].id);
                } else {
                    assert(q[j] == p[j]);
                    let a = choose|a: int| 0 <= a < d.len() && d[a] == p[j];
                    assert(s[a].id != s[s.len() - 1].id);
                }
            }
        }
    }
}

/// The rooms of the map that are places, in map order.
fn real_rooms_exec(map: &RoomMap) -> (v: Vec<&Room>)
    ensures
        rooms_of(v@) == real_rooms(map@),
        ids_unique(real_rooms(map@)),
{
    let rooms = map.rooms();
    let mut v: Vec<&Room> = Vec::new();
    let mut i: usize = 0;
    while i < rooms.len()
        invariant
            i <= rooms@.len(),
            rooms@ == map@,
            rooms_of(v@) == real_rooms(map@.take(i as int)),
        decreases rooms.len() - i,
    {
        let ghost t = map@.take(i + 1);
        assert(t.drop_last() =~= map@.take(i as int));
        assert(t.last() == map@[i as int]);
        if is_real_room(&rooms[i]) {
            v.push(&rooms[i]);
            assert(rooms_of(v@) =~= real_rooms(map@.take(i as int)).push(map@[i as int]));
        }
        i = i + 1;
    }
    assert(map@.take(map@.len() as int) =~= map@);
    proof {
        lemma_real_rooms_unique(map@);
    }
    v
}

/// Where each room id sits among the rooms.
fn index_of_ids(rs: &Vec<&Room>) -> (m: HashMapWithView<u32, usize>)
    requires
        ids_unique(rooms_of(rs@)),
    ensures
        forall|k: u32| #[trigger] m@.contains_key(k) ==> m@[k] < rs@.len() && rs@[m@[k] as int].id.0 == k,
        forall|i: int| 0 <= i < rs@.len() ==> #[trigger] m@.contains_key(rs@[i].id.0),
{
    let mut m: HashMapWithView<u32, usize> = HashMapWithView::new();
    let mut i: usize = 0;
    while i < rs.len()
        invariant
            i <= rs@.len(),
            forall|k: u32| #[trigger] m@.contains_key(k) ==> m@[k] < i && rs@[m@[k] as int].id.0 == k,
            forall|k: int| 0 <= k < i ==> #[trigger] m@.contains_key(rs@[k].id.0),
        decreases rs.len() - i,
    {
        m.insert(rs[i].id.0, i);
        i = i + 1;
    }
    m
}

/// The index of the room with this id, if any.
fn lookup(m: &HashMapWithView<u32, usize>, rs: &Vec<&Room>, id: RoomId) -> (r: Option<usize>)
    requires
        ids_unique(rooms_of(rs@)),
        forall|k: u32| #[trigger] m@.contains_key(k) ==> m@[k] < rs@.len() && rs@[m@[k] as int].id.0 == k,
        forall|i: int| 0 <= i < rs@.len() ==> #[trigger] m@.contains_key(rs@[i].id.0),
    ensures
        r matches Some(j) ==> j < rs@.len() && rs@[j as int].id == id,
        r is None ==> forall|j: int| 0 <= j < rs@.len() ==> #[trigger] rs@[j].id != id,
{
    match m.get(&id.0) {
        Some(j) => Some(*j),
        None => {
            assert forall|j: int| 0 <= j < rs@.len() implies #[trigger] rs@[j].id != id by {
                if rs@[j].id == id {
                    assert(m@.contains_key(rs@[j].id.0));
                }
            }
            None
        },
    }
}


// ---------------------------------------------------------------------
// Regions, hubs and adjacency
// ---------------------------------------------------------------------

/// The region a room's location names, if it has a location.
pub open spec fn region_opt(r: Room) -> Option<Seq<char>> {
    match r.location {
        Some(l) => Some(region_text(l@)),
        None => None,
    }
}

/// An optional string, by its characters.
pub open spec fn opt_view(o: Option<String>) -> Option<Seq<char>> {
    match o {
        Some(s) => Some(s@),
        None => None,
    }
}

/// Whether an exit can be walked: a plain command or a ported script.
pub open spec fn passage(x: Exit) -> bool {
    x.crossing is Command || x.crossing is Steps
}

/// Among the first `m` exits of room `i`, a passage leads to room `j`.
pub open spec fn exits_to_upto(rs: Seq<Room>, i: int, j: int, m: int) -> bool {
    exists|e: int|
        0 <= e < m && e < rs[i].exits@.len() && passage(#[trigger] rs[i].exits@[e])
            && rs[i].exits@[e].to == rs[j].id
}

/// A passage leads from room `i` to room `j`.
pub open spec fn exits_to(rs: Seq<Room>, i: int, j: int) -> bool {
    exits_to_upto(rs, i, j, rs[i].exits@.len() as int)
}

/// Among its first `m` exits, room `i` has a passage into region `g`,
/// which is not its own.
pub open spec fn foreign_upto(rs: Seq<Room>, i: int, g: Seq<char>, m: int) -> bool {
    exists|j: int|
        0 <= j < rs.len() && #[trigger] exits_to_upto(rs, i, j, m) && region_opt(rs[j]) == Some(g)
            && region_opt(rs[i]) != Some(g)
}

/// Room `i` has passages into three regions other than its own among its
/// first `m` exits.
pub open spec fn three_foreign(rs: Seq<Room>, i: int, m: int) -> bool {
    exists|a: Seq<char>, b: Seq<char>, c: Seq<char>|
        #![trigger foreign_upto(rs, i, a, m), foreign_upto(rs, i, b, m), foreign_upto(rs, i, c, m)]
        a != b && a != c && b != c && foreign_upto(rs, i, a, m) && foreign_upto(rs, i, b, m)
            && foreign_upto(rs, i, c, m)
}

/// A transport hub: a room with passages into [`HUB_REGIONS`] regions
/// other than its own.
pub open spec fn is_hub(rs: Seq<Room>, i: int) -> bool {
    three_foreign(rs, i, rs[i].exits@.len() as int)
}

/// Two rooms are adjacent: a passage leads from one to the other, and
/// the room it leaves is no hub. A one-way door still joins both ways.
pub open spec fn linked(rs: Seq<Room>, i: int, j: int) -> bool {
    i != j && ((!is_hub(rs, i) && exits_to(rs, i, j)) || (!is_hub(rs, j) && exits_to(rs, j, i)))
}

proof fn lemma_exits_upto_step(rs: Seq<Room>, i: int, j: int, m: int)
    requires
        0 <= i < rs.len(),
        0 <= m < rs[i].exits@.len(),
    ensures
        exits_to_upto(rs, i, j, m + 1) == (exits_to_upto(rs, i, j, m) || (passage(rs[i].exits@[m])
            && rs[i].exits@[m].to == rs[j].id)),
{
    if exits_to_upto(rs, i, j, m + 1) && !exits_to_upto(rs, i, j, m) {
        let e = choose|e: int|
            0 <= e < m + 1 && e < rs[i].exits@.len() && passage(#[trigger] rs[i].exits@[e])
                && rs[i].exits@[e].to == rs[j].id;
        assert(e == m);
    }
}

/// The region of each room.
fn regions_exec(rs: &Vec<&Room>) -> (out: Vec<Option<String>>)
    ensures
        out@.len() == rs@.len(),
        forall|i: int| 0 <= i < rs@.len() ==> opt_view(#[trigger] out@[i]) == region_opt(*rs@[i]),
{
    let mut out: Vec<Option<String>> = Vec::new();
    let mut i: usize = 0;
    while i < rs.len()
        invariant
            i <= rs@.len(),
            out@.len() == i,
            forall|k: int| 0 <= k < i ==> opt_view(#[trigger] out@[k]) == region_opt(*rs@[k]),
        decreases rs.len() - i,
    {
        let r = match &rs[i].location {
            Some(l) => Some(region_of(l.as_str())),
            None => None,
        };
        out.push(r);
        i = i + 1;
    }
    out
}

/// Whether some string in the list holds these characters.
fn holds_text(list: &Vec<String>, t: &str) -> (b: bool)
    ensures
        b == exists|k: int| 0 <= k < list@.len() && #[trigger] list@[k]@ == t@,
{
    let mut k: usize = 0;
    while k < list.len()
        invariant
            k <= list@.len(),
            forall|q: int| 0 <= q < k ==> #[trigger] list@[q]@ != t@,
        decreases list.len() - k,
    {
        if same_text(list[k].as_str(), t) {
            return true;
        }
        k = k + 1;
    }
    false
}

/// Whether room `i` is a transport hub.
fn hub_exec(
    rs: &Vec<&Room>,
    m: &HashMapWithView<u32, usize>,
    regions: &Vec<Option<String>>,
    i: usize,
) -> (b: bool)
    requires
        i < rs@.len(),
        ids_unique(rooms_of(rs@)),
        forall|k: u32| #[trigger] m@.contains_key(k) ==> m@[k] < rs@.len() && rs@[m@[k] as int].id.0 == k,
        forall|q: int| 0 <= q < rs@.len() ==> #[trigger] m@.contains_key(rs@[q].id.0),
        regions@.len() == rs@.len(),
        forall|q: int| 0 <= q < rs@.len() ==> opt_view(#[trigger] regions@[q]) == region_opt(*rs@[q]),
    ensures
        b == is_hub(rooms_of(rs@), i as int),
{
    let ghost r = rooms_of(rs@);
    let room = rs[i];
    assert(r[i as int] == *room);
    let mut others: Vec<String> = Vec::new();
    let mut e: usize = 0;
    while e < room.exits.len()
        invariant
            e <= room.exits@.len(),
            r == rooms_of(rs@),
            r[i as int] == *room,
            i < rs@.len(),
            ids_unique(r),
            forall|k: u32| #[trigger] m@.contains_key(k) ==> m@[k] < rs@.len() && rs@[m@[k] as int].id.0 == k,
            forall|q: int| 0 <= q < rs@.len() ==> #[trigger] m@.contains_key(rs@[q].id.0),
            regions@.len() == rs@.len(),
            forall|q: int| 0 <= q < rs@.len() ==> opt_view(#[trigger] regions@[q]) == region_opt(*rs@[q]),
            forall|k: int| 0 <= k < others@.len() ==> foreign_upto(r, i as int, #[trigger] others@[k]@, e as int),
            forall|k1: int, k2: int|
                0 <= k1 < others@.len() && 0 <= k2 < others@.len() && k1 != k2 ==> #[trigger] others@[k1]@
                    != #[trigger] others@[k2]@,
            forall|g: Seq<char>| #[trigger] foreign_upto(r, i as int, g, e as int) ==> exists|k: int|
                0 <= k < others@.len() && #[trigger] others@[k]@ == g,
        decreases room.exits.len() - e,
    {
        let x = &room.exits[e];
        let ghost before = others@;
        proof {
            assert forall|j: int| 0 <= j < r.len() implies #[trigger] exits_to_upto(r, i as int, j, e + 1)
                == (exits_to_upto(r, i as int, j, e as int) || (passage(r[i as int].exits@[e as int])
                && r[i as int].exits@[e as int].to == r[j].id)) by {
                lemma_exits_upto_step(r, i as int, j, e as int);
            }
        }
        if is_passage(x) {
            match lookup(m, rs, x.to) {
                Some(j) => {
                    assert(r[j as int] == *rs@[j as int]);
                    match &regions[j] {
                        Some(there) => {
                            let same = match &regions[i] {
                                Some(h) => same_text(h.as_str(), there.as_str()),
                                None => false,
                            };
                            if !same && !holds_text(&others, there.as_str()) {
                                others.push(there.clone());
                                proof {
                                    assert(exits_to_upto(r, i as int, j as int, e + 1));
                                    assert(foreign_upto(r, i as int, there@, e + 1));
                                }
                            }
                            proof {
                                if !same {
                                    assert(exits_to_upto(r, i as int, j as int, e + 1));
                                    assert(foreign_upto(r, i as int, there@, e + 1));
                                    assert(exists|k: int| 0 <= k < others@.len() && #[trigger] others@[k]@ == there@) by {
                                        if others@.len() > before.len() {
                                            assert(others@[before.len() as int]@ == there@);
                                        } else {
                                            let k = choose|k: int| 0 <= k < before.len() && #[trigger] before[k]@ == there@;
                                            assert(others@[k] == before[k]);
                                        }
                                    }
                                }
                            }
                        },
                        None => {},
                    }
                    proof {
                        let tj = region_opt(r[j as int]);
                        assert(tj is Some && region_opt(r[i as int]) != tj ==> exists|k: int|
                            0 <= k < others@.len() && #[trigger] others@[k]@ == tj->0);
                    }
                    proof {
                        assert forall|g: Seq<char>| #[trigger] foreign_upto(r, i as int, g, e + 1) implies exists|k: int|
                            0 <= k < others@.len() && #[trigger] others@[k]@ == g by {
                            let q = choose|q: int|
                                0 <= q < r.len() && #[trigger] exits_to_upto(r, i as int, q, e + 1)
                                    && region_opt(r[q]) == Some(g) && region_opt(r[i as int]) != Some(g);
                            if exits_to_upto(r, i as int, q, e as int) {
                                assert(foreign_upto(r, i as int, g, e as int));
                                let k = choose|k: int| 0 <= k < before.len() && #[trigger] before[k]@ == g;
                                assert(others@[k] == before[k]);
                            } else {
                                assert(r[q].id == r[j as int].id);
                                assert(q == j);
                            }
                        }
                    }
                },
                None => {
                    proof {
                        assert forall|g: Seq<char>| #[trigger] foreign_upto(r, i as int, g, e + 1) implies foreign_upto(
                            r,
                            i as int,
                            g,
                            e as int,
                        ) by {
                            let q = choose|q: int|
                                0 <= q < r.len() && #[trigger] exits_to_upto(r, i as int, q, e + 1)
                                    && region_opt(r[q]) == Some(g) && region_opt(r[i as int]) != Some(g);
                            assert(rs@[q].id != x.to);
                            assert(exits_to_upto(r, i as int, q, e as int));
                        }
                    }
                },
            }
        } else {
            proof {
                assert forall|g: Seq<char>| #[trigger] foreign_upto(r, i as int, g, e + 1) implies foreign_upto(
                    r,
                    i as int,
                    g,
                    e as int,
                ) by {
                    let q = choose|q: int|
                        0 <= q < r.len() && #[trigger] exits_to_upto(r, i as int, q, e + 1)
                            && region_opt(r[q]) == Some(g) && region_opt(r[i as int]) != Some(g);
                    assert(exits_to_upto(r, i as int, q, e as int));
                }
            }
        }
        proof {
            assert forall|k: int| 0 <= k < others@.len() implies foreign_upto(
                r,
                i as int,
                #[trigger] others@[k]@,
                e + 1,
            ) by {
                if k < before.len() {
                    assert(others@[k] == before[k]);
                    let q = choose|q: int|
                        0 <= q < r.len() && #[trigger] exits_to_upto(r, i as int, q, e as int)
                            && region_opt(r[q]) == Some(others@[k]@) && region_opt(r[i as int]) != Some(
                            others@[k]@,
                        );
                    assert(exits_to_upto(r, i as int, q, e + 1));
                }
            }
        }
        e = e + 1;
    }
    let ghost n = r[i as int].exits@.len() as int;
    if others.len() >= HUB_REGIONS {
        assert(others@[0]@ != others@[1]@ && others@[0]@ != others@[2]@ && others@[1]@ != others@[2]@);
        assert(foreign_upto(r, i as int, others@[0]@, n) && foreign_upto(r, i as int, others@[1]@, n)
            && foreign_upto(r, i as int, others@[2]@, n));
        true
    } else {
        proof {
            if three_foreign(r, i as int, n) {
                let (a, b, c) = choose|a: Seq<char>, b: Seq<char>, c: Seq<char>|
                    #![trigger foreign_upto(r, i as int, a, n), foreign_upto(r, i as int, b, n), foreign_upto(r, i as int, c, n)]
                    a != b && a != c && b != c && foreign_upto(r, i as int, a, n) && foreign_upto(
                        r,
                        i as int,
                        b,
                        n,
                    ) && foreign_upto(r, i as int, c, n);
                let ka = choose|k: int| 0 <= k < others@.len() && #[trigger] others@[k]@ == a;
                let kb = choose|k: int| 0 <= k < others@.len() && #[trigger] others@[k]@ == b;
                let kc = choose|k: int| 0 <= k < others@.len() && #[trigger] others@[k]@ == c;
                assert(ka != kb && ka != kc && kb != kc);
                assert(false);
            }
        }
        false
    }
}


/// Which rooms are hubs.
fn hubs_exec(
    rs: &Vec<&Room>,
    m: &HashMapWithView<u32, usize>,
    regions: &Vec<Option<String>>,
) -> (hub: Vec<bool>)
    requires
        ids_unique(rooms_of(rs@)),
        forall|k: u32| #[trigger] m@.contains_key(k) ==> m@[k] < rs@.len() && rs@[m@[k] as int].id.0 == k,
        forall|q: int| 0 <= q < rs@.len() ==> #[trigger] m@.contains_key(rs@[q].id.0),
        regions@.len() == rs@.len(),
        forall|q: int| 0 <= q < rs@.len() ==> opt_view(#[trigger] regions@[q]) == region_opt(*rs@[q]),
    ensures
        hub@.len() == rs@.len(),
        forall|i: int| 0 <= i < rs@.len() ==> #[trigger] hub@[i] == is_hub(rooms_of(rs@), i),
{
    let mut hub: Vec<bool> = Vec::new();
    let mut i: usize = 0;
    while i < rs.len()
        invariant
            i <= rs@.len(),
            hub@.len() == i,
            ids_unique(rooms_of(rs@)),
            forall|k: u32| #[trigger] m@.contains_key(k) ==> m@[k] < rs@.len() && rs@[m@[k] as int].id.0 == k,
            forall|q: int| 0 <= q < rs@.len() ==> #[trigger] m@.contains_key(rs@[q].id.0),
            regions@.len() == rs@.len(),
            forall|q: int| 0 <= q < rs@.len() ==> opt_view(#[trigger] regions@[q]) == region_opt(*rs@[q]),
            forall|k: int| 0 <= k < i ==> #[trigger] hub@[k] == is_hub(rooms_of(rs@), k),
        decreases rs.len() - i,
    {
        let h = hub_exec(rs, m, regions, i);
        hub.push(h);
        i = i + 1;
    }
    hub
}

/// The pair (a, b) has been recorded once rooms before `i`, and the
/// first `e` exits of room `i`, have been read.
spec fn sent(rs: Seq<Room>, a: int, b: int, i: int, e: int) -> bool {
    a != b && !is_hub(rs, a) && ((a < i && exits_to(rs, a, b)) || (a == i && exits_to_upto(rs, a, b, e)))
}

/// Appends `x` to row `at`.
fn push_at(rows: &mut Vec<Vec<usize>>, at: usize, x: usize)
    requires
        at < old(rows)@.len(),
    ensures
        final(rows)@.len() == old(rows)@.len(),
        forall|k: int| 0 <= k < old(rows)@.len() && k != at ==> final(rows)@[k] == old(rows)@[k],
        final(rows)@[at as int]@ == old(rows)@[at as int]@.push(x),
{
    rows[at].push(x);
}

/// Adjacency in both directions: a one-way door still says the two rooms
/// are one place. Only passages count, and a hub's exits never do.
fn adjacency(
    rs: &Vec<&Room>,
    m: &HashMapWithView<u32, usize>,
    hub: &Vec<bool>,
) -> (adj: Vec<Vec<usize>>)
    requires
        ids_unique(rooms_of(rs@)),
        forall|k: u32| #[trigger] m@.contains_key(k) ==> m@[k] < rs@.len() && rs@[m@[k] as int].id.0 == k,
        forall|q: int| 0 <= q < rs@.len() ==> #[trigger] m@.contains_key(rs@[q].id.0),
        hub@.len() == rs@.len(),
        forall|q: int| 0 <= q < rs@.len() ==> #[trigger] hub@[q] == is_hub(rooms_of(rs@), q),
    ensures
        adj@.len() == rs@.len(),
        forall|a: int, k: int| 0 <= a < adj@.len() && 0 <= k < adj@[a]@.len() ==> #[trigger] adj@[a]@[k] < rs@.len(),
        forall|a: int, b: int|
            0 <= a < rs@.len() && 0 <= b < rs@.len() ==> (#[trigger] adj@[a]@.contains(b as usize)
                <==> linked(rooms_of(rs@), a, b)),
{
    let ghost r = rooms_of(rs@);
    let n = rs.len();
    let mut adj: Vec<Vec<usize>> = Vec::new();
    let mut k: usize = 0;
    while k < n
        invariant
            k <= n,
            n == rs@.len(),
            adj@.len() == k,
            forall|q: int| 0 <= q < k ==> (#[trigger] adj@[q])@.len() == 0,
        decreases n - k,
    {
        adj.push(Vec::new());
        k = k + 1;
    }
    let mut i: usize = 0;
    while i < n
        invariant
            i <= n,
            n == rs@.len(),
            r == rooms_of(rs@),
            ids_unique(r),
            forall|k: u32| #[trigger] m@.contains_key(k) ==> m@[k] < rs@.len() && rs@[m@[k] as int].id.0 == k,
            forall|q: int| 0 <= q < rs@.len() ==> #[trigger] m@.contains_key(rs@[q].id.0),
            hub@.len() == n,
            forall|q: int| 0 <= q < n ==> #[trigger] hub@[q] == is_hub(r, q),
            adj@.len() == n,
            forall|a: int, k: int| 0 <= a < n && 0 <= k < adj@[a]@.len() ==> #[trigger] adj@[a]@[k] < n,
            forall|a: int, b: int|
                0 <= a < n && 0 <= b < n ==> (#[trigger] adj@[a]@.contains(b as usize) <==> (sent(
                    r,
                    a,
                    b,
                    i as int,
                    0,
                ) || sent(r, b, a, i as int, 0))),
        decreases n - i,
    {
        let room = rs[i];
        assert(r[i as int] == *room);
        if !hub[i] {
            let mut e: usize = 0;
            while e < room.exits.len()
                invariant
                    i < n,
                    n == rs@.len(),
                    r == rooms_of(rs@),
                    r[i as int] == *room,
                    !is_hub(r, i as int),
                    ids_unique(r),
                    forall|k: u32| #[trigger] m@.contains_key(k) ==> m@[k] < rs@.len() && rs@[m@[k] as int].id.0 == k,
                    forall|q: int| 0 <= q < rs@.len() ==> #[trigger] m@.contains_key(rs@[q].id.0),
                    e <= room.exits@.len(),
                    adj@.len() == n,
                    forall|a: int, k: int| 0 <= a < n && 0 <= k < adj@[a]@.len() ==> #[trigger] adj@[a]@[k] < n,
                    forall|a: int, b: int|
                        0 <= a < n && 0 <= b < n ==> (#[trigger] adj@[a]@.contains(b as usize) <==> (sent(
                            r,
                            a,
                            b,
                            i as int,
                            e as int,
                        ) || sent(r, b, a, i as int, e as int))),
                decreases room.exits.len() - e,
            {
                let x = &room.exits[e];
                let ghost before = adj@;
                proof {
                    assert forall|j: int| 0 <= j < r.len() implies #[trigger] exits_to_upto(r, i as int, j, e + 1)
                        == (exits_to_upto(r, i as int, j, e as int) || (passage(r[i as int].exits@[e as int])
                        && r[i as int].exits@[e as int].to == r[j].id)) by {
                        lemma_exits_upto_step(r, i as int, j, e as int);
                    }
                }
                let mut target: Option<usize> = None;
                if is_passage(x) {
                    target = lookup(m, rs, x.to);
                }
                match target {
                    Some(j) => {
                        assert(r[j as int] == *rs@[j as int]);
                        if j != i {
                            push_at(&mut adj, i, j);
                            push_at(&mut adj, j, i);
                            proof {
                                assert forall|a: int, b: int|
                                    0 <= a < n && 0 <= b < n implies (#[trigger] adj@[a]@.contains(b as usize)
                                    <==> (sent(r, a, b, i as int, e + 1) || sent(r, b, a, i as int, e + 1))) by {
                                    assert(sent(r, a, b, i as int, e + 1) == (sent(r, a, b, i as int, e as int)
                                        || (a == i && b == j)));
                                    assert(sent(r, b, a, i as int, e + 1) == (sent(r, b, a, i as int, e as int)
                                        || (b == i && a == j)));
                                    if a == i {
                                        assert(adj@[a]@ == before[a]@.push(j));
                                        assert(adj@[a]@.contains(b as usize) == (before[a]@.contains(b as usize) || b == j)) by {
                                            if b == j {
                                                assert(adj@[a]@[before[a]@.len() as int] == j);
                                            }
                                            if adj@[a]@.contains(b as usize) && b != j {
                                                let q = choose|q: int| 0 <= q < adj@[a]@.len() && adj@[a]@[q] == b as usize;
                                                assert(before[a]@[q] == b);
                                            }
                                            if before[a]@.contains(b as usize) {
                                                let q = choose|q: int| 0 <= q < before[a]@.len() && before[a]@[q] == b as usize;
                                                assert(adj@[a]@[q] == b);
                                            }
                                        }
                                    } else if a == j {
                                        assert(adj@[a]@ == before[a]@.push(i));
                                        assert(adj@[a]@.contains(b as usize) == (before[a]@.contains(b as usize) || b == i)) by {
                                            if b == i {
                                                assert(adj@[a]@[before[a]@.len() as int] == i);
                                            }
                                            if adj@[a]@.contains(b as usize) && b != i {
                                                let q = choose|q: int| 0 <= q < adj@[a]@.len() && adj@[a]@[q] == b as usize;
                                                assert(before[a]@[q] == b);
                                            }
                                            if before[a]@.contains(b as usize) {
                                                let q = choose|q: int| 0 <= q < before[a]@.len() && before[a]@[q] == b as usize;
                                                assert(adj@[a]@[q] == b);
                                            }
                                        }
                                    } else {
                                        assert(adj@[a] == before[a]);
                                    }
                                }
                                assert forall|a: int, k: int| 0 <= a < n && 0 <= k < adj@[a]@.len() implies #[trigger] adj@[a]@[k] < n by {
                                    if (a == i || a == j) && k < before[a]@.len() {
                                        assert(adj@[a]@[k] == before[a]@[k]);
                                    } else if a != i && a != j {
                                        assert(adj@[a] == before[a]);
                                    }
                                }
                            }
                        } else {
                            proof {
                                assert forall|a: int, b: int|
                                    0 <= a < n && 0 <= b < n implies (#[trigger] adj@[a]@.contains(b as usize)
                                    <==> (sent(r, a, b, i as int, e + 1) || sent(r, b, a, i as int, e + 1))) by {
                                    assert(sent(r, a, b, i as int, e + 1) == sent(r, a, b, i as int, e as int));
                                    assert(sent(r, b, a, i as int, e + 1) == sent(r, b, a, i as int, e as int));
                                }
                            }
                        }
                    },
                    None => {
                        proof {
                            assert forall|a: int, b: int|
                                0 <= a < n && 0 <= b < n implies (#[trigger] adj@[a]@.contains(b as usize)
                                <==> (sent(r, a, b, i as int, e + 1) || sent(r, b, a, i as int, e + 1))) by {
                                if a == i {
                                    assert(r[i as int].exits@[e as int].to != r[b].id || !passage(r[i as int].exits@[e as int])) by {
                                        if passage(*x) {
                                            assert(rs@[b].id != x.to);
                                        }
                                    }
                                }
                                if b == i {
                                    assert(r[i as int].exits@[e as int].to != r[a].id || !passage(r[i as int].exits@[e as int])) by {
                                        if passage(*x) {
                                            assert(rs@[a].id != x.to);
                                        }
                                    }
                                }
                                assert(sent(r, a, b, i as int, e + 1) == sent(r, a, b, i as int, e as int));
                                assert(sent(r, b, a, i as int, e + 1) == sent(r, b, a, i as int, e as int));
                            }
                        }
                    },
                }
                e = e + 1;
            }
            proof {
                assert forall|a: int, b: int|
                    0 <= a < n && 0 <= b < n implies (#[trigger] adj@[a]@.contains(b as usize) <==> (sent(
                    r,
                    a,
                    b,
                    i + 1,
                    0,
                ) || sent(r, b, a, i + 1, 0))) by {
                    assert(sent(r, a, b, i + 1, 0) == sent(r, a, b, i as int, e as int));
                    assert(sent(r, b, a, i + 1, 0) == sent(r, b, a, i as int, e as int));
                }
            }
        } else {
            proof {
                assert forall|a: int, b: int|
                    0 <= a < n && 0 <= b < n implies (#[trigger] adj@[a]@.contains(b as usize) <==> (sent(
                    r,
                    a,
                    b,
                    i + 1,
                    0,
                ) || sent(r, b, a, i + 1, 0))) by {
                    assert(sent(r, a, b, i + 1, 0) == sent(r, a, b, i as int, 0));
                    assert(sent(r, b, a, i + 1, 0) == sent(r, b, a, i as int, 0));
                }
            }
        }
        i = i + 1;
    }
    proof {
        assert forall|a: int, b: int|
            0 <= a < n && 0 <= b < n implies (#[trigger] adj@[a]@.contains(b as usize) <==> linked(r, a, b)) by {
            assert(sent(r, a, b, n as int, 0) == (a != b && !is_hub(r, a) && exits_to(r, a, b)));
            assert(sent(r, b, a, n as int, 0) == (a != b && !is_hub(r, b) && exits_to(r, b, a)));
        }
    }
    adj
}


// ---------------------------------------------------------------------
// Units
// ---------------------------------------------------------------------

/// A room's location, by its characters.
pub open spec fn loc_view(r: Room) -> Option<Seq<char>> {
    opt_view(r.location)
}

/// Two rooms share one location and one sense.
pub open spec fn same_kind(rs: Seq<Room>, i: int, j: int) -> bool {
    loc_view(rs[i]) == loc_view(rs[j]) && sense_of(rs[i]) == sense_of(rs[j])
}

/// Room `i` is the first with label `u`: only smaller labels come before.
pub open spec fn first_at(labels: Seq<usize>, u: int, i: int) -> bool {
    0 <= i < labels.len() && labels[i] == u && forall|k: int| 0 <= k < i ==> labels[k] < u
}

/// Label `u` has a first room before `bound`.
pub open spec fn first_before(labels: Seq<usize>, u: int, bound: int) -> bool {
    exists|i: int| i < bound && #[trigger] first_at(labels, u, i)
}

/// Labels below `count` are numbered in order of their first room: the
/// first room of label `u` has only smaller labels before it.
pub open spec fn numbered(labels: Seq<usize>, count: int) -> bool {
    forall|u: int| 0 <= u < count ==> #[trigger] first_before(labels, u, labels.len() as int)
}

/// How many entries are still unlabelled.
spec fn unlabelled(uo: Seq<usize>) -> nat
    decreases uo.len(),
{
    if uo.len() == 0 {
        0
    } else {
        unlabelled(uo.drop_last()) + if uo.last() == usize::MAX {
            1nat
        } else {
            0nat
        }
    }
}

proof fn lemma_unlabelled_label(uo: Seq<usize>, j: int, v: usize)
    requires
        0 <= j < uo.len(),
        uo[j] == usize::MAX,
        v != usize::MAX,
    ensures
        unlabelled(uo.update(j, v)) + 1 == unlabelled(uo),
    decreases uo.len(),
{
    let w = uo.update(j, v);
    if j == uo.len() - 1 {
        assert(w.drop_last() =~= uo.drop_last());
    } else {
        assert(w.drop_last() =~= uo.drop_last().update(j, v));
        lemma_unlabelled_label(uo.drop_last(), j, v);
    }
}

/// Whether two optional strings hold the same characters.
fn same_opt(a: &Option<String>, b: &Option<String>) -> (same: bool)
    ensures
        same == (opt_view(*a) == opt_view(*b)),
{
    match (a, b) {
        (Some(x), Some(y)) => same_text(x.as_str(), y.as_str()),
        (None, None) => true,
        _ => false,
    }
}

/// The unit of each room, and how many units there are: connected runs
/// of rooms sharing one location and one sense, numbered in order of
/// their first room.
fn units(rs: &Vec<&Room>, sense: &Vec<Sense>, adj: &Vec<Vec<usize>>) -> (out: (Vec<usize>, usize))
    requires
        sense@.len() == rs@.len(),
        forall|i: int| 0 <= i < rs@.len() ==> #[trigger] sense@[i] == sense_of(*rs@[i]),
        adj@.len() == rs@.len(),
        forall|a: int, k: int| 0 <= a < adj@.len() && 0 <= k < adj@[a]@.len() ==> #[trigger] adj@[a]@[k] < rs@.len(),
        forall|a: int, b: int|
            0 <= a < rs@.len() && 0 <= b < rs@.len() ==> (#[trigger] adj@[a]@.contains(b as usize)
                <==> linked(rooms_of(rs@), a, b)),
    ensures
        out.0@.len() == rs@.len(),
        out.1 <= rs@.len(),
        forall|i: int| 0 <= i < rs@.len() ==> #[trigger] out.0@[i] < out.1,
        forall|i: int, j: int|
            0 <= i < rs@.len() && 0 <= j < rs@.len() && linked(rooms_of(rs@), i, j) && same_kind(
                rooms_of(rs@),
                i,
                j,
            ) ==> #[trigger] out.0@[i] == #[trigger] out.0@[j],
        forall|i: int, j: int|
            0 <= i < rs@.len() && 0 <= j < rs@.len() && #[trigger] out.0@[i] == #[trigger] out.0@[j]
                ==> same_kind(rooms_of(rs@), i, j),
        numbered(out.0@, out.1 as int),
{
    let ghost r = rooms_of(rs@);
    let n = rs.len();
    let mut uo: Vec<usize> = Vec::new();
    let mut k: usize = 0;
    while k < n
        invariant
            k <= n,
            uo@.len() == k,
            forall|q: int| 0 <= q < k ==> #[trigger] uo@[q] == usize::MAX,
        decreases n - k,
    {
        uo.push(usize::MAX);
        k = k + 1;
    }
    let mut next: usize = 0;
    let mut start: usize = 0;
    while start < n
        invariant
            start <= n,
            n == rs@.len(),
            r == rooms_of(rs@),
            sense@.len() == n,
            forall|i: int| 0 <= i < n ==> #[trigger] sense@[i] == sense_of(r[i]),
            adj@.len() == n,
            forall|a: int, k: int| 0 <= a < n && 0 <= k < adj@[a]@.len() ==> #[trigger] adj@[a]@[k] < n,
            forall|a: int, b: int|
                0 <= a < n && 0 <= b < n ==> (#[trigger] adj@[a]@.contains(b as usize) <==> linked(r, a, b)),
            uo@.len() == n,
            next <= start,
            forall|q: int| 0 <= q < start ==> #[trigger] uo@[q] != usize::MAX,
            forall|q: int| 0 <= q < n && #[trigger] uo@[q] != usize::MAX ==> uo@[q] < next,
            forall|a: int, b: int|
                0 <= a < n && 0 <= b < n && uo@[a] != usize::MAX && #[trigger] adj@[a]@.contains(b as usize)
                    && same_kind(r, a, b) ==> uo@[b] == uo@[a],
            forall|a: int, b: int|
                0 <= a < n && 0 <= b < n && uo@[a] != usize::MAX && #[trigger] uo@[a] == #[trigger] uo@[b]
                    ==> same_kind(r, a, b),
            forall|u: int| 0 <= u < next ==> #[trigger] first_before(uo@, u, start as int),
        decreases n - start,
    {
        if uo[start] != usize::MAX {
            proof {
                assert forall|u: int| 0 <= u < next implies #[trigger] first_before(uo@, u, start + 1) by {
                    assert(first_before(uo@, u, start as int));
                    let i = choose|i: int| i < start && #[trigger] first_at(uo@, u, i);
                    assert(first_at(uo@, u, i));
                }
            }
            start = start + 1;
            continue;
        }
        let ghost prev = uo@;
        uo.set(start, next);
        let mut stack: Vec<usize> = Vec::new();
        stack.push(start);
        assert(r[start as int] == *rs@[start as int]);
        proof {
            assert(stack@[0] == start);
            assert forall|a: int, b: int|
                0 <= a < n && 0 <= b < n && uo@[a] != usize::MAX && #[trigger] adj@[a]@.contains(b as usize)
                    && same_kind(r, a, b) && !stack@.contains(a as usize) implies uo@[b] == uo@[a] by {
                assert(a != start);
                assert(prev[a] != usize::MAX);
                assert(prev[b] == prev[a]);
            }
        }
        while stack.len() > 0
            invariant
                start < n,
                n == rs@.len(),
                r == rooms_of(rs@),
                sense@.len() == n,
                forall|i: int| 0 <= i < n ==> #[trigger] sense@[i] == sense_of(r[i]),
                adj@.len() == n,
                forall|a: int, k: int| 0 <= a < n && 0 <= k < adj@[a]@.len() ==> #[trigger] adj@[a]@[k] < n,
                forall|a: int, b: int|
                    0 <= a < n && 0 <= b < n ==> (#[trigger] adj@[a]@.contains(b as usize) <==> linked(
                        r,
                        a,
                        b,
                    )),
                uo@.len() == n,
                next <= start,
                uo@[start as int] == next,
                forall|q: int| 0 <= q < start ==> #[trigger] uo@[q] == prev[q],
                forall|q: int| 0 <= q < start ==> #[trigger] prev[q] != usize::MAX,
                forall|q: int| 0 <= q < n && #[trigger] uo@[q] != usize::MAX ==> uo@[q] <= next,
                forall|q: int| 0 <= q < n && #[trigger] uo@[q] == next ==> same_kind(r, q, start as int),
                forall|q: int| 0 <= q < n && #[trigger] prev[q] != usize::MAX ==> uo@[q] == prev[q],
                forall|q: int| 0 <= q < n && #[trigger] prev[q] == usize::MAX && uo@[q] != usize::MAX ==> uo@[q] == next,
                forall|q: int| 0 <= q < stack@.len() ==> #[trigger] stack@[q] < n && uo@[stack@[q] as int] == next,
                forall|q1: int, q2: int|
                    0 <= q1 < stack@.len() && 0 <= q2 < stack@.len() && q1 != q2 ==> #[trigger] stack@[q1]
                        != #[trigger] stack@[q2],
                forall|a: int, b: int|
                    0 <= a < n && 0 <= b < n && uo@[a] != usize::MAX && #[trigger] adj@[a]@.contains(b as usize)
                        && same_kind(r, a, b) && !stack@.contains(a as usize) ==> uo@[b] == uo@[a],
                forall|a: int, b: int|
                    0 <= a < n && 0 <= b < n && uo@[a] != usize::MAX && #[trigger] uo@[a] == #[trigger] uo@[b]
                        ==> same_kind(r, a, b),
            decreases unlabelled(uo@), stack@.len(),
        {
            let ghost st0 = stack@;
            let ghost uo0 = uo@;
            let i = stack.pop().unwrap();
            assert(r[i as int] == *rs@[i as int]);
            assert(!stack@.contains(i)) by {
                if stack@.contains(i) {
                    let q = choose|q: int| 0 <= q < stack@.len() && stack@[q] == i;
                    assert(st0[q] == i);
                }
            }
            let ghost popped = stack@;
            assert(st0 =~= popped.push(i));
            let row = &adj[i];
            let mut t: usize = 0;
            while t < row.len()
                invariant
                    start < n,
                    n == rs@.len(),
                    r == rooms_of(rs@),
                    i < n,
                    r[i as int] == *rs@[i as int],
                    row@ == adj@[i as int]@,
                    sense@.len() == n,
                    forall|i: int| 0 <= i < n ==> #[trigger] sense@[i] == sense_of(r[i]),
                    adj@.len() == n,
                    forall|a: int, k: int| 0 <= a < n && 0 <= k < adj@[a]@.len() ==> #[trigger] adj@[a]@[k] < n,
                    forall|a: int, b: int|
                        0 <= a < n && 0 <= b < n ==> (#[trigger] adj@[a]@.contains(b as usize) <==> linked(
                            r,
                            a,
                            b,
                        )),
                    t <= row@.len(),
                    uo@.len() == n,
                    next <= start,
                    uo@[start as int] == next,
                    uo@[i as int] == next,
                    !stack@.contains(i),
                    unlabelled(uo@) + stack@.len() <= unlabelled(uo0) + popped.len(),
                    unlabelled(uo@) <= unlabelled(uo0),
                    popped.len() + 1 == st0.len(),
                    forall|q: int| 0 <= q < start ==> #[trigger] uo@[q] == prev[q],
                    forall|q: int| 0 <= q < start ==> #[trigger] prev[q] != usize::MAX,
                    forall|q: int| 0 <= q < n && #[trigger] uo@[q] != usize::MAX ==> uo@[q] <= next,
                    forall|q: int| 0 <= q < n && #[trigger] uo@[q] == next ==> same_kind(r, q, start as int),
                    forall|q: int| 0 <= q < n && #[trigger] prev[q] != usize::MAX ==> uo@[q] == prev[q],
                    forall|q: int| 0 <= q < n && #[trigger] prev[q] == usize::MAX && uo@[q] != usize::MAX ==> uo@[q] == next,
                    forall|q: int| 0 <= q < stack@.len() ==> #[trigger] stack@[q] < n && uo@[stack@[q] as int] == next,
                    forall|q1: int, q2: int|
                        0 <= q1 < stack@.len() && 0 <= q2 < stack@.len() && q1 != q2 ==> #[trigger] stack@[q1]
                            != #[trigger] stack@[q2],
                    forall|a: int, b: int|
                        0 <= a < n && 0 <= b < n && a != i && uo@[a] != usize::MAX && #[trigger] adj@[a]@.contains(
                            b as usize,
                        ) && same_kind(r, a, b) && !stack@.contains(a as usize) ==> uo@[b] == uo@[a],
                    forall|q: int| 0 <= q < t && same_kind(r, i as int, #[trigger] row@[q] as int) ==> uo@[row@[q] as int] == next,
                    forall|a: int, b: int|
                        0 <= a < n && 0 <= b < n && uo@[a] != usize::MAX && #[trigger] uo@[a] == #[trigger] uo@[b]
                            ==> same_kind(r, a, b),
                decreases row.len() - t,
            {
                let j = row[t];
                assert(adj@[i as int]@[t as int] == j);
                assert(r[j as int] == *rs@[j as int]);
                if uo[j] == usize::MAX && same_opt(&rs[j].location, &rs[i].location) && sense[j] == sense[i] {
                    let ghost before = uo@;
                    let ghost stk_before = stack@;
                    uo.set(j, next);
                    proof {
                        lemma_unlabelled_label(before, j as int, next);
                    }
                    stack.push(j);
                    proof {
                        assert(stack@[stack@.len() - 1] == j);
                        assert(stack@.contains(j));
                        assert forall|q1: int, q2: int|
                            0 <= q1 < stack@.len() && 0 <= q2 < stack@.len() && q1 != q2 implies #[trigger] stack@[q1]
                                != #[trigger] stack@[q2] by {
                            if q1 == stack@.len() - 1 {
                                assert(uo@[stack@[q2] as int] == next);
                            }
                            if q2 == stack@.len() - 1 {
                                assert(uo@[stack@[q1] as int] == next);
                            }
                        }
                        assert forall|a: int, b: int|
                            0 <= a < n && 0 <= b < n && a != i && uo@[a] != usize::MAX && #[trigger] adj@[a]@.contains(
                                b as usize,
                            ) && same_kind(r, a, b) && !stack@.contains(a as usize) implies uo@[b] == uo@[a] by {
                            assert(a != j);
                            assert(!stk_before.contains(a as usize)) by {
                                if stk_before.contains(a as usize) {
                                    let q = choose|q: int| 0 <= q < stk_before.len() && stk_before[q] == a as usize;
                                    assert(stack@[q] == a as usize);
                                }
                            }
                            assert(before[a] != usize::MAX);
                            assert(before[b] == before[a]);
                        }
                    }
                } else {
                    proof {
                        if same_kind(r, i as int, j as int) && uo@[j as int] != usize::MAX && !stack@.contains(j) {
                            assert(adj@[i as int]@.contains((j as int) as usize)) by {
                                assert(adj@[i as int]@[t as int] == j);
                            }
                            assert(linked(r, i as int, j as int));
                            assert(linked(r, j as int, i as int));
                            assert(adj@[j as int]@.contains((i as int) as usize));
                            if j != i {
                                assert(uo@[i as int] == uo@[j as int]);
                            }
                        }
                    }
                }
                t = t + 1;
            }
            proof {
                assert forall|a: int, b: int|
                    0 <= a < n && 0 <= b < n && uo@[a] != usize::MAX && #[trigger] adj@[a]@.contains(b as usize)
                        && same_kind(r, a, b) && !stack@.contains(a as usize) implies uo@[b] == uo@[a] by {
                    if a == i {
                        let q = choose|q: int| 0 <= q < row@.len() && row@[q] == b as usize;
                        assert(same_kind(r, i as int, row@[q] as int));
                    }
                }
            }
        }
        proof {
            assert forall|u: int| 0 <= u < next + 1 implies #[trigger] first_before(uo@, u, start + 1) by {
                if u == next {
                    assert forall|k: int| 0 <= k < start implies uo@[k] < u by {
                        assert(prev[k] != usize::MAX);
                    }
                    assert(first_at(uo@, u, start as int));
                } else {
                    assert(first_before(prev, u, start as int));
                    let i = choose|i: int| i < start && #[trigger] first_at(prev, u, i);
                    assert forall|k: int| 0 <= k < i implies uo@[k] < u by {
                        assert(uo@[k] == prev[k]);
                    }
                    assert(first_at(uo@, u, i));
                }
            }
        }
        next = next + 1;
        start = start + 1;
    }
    proof {
        assert forall|i: int, j: int|
            0 <= i < n && 0 <= j < n && linked(r, i, j) && same_kind(r, i, j) implies #[trigger] uo@[i]
            == #[trigger] uo@[j] by {
            assert(adj@[i]@.contains(j as usize));
        }
        assert forall|u: int| 0 <= u < next implies #[trigger] first_before(uo@, u, uo@.len() as int) by {
            assert(first_before(uo@, u, start as int));
        }
    }
    (uo, next)
}


// ---------------------------------------------------------------------
// The rooms of each unit, and what the unit is
// ---------------------------------------------------------------------

/// The rooms among the first `m` labelled `u`, in order.
pub open spec fn members_upto(labels: Seq<usize>, u: int, m: int) -> Seq<usize>
    decreases m,
{
    if m <= 0 {
        Seq::empty()
    } else if labels[m - 1] == u {
        members_upto(labels, u, m - 1).push((m - 1) as usize)
    } else {
        members_upto(labels, u, m - 1)
    }
}

/// The rooms labelled `u`, in order.
pub open spec fn members_of(labels: Seq<usize>, u: int) -> Seq<usize> {
    members_upto(labels, u, labels.len() as int)
}

proof fn lemma_members_upto(labels: Seq<usize>, u: int, m: int)
    requires
        0 <= m <= labels.len(),
        labels.len() <= usize::MAX,
    ensures
        forall|k: int|
            0 <= k < members_upto(labels, u, m).len() ==> #[trigger] members_upto(labels, u, m)[k] < m
                && labels[members_upto(labels, u, m)[k] as int] == u,
        forall|i: int| 0 <= i < m && labels[i] == u ==> #[trigger] members_upto(labels, u, m).contains(i as usize),
        forall|a: int, b: int|
            0 <= a < b < members_upto(labels, u, m).len() ==> #[trigger] members_upto(labels, u, m)[a]
                < #[trigger] members_upto(labels, u, m)[b],
    decreases m,
{
    if m > 0 {
        lemma_members_upto(labels, u, m - 1);
        let p = members_upto(labels, u, m - 1);
        if labels[m - 1] == u {
            let q = p.push((m - 1) as usize);
            assert forall|i: int| 0 <= i < m && labels[i] == u implies #[trigger] q.contains(i as usize) by {
                if i == m - 1 {
                    assert(q[p.len() as int] == i as usize);
                } else {
                    assert(p.contains(i as usize));
                    let k = choose|k: int| 0 <= k < p.len() && p[k] == i as usize;
                    assert(q[k] == i as usize);
                }
            }
            assert forall|k: int| 0 <= k < q.len() implies #[trigger] q[k] < m && labels[q[k] as int] == u by {
                if k < p.len() {
                    assert(q[k] == p[k]);
                }
            }
            assert forall|a: int, b: int| 0 <= a < b < q.len() implies #[trigger] q[a] < #[trigger] q[b] by {
                if b < p.len() {
                    assert(q[a] == p[a] && q[b] == p[b]);
                } else {
                    assert(q[a] == p[a]);
                    assert(p[a] < m - 1);
                }
            }
        }
    }
}

/// The rooms of each unit, in order.
fn members_exec(uo: &Vec<usize>, count: usize) -> (members: Vec<Vec<usize>>)
    requires
        forall|i: int| 0 <= i < uo@.len() ==> #[trigger] uo@[i] < count,
    ensures
        members@.len() == count,
        forall|u: int| 0 <= u < count ==> (#[trigger] members@[u])@ == members_of(uo@, u),
{
    let mut members: Vec<Vec<usize>> = Vec::new();
    let mut u: usize = 0;
    while u < count
        invariant
            u <= count,
            members@.len() == u,
            forall|q: int| 0 <= q < u ==> (#[trigger] members@[q])@ == members_upto(uo@, q, 0),
        decreases count - u,
    {
        members.push(Vec::new());
        u = u + 1;
    }
    let mut i: usize = 0;
    while i < uo.len()
        invariant
            i <= uo@.len(),
            forall|q: int| 0 <= q < uo@.len() ==> #[trigger] uo@[q] < count,
            members@.len() == count,
            forall|q: int| 0 <= q < count ==> (#[trigger] members@[q])@ == members_upto(uo@, q, i as int),
        decreases uo.len() - i,
    {
        let ghost before = members@;
        push_at(&mut members, uo[i], i);
        proof {
            assert forall|q: int| 0 <= q < count implies (#[trigger] members@[q])@ == members_upto(
                uo@,
                q,
                i + 1,
            ) by {
                if q != uo@[i as int] {
                    assert(members@[q] == before[q]);
                }
            }
        }
        i = i + 1;
    }
    members
}

/// The sense of each unit: the one most of its rooms share.
fn unit_senses(members: &Vec<Vec<usize>>, sense: &Vec<Sense>) -> (out: Vec<Sense>)
    requires
        forall|u: int, k: int|
            0 <= u < members@.len() && 0 <= k < members@[u]@.len() ==> #[trigger] members@[u]@[k]
                < sense@.len(),
    ensures
        out@.len() == members@.len(),
        forall|u: int| 0 <= u < members@.len() ==> #[trigger] out@[u] == crate::regions::majority_of(
            members@[u]@,
            sense@,
        ),
{
    let mut out: Vec<Sense> = Vec::new();
    let mut u: usize = 0;
    while u < members.len()
        invariant
            u <= members@.len(),
            out@.len() == u,
            forall|v: int, k: int|
                0 <= v < members@.len() && 0 <= k < members@[v]@.len() ==> #[trigger] members@[v]@[k]
                    < sense@.len(),
            forall|v: int| 0 <= v < u ==> #[trigger] out@[v] == crate::regions::majority_of(
                members@[v]@,
                sense@,
            ),
        decreases members.len() - u,
    {
        let m = crate::regions::majority(members[u].as_slice(), sense.as_slice());
        out.push(m);
        u = u + 1;
    }
    out
}

/// The region of each unit: the one its first room's location names.
fn unit_regions(members: &Vec<Vec<usize>>, regions: &Vec<Option<String>>) -> (out: Vec<Option<String>>)
    requires
        forall|u: int| 0 <= u < members@.len() ==> (#[trigger] members@[u])@.len() > 0,
        forall|u: int, k: int|
            0 <= u < members@.len() && 0 <= k < members@[u]@.len() ==> #[trigger] members@[u]@[k]
                < regions@.len(),
    ensures
        out@.len() == members@.len(),
        forall|u: int| 0 <= u < members@.len() ==> opt_view(#[trigger] out@[u]) == opt_view(
            regions@[members@[u]@[0] as int],
        ),
{
    let mut out: Vec<Option<String>> = Vec::new();
    let mut u: usize = 0;
    while u < members.len()
        invariant
            u <= members@.len(),
            out@.len() == u,
            forall|v: int| 0 <= v < members@.len() ==> (#[trigger] members@[v])@.len() > 0,
            forall|v: int, k: int|
                0 <= v < members@.len() && 0 <= k < members@[v]@.len() ==> #[trigger] members@[v]@[k]
                    < regions@.len(),
            forall|v: int| 0 <= v < u ==> opt_view(#[trigger] out@[v]) == opt_view(
                regions@[members@[v]@[0] as int],
            ),
        decreases members.len() - u,
    {
        let first = members[u][0];
        let r = match &regions[first] {
            Some(s) => Some(s.clone()),
            None => None,
        };
        out.push(r);
        u = u + 1;
    }
    out
}


proof fn lemma_first_member(labels: Seq<usize>, u: int, i: int)
    requires
        first_at(labels, u, i),
        labels.len() <= usize::MAX,
    ensures
        members_of(labels, u).len() > 0,
        members_of(labels, u)[0] == i,
{
    lemma_members_upto(labels, u, labels.len() as int);
    let ms = members_of(labels, u);
    assert(ms.contains(i as usize));
    let k = choose|k: int| 0 <= k < ms.len() && ms[k] == i as usize;
    if k > 0 {
        assert(ms[0] < ms[k]);
        assert(labels[ms[0] as int] == u);
        assert(labels[ms[0] as int] < u);
    }
}

// ---------------------------------------------------------------------
// Sets of units
// ---------------------------------------------------------------------

/// Each unit names the representative of its set, and a representative
/// names itself.
pub open spec fn reps(set: Seq<usize>) -> bool {
    forall|u: int| 0 <= u < set.len() ==> #[trigger] set[u] < set.len() && set[set[u] as int] == set[u]
}

/// Units together before stay together after.
pub open spec fn coarser(before: Seq<usize>, after: Seq<usize>) -> bool {
    forall|a: int, b: int|
        0 <= a < before.len() && 0 <= b < before.len() && #[trigger] before[a] == #[trigger] before[b]
            ==> after[a] == after[b]
}

/// Moves every unit of set `from` into set `to`.
fn relabel(set: &mut Vec<usize>, from: usize, to: usize)
    requires
        reps(old(set)@),
        from < old(set)@.len(),
        to < old(set)@.len(),
        old(set)@[from as int] == from,
        old(set)@[to as int] == to,
    ensures
        final(set)@.len() == old(set)@.len(),
        forall|w: int| 0 <= w < old(set)@.len() ==> #[trigger] final(set)@[w] == if old(set)@[w] == from {
            to
        } else {
            old(set)@[w]
        },
        reps(final(set)@),
        coarser(old(set)@, final(set)@),
{
    let ghost start = set@;
    let mut w: usize = 0;
    while w < set.len()
        invariant
            w <= set@.len(),
            set@.len() == start.len(),
            reps(start),
            from < start.len(),
            to < start.len(),
            start[from as int] == from,
            start[to as int] == to,
            forall|q: int| 0 <= q < w ==> #[trigger] set@[q] == if start[q] == from {
                to
            } else {
                start[q]
            },
            forall|q: int| w <= q < start.len() ==> #[trigger] set@[q] == start[q],
        decreases set.len() - w,
    {
        if set[w] == from {
            set.set(w, to);
        }
        w = w + 1;
    }
    proof {
        assert forall|u: int| 0 <= u < set@.len() implies #[trigger] set@[u] < set@.len() && set@[set@[u] as int]
            == set@[u] by {
            if start[u] == from {
                assert(set@[to as int] == to);
            } else {
                assert(start[start[u] as int] == start[u]);
                assert(start[u] != from);
            }
        }
    }
}

/// Joins the sets of units `a` and `b`; the smaller representative
/// stays.
pub(crate) fn join_sets(set: &mut Vec<usize>, a: usize, b: usize)
    requires
        reps(old(set)@),
        a < old(set)@.len(),
        b < old(set)@.len(),
    ensures
        final(set)@.len() == old(set)@.len(),
        reps(final(set)@),
        coarser(old(set)@, final(set)@),
        final(set)@[a as int] == final(set)@[b as int],
        forall|w: int|
            0 <= w < old(set)@.len() ==> #[trigger] final(set)@[w] == old(set)@[w] || (final(set)@[w] < old(set)@[w]
                && (final(set)@[w] == old(set)@[a as int] || final(set)@[w] == old(set)@[b as int])),
        forall|x: int, y: int|
            0 <= x < old(set)@.len() && 0 <= y < old(set)@.len() && #[trigger] final(set)@[x]
                == #[trigger] final(set)@[y] ==> old(set)@[x] == old(set)@[y] || (old(set)@[x] == old(
                set,
            )@[a as int] && old(set)@[y] == old(set)@[b as int]) || (old(set)@[x] == old(set)@[b as int]
                && old(set)@[y] == old(set)@[a as int]),
{
    let ra = set[a];
    let rb = set[b];
    if ra != rb {
        if ra < rb {
            relabel(set, rb, ra);
        } else {
            relabel(set, ra, rb);
        }
    }
}

/// Adjacent units of one region are one place, indoors or out: the
/// town's streets, and the hall two of them connect through. Only
/// adjacency within the region counts.
fn merge_regions(
    set: &mut Vec<usize>,
    members: &Vec<Vec<usize>>,
    uo: &Vec<usize>,
    adj: &Vec<Vec<usize>>,
    uregion: &Vec<Option<String>>,
)
    requires
        reps(old(set)@),
        old(set)@.len() == members@.len(),
        uregion@.len() == members@.len(),
        adj@.len() == uo@.len(),
        uo@.len() <= usize::MAX,
        forall|i: int| 0 <= i < uo@.len() ==> #[trigger] uo@[i] < members@.len(),
        forall|u: int| 0 <= u < members@.len() ==> (#[trigger] members@[u])@ == members_of(uo@, u),
        forall|a: int, k: int| 0 <= a < adj@.len() && 0 <= k < adj@[a]@.len() ==> #[trigger] adj@[a]@[k] < uo@.len(),
    ensures
        final(set)@.len() == old(set)@.len(),
        reps(final(set)@),
        coarser(old(set)@, final(set)@),
        forall|i: int, j: int|
            0 <= i < uo@.len() && 0 <= j < uo@.len() && #[trigger] adj@[i]@.contains(j as usize)
                && uregion@[uo@[i] as int] is Some && opt_view(uregion@[uo@[i] as int]) == opt_view(
                uregion@[uo@[j] as int],
            ) ==> final(set)@[uo@[i] as int] == final(set)@[uo@[j] as int],
{
    let ghost start = set@;
    let count = members.len();
    let mut u: usize = 0;
    while u < count
        invariant
            u <= count,
            count == members@.len(),
            set@.len() == count,
            reps(set@),
            coarser(start, set@),
            start.len() == count,
            uregion@.len() == count,
            adj@.len() == uo@.len(),
            uo@.len() <= usize::MAX,
            forall|i: int| 0 <= i < uo@.len() ==> #[trigger] uo@[i] < count,
            forall|v: int| 0 <= v < count ==> (#[trigger] members@[v])@ == members_of(uo@, v),
            forall|a: int, k: int| 0 <= a < adj@.len() && 0 <= k < adj@[a]@.len() ==> #[trigger] adj@[a]@[k] < uo@.len(),
            forall|i: int, j: int|
                0 <= i < uo@.len() && 0 <= j < uo@.len() && uo@[i] < u && #[trigger] adj@[i]@.contains(j as usize)
                    && uregion@[uo@[i] as int] is Some && opt_view(uregion@[uo@[i] as int]) == opt_view(
                    uregion@[uo@[j] as int],
                ) ==> set@[uo@[i] as int] == set@[uo@[j] as int],
        decreases count - u,
    {
        if uregion[u].is_some() {
            let ms = &members[u];
            proof {
                lemma_members_upto(uo@, u as int, uo@.len() as int);
            }
            let mut k: usize = 0;
            while k < ms.len()
                invariant
                    u < count,
                    count == members@.len(),
                    ms@ == members_of(uo@, u as int),
                    k <= ms@.len(),
                    set@.len() == count,
                    reps(set@),
                    coarser(start, set@),
                    start.len() == count,
                    uregion@.len() == count,
                    uregion@[u as int] is Some,
                    adj@.len() == uo@.len(),
                    uo@.len() <= usize::MAX,
                    forall|i: int| 0 <= i < uo@.len() ==> #[trigger] uo@[i] < count,
                    forall|q: int|
                        0 <= q < ms@.len() ==> #[trigger] ms@[q] < uo@.len() && uo@[ms@[q] as int] == u,
                    forall|a: int, k: int| 0 <= a < adj@.len() && 0 <= k < adj@[a]@.len() ==> #[trigger] adj@[a]@[k] < uo@.len(),
                    forall|i: int, j: int|
                        0 <= i < uo@.len() && 0 <= j < uo@.len() && (uo@[i] < u || (uo@[i] == u
                            && exists|q: int| 0 <= q < k && ms@[q] == i)) && #[trigger] adj@[i]@.contains(
                            j as usize,
                        ) && uregion@[uo@[i] as int] is Some && opt_view(uregion@[uo@[i] as int])
                            == opt_view(uregion@[uo@[j] as int]) ==> set@[uo@[i] as int] == set@[uo@[j] as int],
                decreases ms.len() - k,
            {
                let i = ms[k];
                let row = &adj[i];
                let mut t: usize = 0;
                while t < row.len()
                    invariant
                        u < count,
                        count == members@.len(),
                        ms@ == members_of(uo@, u as int),
                        k < ms@.len(),
                        i == ms@[k as int],
                        i < uo@.len(),
                        uo@[i as int] == u,
                        row@ == adj@[i as int]@,
                        t <= row@.len(),
                        set@.len() == count,
                        reps(set@),
                        coarser(start, set@),
                        start.len() == count,
                        uregion@.len() == count,
                        uregion@[u as int] is Some,
                        adj@.len() == uo@.len(),
                        uo@.len() <= usize::MAX,
                        forall|i: int| 0 <= i < uo@.len() ==> #[trigger] uo@[i] < count,
                        forall|q: int|
                            0 <= q < ms@.len() ==> #[trigger] ms@[q] < uo@.len() && uo@[ms@[q] as int] == u,
                        forall|a: int, k: int| 0 <= a < adj@.len() && 0 <= k < adj@[a]@.len() ==> #[trigger] adj@[a]@[k] < uo@.len(),
                        forall|i: int, j: int|
                            0 <= i < uo@.len() && 0 <= j < uo@.len() && (uo@[i] < u || (uo@[i] == u
                                && exists|q: int| 0 <= q < k && ms@[q] == i)) && #[trigger] adj@[i]@.contains(
                                j as usize,
                            ) && uregion@[uo@[i] as int] is Some && opt_view(uregion@[uo@[i] as int])
                                == opt_view(uregion@[uo@[j] as int]) ==> set@[uo@[i] as int] == set@[uo@[j] as int],
                        forall|q: int|
                            0 <= q < t && opt_view(uregion@[u as int]) == opt_view(
                                uregion@[uo@[#[trigger] row@[q] as int] as int],
                            ) ==> set@[u as int] == set@[uo@[row@[q] as int] as int],
                    decreases row.len() - t,
                {
                    let j = row[t];
                    assert(adj@[i as int]@[t as int] == j);
                    let v = uo[j];
                    let ghost before = set@;
                    if v != u && same_opt(&uregion[v], &uregion[u]) {
                        join_sets(set, u, v);
                    }
                    proof {
                        assert forall|q: int|
                            0 <= q < t + 1 && opt_view(uregion@[u as int]) == opt_view(
                                uregion@[uo@[#[trigger] row@[q] as int] as int],
                            ) implies set@[u as int] == set@[uo@[row@[q] as int] as int] by {
                            if q < t {
                                assert(before[u as int] == before[uo@[row@[q] as int] as int]);
                            }
                        }
                    }
                    t = t + 1;
                }
                proof {
                    assert forall|a: int, b: int|
                        0 <= a < uo@.len() && 0 <= b < uo@.len() && (uo@[a] < u || (uo@[a] == u
                            && exists|q: int| 0 <= q < k + 1 && ms@[q] == a)) && #[trigger] adj@[a]@.contains(
                            b as usize,
                        ) && uregion@[uo@[a] as int] is Some && opt_view(uregion@[uo@[a] as int])
                            == opt_view(uregion@[uo@[b] as int]) implies set@[uo@[a] as int] == set@[uo@[b] as int] by {
                        if uo@[a] == u && a == i {
                            let q = choose|q: int| 0 <= q < row@.len() && row@[q] == b as usize;
                            assert(opt_view(uregion@[u as int]) == opt_view(uregion@[uo@[row@[q] as int] as int]));
                        } else if uo@[a] == u {
                            let q = choose|q: int| 0 <= q < k + 1 && ms@[q] == a;
                            if q == k {
                                assert(a == i);
                            }
                        }
                    }
                }
                k = k + 1;
            }
            proof {
                assert forall|a: int, b: int|
                    0 <= a < uo@.len() && 0 <= b < uo@.len() && uo@[a] < u + 1 && #[trigger] adj@[a]@.contains(
                        b as usize,
                    ) && uregion@[uo@[a] as int] is Some && opt_view(uregion@[uo@[a] as int]) == opt_view(
                        uregion@[uo@[b] as int],
                    ) implies set@[uo@[a] as int] == set@[uo@[b] as int] by {
                    if uo@[a] == u {
                        assert(ms@.contains(a as usize));
                        let q = choose|q: int| 0 <= q < ms@.len() && ms@[q] == a as usize;
                    }
                }
            }
        }
        u = u + 1;
    }
}


// ---------------------------------------------------------------------
// Buildings, scraps and courtyards join what they open onto
// ---------------------------------------------------------------------

/// How many of the first `m` units are representatives.
pub open spec fn roots_upto(set: Seq<usize>, m: int) -> nat
    decreases m,
{
    if m <= 0 {
        0
    } else {
        roots_upto(set, m - 1) + if set[m - 1] == m - 1 {
            1nat
        } else {
            0nat
        }
    }
}

/// How many sets there are.
pub open spec fn roots(set: Seq<usize>) -> nat {
    roots_upto(set, set.len() as int)
}

proof fn lemma_relabel_roots(before: Seq<usize>, after: Seq<usize>, from: int, to: int, m: int)
    requires
        before.len() == after.len(),
        0 <= m <= before.len(),
        0 <= from < before.len(),
        0 <= to < before.len(),
        from != to,
        before[from] == from,
        before[to] == to,
        forall|w: int| 0 <= w < before.len() ==> #[trigger] after[w] == if before[w] == from {
            to
        } else {
            before[w] as int
        },
    ensures
        roots_upto(after, m) + (if from < m {
            1nat
        } else {
            0nat
        }) == roots_upto(before, m),
    decreases m,
{
    if m > 0 {
        lemma_relabel_roots(before, after, from, to, m - 1);
        let w = m - 1;
        if before[w] == from && w != from {
            assert(w != to);
        }
    }
}

/// Units in order of size, smallest first; units of one size keep
/// their order.
fn order_by_size(members: &Vec<Vec<usize>>) -> (order: Vec<usize>)
    ensures
        order@.len() == members@.len(),
        forall|k: int| 0 <= k < order@.len() ==> #[trigger] order@[k] < members@.len(),
        forall|w: usize| w < members@.len() ==> #[trigger] order@.contains(w),
{
    let mut order: Vec<usize> = Vec::new();
    let mut u: usize = 0;
    while u < members.len()
        invariant
            u <= members@.len(),
            order@.len() == u,
            forall|k: int| 0 <= k < order@.len() ==> #[trigger] order@[k] < u,
            forall|w: usize| w < u ==> #[trigger] order@.contains(w),
        decreases members.len() - u,
    {
        let size = members[u].len();
        let mut p: usize = 0;
        while p < order.len() && members[order[p]].len() <= size
            invariant
                p <= order@.len(),
                order@.len() == u,
                u < members@.len(),
                forall|k: int| 0 <= k < order@.len() ==> #[trigger] order@[k] < u,
            decreases order.len() - p,
        {
            p = p + 1;
        }
        let ghost before = order@;
        order.insert(p, u);
        proof {
            assert forall|k: int| 0 <= k < order@.len() implies #[trigger] order@[k] < u + 1 by {
                if k < p {
                    assert(order@[k] == before[k]);
                } else if k > p {
                    assert(order@[k] == before[k - 1]);
                }
            }
            assert forall|w: usize| w < u + 1 implies #[trigger] order@.contains(w) by {
                if w == u {
                    assert(order@[p as int] == u);
                } else {
                    assert(before.contains(w));
                    let q = choose|q: int| 0 <= q < before.len() && before[q] == w;
                    if q < p {
                        assert(order@[q] == w);
                    } else {
                        assert(order@[q + 1] == w);
                    }
                }
            }
        }
        u = u + 1;
    }
    order
}

/// The member rooms of the units `set` roots at `u`, among the first `v`
/// units, unit by unit.
pub open spec fn set_rooms(set: Seq<usize>, u: usize, members: Seq<Vec<usize>>, v: int) -> Seq<usize>
    decreases v,
{
    if v <= 0 {
        Seq::empty()
    } else {
        set_rooms(set, u, members, v - 1) + if set[v - 1] == u {
            members[v - 1]@
        } else {
            Seq::empty()
        }
    }
}

/// The doors of one room's row that lead out of the set rooted at `u`.
pub open spec fn row_doors(row: Seq<usize>, set: Seq<usize>, uo: Seq<usize>, u: usize) -> Seq<usize>
    decreases row.len(),
{
    if row.len() == 0 {
        Seq::empty()
    } else {
        let r = row_doors(row.drop_last(), set, uo, u);
        if set[uo[row.last() as int] as int] != u {
            r.push(row.last())
        } else {
            r
        }
    }
}

/// The doors of the rooms that lead out of the set rooted at `u`, room by
/// room.
pub open spec fn room_doors(rooms: Seq<usize>, adj: Seq<Vec<usize>>, set: Seq<usize>, uo: Seq<usize>, u: usize) -> Seq<
    usize,
>
    decreases rooms.len(),
{
    if rooms.len() == 0 {
        Seq::empty()
    } else {
        room_doors(rooms.drop_last(), adj, set, uo, u) + row_doors(adj[rooms.last() as int]@, set, uo, u)
    }
}

/// Every door out of the set rooted at `u`.
pub open spec fn set_doors(
    set: Seq<usize>,
    u: usize,
    members: Seq<Vec<usize>>,
    uo: Seq<usize>,
    adj: Seq<Vec<usize>>,
) -> Seq<usize> {
    room_doors(set_rooms(set, u, members, members.len() as int), adj, set, uo, u)
}

/// How many of the doors lead into the set rooted at `w`.
pub open spec fn doors_into(ds: Seq<usize>, set: Seq<usize>, uo: Seq<usize>, w: usize) -> nat
    decreases ds.len(),
{
    if ds.len() == 0 {
        0
    } else {
        doors_into(ds.drop_last(), set, uo, w) + if set[uo[ds.last() as int] as int] == w {
            1nat
        } else {
            0nat
        }
    }
}

/// How many of the doors lead indoors.
pub open spec fn doors_indoor(ds: Seq<usize>, sense: Seq<Sense>) -> nat
    decreases ds.len(),
{
    if ds.len() == 0 {
        0
    } else {
        doors_indoor(ds.drop_last(), sense) + if sense[ds.last() as int] == Sense::Indoor {
            1nat
        } else {
            0nat
        }
    }
}

/// `n`, held at `usize::MAX`.
pub open spec fn held(n: int) -> int {
    if n <= usize::MAX {
        n
    } else {
        usize::MAX as int
    }
}

/// What the set of unit `u` opens onto: its size, how many doors lead
/// into each other set, and how many of all its doors lead indoors and
/// how many elsewhere.
fn door_counts(
    set: &Vec<usize>,
    u: usize,
    members: &Vec<Vec<usize>>,
    uo: &Vec<usize>,
    sense: &Vec<Sense>,
    adj: &Vec<Vec<usize>>,
) -> (out: (usize, Vec<(usize, usize)>, usize, usize))
    requires
        reps(set@),
        set@.len() == members@.len(),
        u < set@.len(),
        sense@.len() == uo@.len(),
        adj@.len() == uo@.len(),
        forall|i: int| 0 <= i < uo@.len() ==> #[trigger] uo@[i] < members@.len(),
        forall|v: int, k: int|
            0 <= v < members@.len() && 0 <= k < members@[v]@.len() ==> #[trigger] members@[v]@[k] < uo@.len(),
        forall|a: int, k: int| 0 <= a < adj@.len() && 0 <= k < adj@[a]@.len() ==> #[trigger] adj@[a]@[k] < uo@.len(),
    ensures
        forall|k: int|
            0 <= k < out.1@.len() ==> #[trigger] out.1@[k].0 < set@.len() && out.1@[k].0 != u
                && set@[out.1@[k].0 as int] == out.1@[k].0,
        out.0 == held(set_rooms(set@, u, members@, members@.len() as int).len() as int),
        out.2 == held(doors_indoor(set_doors(set@, u, members@, uo@, adj@), sense@) as int),
        out.3 == held(set_doors(set@, u, members@, uo@, adj@).len() - doors_indoor(set_doors(set@, u, members@, uo@, adj@), sense@)),
        forall|k: int|
            0 <= k < out.1@.len() ==> (#[trigger] out.1@[k]).1 == held(doors_into(set_doors(set@, u, members@, uo@, adj@), set@, uo@, out.1@[k].0) as int)
                && doors_into(set_doors(set@, u, members@, uo@, adj@), set@, uo@, out.1@[k].0) > 0,
        forall|a: int, b: int| 0 <= a < b < out.1@.len() ==> (#[trigger] out.1@[a]).0 != (#[trigger] out.1@[b]).0,
        forall|w: usize| doors_into(set_doors(set@, u, members@, uo@, adj@), set@, uo@, w) > 0 ==> exists|k: int| 0 <= k < out.1@.len() && #[trigger] out.1@[k].0 == w,
{
    let count = members.len();
    let mut size: usize = 0;
    let mut into: Vec<(usize, usize)> = Vec::new();
    let mut to_indoor: usize = 0;
    let mut to_outdoor: usize = 0;
    let ghost mut ds: Seq<usize> = Seq::empty();
    let mut v: usize = 0;
    while v < count
        invariant
            v <= count,
            count == members@.len(),
            reps(set@),
            set@.len() == count,
            u < count,
            sense@.len() == uo@.len(),
            adj@.len() == uo@.len(),
            forall|i: int| 0 <= i < uo@.len() ==> #[trigger] uo@[i] < count,
            forall|w: int, k: int|
                0 <= w < count && 0 <= k < members@[w]@.len() ==> #[trigger] members@[w]@[k] < uo@.len(),
            forall|a: int, k: int| 0 <= a < adj@.len() && 0 <= k < adj@[a]@.len() ==> #[trigger] adj@[a]@[k] < uo@.len(),
            forall|k: int|
                0 <= k < into@.len() ==> #[trigger] into@[k].0 < count && into@[k].0 != u && set@[into@[k].0 as int]
                    == into@[k].0,
            ds == room_doors(set_rooms(set@, u, members@, v as int), adj@, set@, uo@, u),
            size == held(set_rooms(set@, u, members@, v as int).len() as int),
            to_indoor == held(doors_indoor(ds, sense@) as int),
            to_outdoor == held(ds.len() - doors_indoor(ds, sense@)),
            forall|k: int|
                0 <= k < into@.len() ==> (#[trigger] into@[k]).1 == held(doors_into(ds, set@, uo@, into@[k].0) as int)
                    && doors_into(ds, set@, uo@, into@[k].0) > 0,
            forall|a: int, b: int| 0 <= a < b < into@.len() ==> (#[trigger] into@[a]).0 != (#[trigger] into@[b]).0,
            forall|w: usize| doors_into(ds, set@, uo@, w) > 0 ==> exists|k: int| 0 <= k < into@.len() && #[trigger] into@[k].0 == w,
            forall|k: int| 0 <= k < ds.len() ==> #[trigger] ds[k] < uo@.len(),
        decreases count - v,
    {
        let ghost pre = set_rooms(set@, u, members@, v as int);
        if set[v] == u {
            let ms = &members[v];
            let mut k: usize = 0;
            while k < ms.len()
                invariant
                    v < count,
                    count == members@.len(),
                    ms@ == members@[v as int]@,
                    k <= ms@.len(),
                    reps(set@),
                    set@.len() == count,
                    u < count,
                    set@[v as int] == u,
                    sense@.len() == uo@.len(),
                    adj@.len() == uo@.len(),
                    forall|i: int| 0 <= i < uo@.len() ==> #[trigger] uo@[i] < count,
                    forall|w: int, k: int|
                        0 <= w < count && 0 <= k < members@[w]@.len() ==> #[trigger] members@[w]@[k] < uo@.len(),
                    forall|a: int, k: int| 0 <= a < adj@.len() && 0 <= k < adj@[a]@.len() ==> #[trigger] adj@[a]@[k] < uo@.len(),
                    forall|q: int|
                        0 <= q < into@.len() ==> #[trigger] into@[q].0 < count && into@[q].0 != u && set@[into@[q].0 as int]
                            == into@[q].0,
                    pre == set_rooms(set@, u, members@, v as int),
                    ds == room_doors(pre + ms@.take(k as int), adj@, set@, uo@, u),
                    size == held((pre + ms@.take(k as int)).len() as int),
                    to_indoor == held(doors_indoor(ds, sense@) as int),
                    to_outdoor == held(ds.len() - doors_indoor(ds, sense@)),
                    forall|q: int|
                        0 <= q < into@.len() ==> (#[trigger] into@[q]).1 == held(doors_into(ds, set@, uo@, into@[q].0) as int)
                            && doors_into(ds, set@, uo@, into@[q].0) > 0,
                    forall|a: int, b: int| 0 <= a < b < into@.len() ==> (#[trigger] into@[a]).0 != (#[trigger] into@[b]).0,
                    forall|w: usize| doors_into(ds, set@, uo@, w) > 0 ==> exists|q: int| 0 <= q < into@.len() && #[trigger] into@[q].0 == w,
                    forall|q: int| 0 <= q < ds.len() ==> #[trigger] ds[q] < uo@.len(),
                decreases ms.len() - k,
            {
                let i = ms[k];
                assert(members@[v as int]@[k as int] == i);
                proof {
                    assert((pre + ms@.take(k + 1)).drop_last() =~= pre + ms@.take(k as int));
                    assert((pre + ms@.take(k + 1)).last() == i);
                }
                size = size.saturating_add(1);
                let row = &adj[i];
                let ghost d0 = ds;
                let mut t: usize = 0;
                while t < row.len()
                    invariant
                        i < uo@.len(),
                        row@ == adj@[i as int]@,
                        t <= row@.len(),
                        count == members@.len(),
                        reps(set@),
                        set@.len() == count,
                        u < count,
                        sense@.len() == uo@.len(),
                        adj@.len() == uo@.len(),
                        forall|i: int| 0 <= i < uo@.len() ==> #[trigger] uo@[i] < count,
                        forall|a: int, k: int| 0 <= a < adj@.len() && 0 <= k < adj@[a]@.len() ==> #[trigger] adj@[a]@[k] < uo@.len(),
                        forall|q: int|
                            0 <= q < into@.len() ==> #[trigger] into@[q].0 < count && into@[q].0 != u && set@[into@[q].0 as int]
                                == into@[q].0,
                        ds == d0 + row_doors(row@.take(t as int), set@, uo@, u),
                        to_indoor == held(doors_indoor(ds, sense@) as int),
                        to_outdoor == held(ds.len() - doors_indoor(ds, sense@)),
                        forall|q: int|
                            0 <= q < into@.len() ==> (#[trigger] into@[q]).1 == held(doors_into(ds, set@, uo@, into@[q].0) as int)
                                && doors_into(ds, set@, uo@, into@[q].0) > 0,
                        forall|a: int, b: int| 0 <= a < b < into@.len() ==> (#[trigger] into@[a]).0 != (#[trigger] into@[b]).0,
                        forall|w: usize| doors_into(ds, set@, uo@, w) > 0 ==> exists|q: int| 0 <= q < into@.len() && #[trigger] into@[q].0 == w,
                        forall|q: int| 0 <= q < ds.len() ==> #[trigger] ds[q] < uo@.len(),
                    decreases row.len() - t,
                {
                    let j = row[t];
                    assert(adj@[i as int]@[t as int] == j);
                    proof {
                        assert(row@.take(t + 1).drop_last() =~= row@.take(t as int));
                        assert(row@.take(t + 1).last() == j);
                    }
                    let w = set[uo[j]];
                    if w != u {
                        let ghost before = ds;
                        proof {
                            ds = ds.push(j);
                            assert(d0 + row_doors(row@.take(t + 1), set@, uo@, u) =~= ds);
                            assert(ds.drop_last() =~= before);
                            assert forall|x: usize| #[trigger] doors_into(ds, set@, uo@, x) == doors_into(before, set@, uo@, x) + if x == w {
                                1nat
                            } else {
                                0nat
                            } by {}
                        }
                        let mut q: usize = 0;
                        while q < into.len() && into[q].0 != w
                            invariant
                                q <= into@.len(),
                                forall|p: int| 0 <= p < q ==> into@[p].0 != w,
                            decreases into.len() - q,
                        {
                            q = q + 1;
                        }
                        if q < into.len() {
                            let entry = (w, into[q].1.saturating_add(1));
                            let ghost ib = into@;
                            into.set(q, entry);
                            proof {
                                assert forall|w2: usize| doors_into(ds, set@, uo@, w2) > 0 implies exists|p: int| 0 <= p < into@.len() && #[trigger] into@[p].0 == w2 by {
                                    if w2 != w {
                                        let p = choose|p: int| 0 <= p < ib.len() && #[trigger] ib[p].0 == w2;
                                        assert(into@[p].0 == w2);
                                    } else {
                                        assert(into@[q as int].0 == w2);
                                    }
                                }
                            }
                        } else {
                            proof {
                                if doors_into(before, set@, uo@, w) > 0 {
                                    let p = choose|p: int| 0 <= p < into@.len() && #[trigger] into@[p].0 == w;
                                    assert(false);
                                }
                            }
                            let ghost ib = into@;
                            into.push((w, 1));
                            proof {
                                assert forall|w2: usize| doors_into(ds, set@, uo@, w2) > 0 implies exists|p: int| 0 <= p < into@.len() && #[trigger] into@[p].0 == w2 by {
                                    if w2 != w {
                                        let p = choose|p: int| 0 <= p < ib.len() && #[trigger] ib[p].0 == w2;
                                        assert(into@[p].0 == w2);
                                    } else {
                                        assert(into@[ib.len() as int].0 == w2);
                                    }
                                }
                            }
                        }
                        if sense[j] == Sense::Indoor {
                            to_indoor = to_indoor.saturating_add(1);
                        } else {
                            to_outdoor = to_outdoor.saturating_add(1);
                        }
                    } else {
                        assert(d0 + row_doors(row@.take(t + 1), set@, uo@, u) =~= ds);
                    }
                    t = t + 1;
                }
                proof {
                    assert(row@.take(t as int) =~= row@);
                    assert(room_doors(pre + ms@.take(k + 1), adj@, set@, uo@, u) =~= ds);
                }
                k = k + 1;
            }
            proof {
                assert(ms@.take(k as int) =~= ms@);
                assert(set_rooms(set@, u, members@, v + 1) =~= pre + ms@);
            }
        } else {
            assert(set_rooms(set@, u, members@, v + 1) =~= pre);
        }
        v = v + 1;
    }
    (size, into, to_indoor, to_outdoor)
}

/// The set most of the doors lead into (the one named first among
/// equals), with its door count, and the runner-up's door count.
fn best_of(into: &Vec<(usize, usize)>) -> (out: (usize, usize, Option<usize>))
    requires
        into@.len() > 0,
    ensures
        exists|k: int| 0 <= k < into@.len() && #[trigger] into@[k].0 == out.0,
{
    let mut b: usize = 0;
    let mut k: usize = 1;
    while k < into.len()
        invariant
            1 <= k <= into@.len(),
            b < k,
        decreases into.len() - k,
    {
        if into[k].1 > into[b].1 || (into[k].1 == into[b].1 && into[k].0 < into[b].0) {
            b = k;
        }
        k = k + 1;
    }
    let mut second: Option<usize> = None;
    let mut q: usize = 0;
    while q < into.len()
        invariant
            q <= into@.len(),
            b < into@.len(),
        decreases into.len() - q,
    {
        if q != b {
            second = match second {
                Some(c) => if into[q].1 > c {
                    Some(into[q].1)
                } else {
                    Some(c)
                },
                None => Some(into[q].1),
            };
        }
        q = q + 1;
    }
    (into[b].0, into[b].1, second)
}

/// Whether the set rooted at `u` stays on its own in an attaching pass:
/// an indoor one of at least `ZONE_ROOMS` rooms, or an outdoor one of at
/// least `TINY_ROOMS` rooms that, when courtyards are attached, has no
/// more doors indoors than elsewhere.
pub open spec fn stays_alone(
    set: Seq<usize>,
    u: usize,
    members: Seq<Vec<usize>>,
    uo: Seq<usize>,
    unit_sense: Seq<Sense>,
    sense: Seq<Sense>,
    adj: Seq<Vec<usize>>,
    courtyards: bool,
) -> bool {
    let size = held(set_rooms(set, u, members, members.len() as int).len() as int);
    let ds = set_doors(set, u, members, uo, adj);
    let indoor = held(doors_indoor(ds, sense) as int);
    let elsewhere = held(ds.len() - doors_indoor(ds, sense));
    match unit_sense[u as int] {
        Sense::Indoor => size >= ZONE_ROOMS,
        Sense::Outdoor => size >= TINY_ROOMS && !(courtyards && indoor > elsewhere),
        Sense::Unknown => false,
    }
}

/// Unit `u` gives an attaching pass nothing to do: it roots no set, its
/// set has no door out, or its set stays on its own.
pub open spec fn settled(
    set: Seq<usize>,
    u: usize,
    members: Seq<Vec<usize>>,
    uo: Seq<usize>,
    unit_sense: Seq<Sense>,
    sense: Seq<Sense>,
    adj: Seq<Vec<usize>>,
    courtyards: bool,
) -> bool {
    set[u as int] != u || set_doors(set, u, members, uo, adj).len() == 0 || stays_alone(
        set,
        u,
        members,
        uo,
        unit_sense,
        sense,
        adj,
        courtyards,
    )
}

/// One pass of attaching, in `order`: each set that does not stand on
/// its own joins the set most of its doors lead into.
fn attach_pass(
    set: &mut Vec<usize>,
    contested: &mut Vec<usize>,
    order: &Vec<usize>,
    members: &Vec<Vec<usize>>,
    uo: &Vec<usize>,
    unit_sense: &Vec<Sense>,
    sense: &Vec<Sense>,
    adj: &Vec<Vec<usize>>,
    courtyards: bool,
) -> (moved: bool)
    requires
        reps(old(set)@),
        old(set)@.len() == members@.len(),
        unit_sense@.len() == members@.len(),
        forall|k: int| 0 <= k < order@.len() ==> #[trigger] order@[k] < members@.len(),
        forall|k: int| 0 <= k < old(contested)@.len() ==> #[trigger] old(contested)@[k] < members@.len(),
        sense@.len() == uo@.len(),
        adj@.len() == uo@.len(),
        forall|i: int| 0 <= i < uo@.len() ==> #[trigger] uo@[i] < members@.len(),
        forall|v: int, k: int|
            0 <= v < members@.len() && 0 <= k < members@[v]@.len() ==> #[trigger] members@[v]@[k] < uo@.len(),
        forall|a: int, k: int| 0 <= a < adj@.len() && 0 <= k < adj@[a]@.len() ==> #[trigger] adj@[a]@[k] < uo@.len(),
    ensures
        final(set)@.len() == old(set)@.len(),
        reps(final(set)@),
        coarser(old(set)@, final(set)@),
        moved ==> roots(final(set)@) < roots(old(set)@),
        !moved ==> final(set)@ == old(set)@,
        forall|k: int| 0 <= k < final(contested)@.len() ==> #[trigger] final(contested)@[k] < members@.len(),
        !moved ==> forall|k: int|
            0 <= k < order@.len() ==> settled(final(set)@, #[trigger] order@[k], members@, uo@, unit_sense@, sense@, adj@, courtyards),
{
    let ghost start = set@;
    let mut moved = false;
    let mut p: usize = 0;
    while p < order.len()
        invariant
            p <= order@.len(),
            reps(set@),
            set@.len() == members@.len(),
            start.len() == members@.len(),
            coarser(start, set@),
            moved ==> roots(set@) < roots(start),
            !moved ==> set@ == start,
            unit_sense@.len() == members@.len(),
            forall|k: int| 0 <= k < order@.len() ==> #[trigger] order@[k] < members@.len(),
            forall|k: int| 0 <= k < contested@.len() ==> #[trigger] contested@[k] < members@.len(),
            sense@.len() == uo@.len(),
            adj@.len() == uo@.len(),
            forall|i: int| 0 <= i < uo@.len() ==> #[trigger] uo@[i] < members@.len(),
            forall|v: int, k: int|
                0 <= v < members@.len() && 0 <= k < members@[v]@.len() ==> #[trigger] members@[v]@[k] < uo@.len(),
            forall|a: int, k: int| 0 <= a < adj@.len() && 0 <= k < adj@[a]@.len() ==> #[trigger] adj@[a]@[k] < uo@.len(),
            !moved ==> forall|k: int|
                0 <= k < p ==> settled(set@, #[trigger] order@[k], members@, uo@, unit_sense@, sense@, adj@, courtyards),
        decreases order.len() - p,
    {
        let u = order[p];
        p = p + 1;
        if set[u] != u {
            assert(settled(set@, order@[p - 1], members@, uo@, unit_sense@, sense@, adj@, courtyards));
            continue;
        }
        // The whole set rooted here, not this one unit of it: the town is
        // not a scrap because one stretch of street is.
        let (size, into, to_indoor, to_outdoor) = door_counts(set, u, members, uo, sense, adj);
        if into.len() == 0 {
            proof {
                let ds = set_doors(set@, u, members@, uo@, adj@);
                if ds.len() > 0 {
                    let w = set@[uo@[ds.last() as int] as int];
                    assert(doors_into(ds, set@, uo@, w) > 0);
                }
                assert(settled(set@, order@[p - 1], members@, uo@, unit_sense@, sense@, adj@, courtyards));
            }
            continue;
        }
        let (target, best, second) = best_of(&into);
        let stays = match unit_sense[u] {
            Sense::Indoor => size >= ZONE_ROOMS,
            // A street network stays, unless it is a scrap or a courtyard
            // walled in by buildings.
            Sense::Outdoor => size >= TINY_ROOMS && !(courtyards && to_indoor > to_outdoor),
            Sense::Unknown => false,
        };
        if stays {
            assert(stays_alone(set@, u, members@, uo@, unit_sense@, sense@, adj@, courtyards));
            assert(settled(set@, order@[p - 1], members@, uo@, unit_sense@, sense@, adj@, courtyards));
            continue;
        }
        match second {
            Some(c) => {
                let c_wide = c as u128;
                let total = (best as u128) + c_wide;
                assert(total < 0x2_0000_0000_0000_0000u128);
                assert(CONTESTED_SHARE as u128 == 40u128);
                if c_wide * 100 >= total * (CONTESTED_SHARE as u128) {
                    contested.push(u);
                }
            },
            None => {},
        }
        let ghost before = set@;
        relabel(set, u, target);
        proof {
            lemma_relabel_roots(before, set@, u as int, target as int, before.len() as int);
            assert forall|a: int, b: int|
                0 <= a < start.len() && 0 <= b < start.len() && #[trigger] start[a] == #[trigger] start[b]
                    implies set@[a] == set@[b] by {
                assert(before[a] == before[b]);
            }
        }
        moved = true;
    }
    moved
}

/// Buildings, scraps, courtyards and the unlabelled join whatever they
/// open onto most, smallest first, so a back room follows its shop before
/// the shop follows its street; repeated until nothing moves. Courtyards
/// only once the buildings have found their streets.
///
/// Returns the units whose choice was contested: a runner-up took at
/// least [`CONTESTED_SHARE`] percent of their doors.
fn attach(
    set: &mut Vec<usize>,
    members: &Vec<Vec<usize>>,
    uo: &Vec<usize>,
    unit_sense: &Vec<Sense>,
    sense: &Vec<Sense>,
    adj: &Vec<Vec<usize>>,
) -> (contested: Vec<usize>)
    requires
        reps(old(set)@),
        old(set)@.len() == members@.len(),
        unit_sense@.len() == members@.len(),
        sense@.len() == uo@.len(),
        adj@.len() == uo@.len(),
        forall|i: int| 0 <= i < uo@.len() ==> #[trigger] uo@[i] < members@.len(),
        forall|v: int, k: int|
            0 <= v < members@.len() && 0 <= k < members@[v]@.len() ==> #[trigger] members@[v]@[k] < uo@.len(),
        forall|a: int, k: int| 0 <= a < adj@.len() && 0 <= k < adj@[a]@.len() ==> #[trigger] adj@[a]@[k] < uo@.len(),
    ensures
        final(set)@.len() == old(set)@.len(),
        reps(final(set)@),
        coarser(old(set)@, final(set)@),
        forall|k: int| 0 <= k < contested@.len() ==> #[trigger] contested@[k] < members@.len(),
        forall|w: usize| w < members@.len() ==> #[trigger] settled(final(set)@, w, members@, uo@, unit_sense@, sense@, adj@, true),
{
    let ghost start = set@;
    let mut contested: Vec<usize> = Vec::new();
    let order = order_by_size(members);
    let mut phase: usize = 0;
    while phase < 2
        invariant
            phase <= 2,
            reps(set@),
            set@.len() == members@.len(),
            start.len() == members@.len(),
            coarser(start, set@),
            unit_sense@.len() == members@.len(),
            forall|k: int| 0 <= k < order@.len() ==> #[trigger] order@[k] < members@.len(),
            forall|k: int| 0 <= k < contested@.len() ==> #[trigger] contested@[k] < members@.len(),
            sense@.len() == uo@.len(),
            adj@.len() == uo@.len(),
            forall|i: int| 0 <= i < uo@.len() ==> #[trigger] uo@[i] < members@.len(),
            forall|v: int, k: int|
                0 <= v < members@.len() && 0 <= k < members@[v]@.len() ==> #[trigger] members@[v]@[k] < uo@.len(),
            forall|a: int, k: int| 0 <= a < adj@.len() && 0 <= k < adj@[a]@.len() ==> #[trigger] adj@[a]@[k] < uo@.len(),
            forall|w: usize| w < members@.len() ==> #[trigger] order@.contains(w),
            phase == 2 ==> forall|w: usize|
                w < members@.len() ==> #[trigger] settled(set@, w, members@, uo@, unit_sense@, sense@, adj@, true),
        decreases 2 - phase,
    {
        let courtyards = phase == 1;
        loop
            invariant
                reps(set@),
                set@.len() == members@.len(),
                start.len() == members@.len(),
                coarser(start, set@),
                unit_sense@.len() == members@.len(),
                forall|k: int| 0 <= k < order@.len() ==> #[trigger] order@[k] < members@.len(),
                forall|k: int| 0 <= k < contested@.len() ==> #[trigger] contested@[k] < members@.len(),
                sense@.len() == uo@.len(),
                adj@.len() == uo@.len(),
                forall|i: int| 0 <= i < uo@.len() ==> #[trigger] uo@[i] < members@.len(),
                forall|v: int, k: int|
                    0 <= v < members@.len() && 0 <= k < members@[v]@.len() ==> #[trigger] members@[v]@[k] < uo@.len(),
                forall|a: int, k: int| 0 <= a < adj@.len() && 0 <= k < adj@[a]@.len() ==> #[trigger] adj@[a]@[k] < uo@.len(),
                forall|w: usize| w < members@.len() ==> #[trigger] order@.contains(w),
                phase < 2,
                courtyards == (phase == 1),
            ensures
                phase == 1 ==> forall|w: usize|
                    w < members@.len() ==> #[trigger] settled(set@, w, members@, uo@, unit_sense@, sense@, adj@, true),
            decreases roots(set@),
        {
            let ghost before = set@;
            let moved = attach_pass(set, &mut contested, &order, members, uo, unit_sense, sense, adj, courtyards);
            proof {
                if !moved && phase == 1 {
                    assert forall|w: usize| w < members@.len() implies #[trigger] settled(set@, w, members@, uo@, unit_sense@, sense@, adj@, true) by {
                        assert(order@.contains(w));
                        let q = choose|q: int| 0 <= q < order@.len() && order@[q] == w;
                        assert(settled(set@, order@[q], members@, uo@, unit_sense@, sense@, adj@, courtyards));
                    }
                }
            }
            proof {
                assert forall|a: int, b: int|
                    0 <= a < start.len() && 0 <= b < start.len() && #[trigger] start[a] == #[trigger] start[b]
                        implies set@[a] == set@[b] by {
                    assert(before[a] == before[b]);
                }
            }
            if !moved {
                break;
            }
        }
        phase = phase + 1;
    }
    contested
}


// ---------------------------------------------------------------------
// Areas
// ---------------------------------------------------------------------

/// What kind of place an area is.
#[derive(Debug, Clone, Copy, PartialEq, Eq, Structural)]
pub enum AreaKind {
    /// An outdoor network with its buildings.
    Streets,
    /// A zone-sized interior: its own area.
    Zone,
    /// A building or building group that reaches no street at all.
    Interior,
    /// Rooms with no passage in or out; nothing to group them by.
    Isolated,
}

/// One derived area.
#[derive(Debug, Clone, PartialEq, Eq)]
pub struct DerivedArea {
    /// The hub the area belongs to, or `None` for an area made only of
    /// unlabelled rooms.
    pub region: Option<String>,
    /// A name for the list: the location most of its rooms carry, or the
    /// title prefix its rooms share.
    pub name: String,
    pub kind: AreaKind,
    pub rooms: Vec<RoomId>,
    /// Rooms that joined this area over a close alternative, so a person
    /// can be shown the call rather than have it made silently.
    pub contested: Vec<RoomId>,
}

/// The ids of these rooms, in order.
pub open spec fn ids_of(rs: Seq<Room>) -> Seq<RoomId>
    decreases rs.len(),
{
    if rs.len() == 0 {
        Seq::empty()
    } else {
        ids_of(rs.drop_last()).push(rs.last().id)
    }
}

/// Every room of every area, counted with multiplicity.
pub open spec fn room_bag(areas: Seq<DerivedArea>) -> Multiset<RoomId>
    decreases areas.len(),
{
    if areas.len() == 0 {
        Multiset::empty()
    } else {
        room_bag(areas.drop_last()).add(areas.last().rooms@.to_multiset())
    }
}

/// The room with this id has no neighbour at all.
pub open spec fn alone(rs: Seq<Room>, id: RoomId) -> bool {
    forall|i: int, j: int| 0 <= i < rs.len() && 0 <= j < rs.len() && rs[i].id == id ==> !#[trigger] linked(rs, i, j)
}

/// How many of these rooms read as outdoors.
pub open spec fn outdoors(rs: Seq<Room>, ids: Seq<RoomId>) -> nat
    decreases ids.len(),
{
    if ids.len() == 0 {
        0
    } else {
        outdoors(rs, ids.drop_last()) + match room_of(rs, ids.last()) {
            Some(r) => if sense_of(r) == Sense::Outdoor {
                1nat
            } else {
                0nat
            },
            None => 0nat,
        }
    }
}

/// What holds of every area: it has rooms; its contested rooms are its
/// own; an isolated area is one room with no neighbour; a street area has
/// at least [`TINY_ROOMS`] outdoor rooms.
pub open spec fn area_ok(rs: Seq<Room>, a: DerivedArea) -> bool {
    &&& a.rooms@.len() > 0
    &&& forall|k: int| 0 <= k < a.contested@.len() ==> a.rooms@.contains(#[trigger] a.contested@[k])
    &&& a.kind == AreaKind::Isolated ==> a.rooms@.len() == 1 && alone(rs, a.rooms@[0])
    &&& a.kind == AreaKind::Streets ==> outdoors(rs, a.rooms@) >= TINY_ROOMS
    &&& a.kind == AreaKind::Interior ==> outdoors(rs, a.rooms@) < TINY_ROOMS && a.rooms@.len() < ZONE_ROOMS
    &&& a.kind == AreaKind::Zone ==> a.rooms@.len() >= 2
}

/// Two rooms lie in one area.
pub open spec fn together(areas: Seq<DerivedArea>, x: RoomId, y: RoomId) -> bool {
    exists|a: int| 0 <= a < areas.len() && (#[trigger] areas[a]).rooms@.contains(x) && areas[a].rooms@.contains(y)
}

/// The list order: larger areas first, then by name.
pub open spec fn precedes(a: DerivedArea, b: DerivedArea) -> bool {
    a.rooms@.len() > b.rooms@.len() || (a.rooms@.len() == b.rooms@.len() && text_lt(a.name@, b.name@))
}

/// No area comes before one it should follow.
pub open spec fn listed(areas: Seq<DerivedArea>) -> bool {
    forall|a: int, b: int| 0 <= a < b < areas.len() ==> !precedes(#[trigger] areas[b], #[trigger] areas[a])
}

proof fn lemma_room_bag_push(s: Seq<DerivedArea>, a: DerivedArea)
    ensures
        room_bag(s.push(a)) == room_bag(s).add(a.rooms@.to_multiset()),
{
    assert(s.push(a).drop_last() =~= s);
}

proof fn lemma_room_bag_fold(s: Seq<DerivedArea>, f: spec_fn(Multiset<RoomId>, DerivedArea) -> Multiset<RoomId>)
    requires
        forall|m: Multiset<RoomId>, a: DerivedArea| #[trigger] f(m, a) == m.add(a.rooms@.to_multiset()),
    ensures
        room_bag(s) == s.fold_left(Multiset::empty(), f),
    decreases s.len(),
{
    if s.len() > 0 {
        lemma_room_bag_fold(s.drop_last(), f);
    }
}

/// The same areas in another order hold the same rooms.
proof fn lemma_room_bag_permutation(s1: Seq<DerivedArea>, s2: Seq<DerivedArea>)
    requires
        s1.to_multiset() == s2.to_multiset(),
    ensures
        room_bag(s1) == room_bag(s2),
{
    let f = |m: Multiset<RoomId>, a: DerivedArea| m.add(a.rooms@.to_multiset());
    assert forall|x: DerivedArea, y: DerivedArea, v: Multiset<RoomId>| #[trigger] f(f(v, x), y) == f(f(v, y), x) by {
        assert(v.add(x.rooms@.to_multiset()).add(y.rooms@.to_multiset()) =~= v.add(y.rooms@.to_multiset()).add(
            x.rooms@.to_multiset(),
        ));
    }
    vstd::seq_lib::lemma_fold_left_permutation(s1, s2, f, Multiset::empty());
    lemma_room_bag_fold(s1, f);
    lemma_room_bag_fold(s2, f);
}

/// Whether `a` comes before `b` in the list.
fn area_precedes(a: &DerivedArea, b: &DerivedArea) -> (r: bool)
    ensures
        r == precedes(*a, *b),
{
    a.rooms.len() > b.rooms.len() || (a.rooms.len() == b.rooms.len() && text_less(
        a.name.as_str(),
        b.name.as_str(),
    ))
}

proof fn lemma_precedes_order(a: DerivedArea, b: DerivedArea, c: DerivedArea)
    ensures
        precedes(a, b) ==> !precedes(b, a),
        !precedes(a, b) && !precedes(b, c) ==> !precedes(a, c),
{
    if precedes(a, b) && a.rooms@.len() == b.rooms@.len() {
        crate::keyed::lemma_text_lt_asymmetric(a.name@, b.name@);
    }
    if !precedes(a, b) && !precedes(b, c) && precedes(a, c) {
        if a.rooms@.len() == c.rooms@.len() {
            assert(b.rooms@.len() == a.rooms@.len());
            crate::keyed::lemma_text_lt_total(a.name@, b.name@);
            crate::keyed::lemma_text_lt_total(b.name@, c.name@);
            if text_lt(b.name@, a.name@) && text_lt(c.name@, b.name@) {
                crate::keyed::lemma_text_lt_transitive(c.name@, b.name@, a.name@);
                crate::keyed::lemma_text_lt_asymmetric(a.name@, c.name@);
            } else if b.name@ == a.name@ && text_lt(c.name@, b.name@) {
                crate::keyed::lemma_text_lt_asymmetric(a.name@, c.name@);
            } else if c.name@ == b.name@ && text_lt(b.name@, a.name@) {
                crate::keyed::lemma_text_lt_asymmetric(a.name@, c.name@);
            } else if c.name@ == b.name@ && b.name@ == a.name@ {
                crate::keyed::lemma_text_lt_irreflexive(a.name@);
            }
        }
    }
}

/// The areas in list order: larger first, then by name; areas equal on
/// both keep their order.
fn sort_areas(v: Vec<DerivedArea>) -> (out: Vec<DerivedArea>)
    ensures
        out@.to_multiset() == v@.to_multiset(),
        listed(out@),
{
    broadcast use vstd::seq_lib::group_to_multiset_ensures, vstd::multiset::group_multiset_axioms;

    let ghost whole = v@;
    let mut input = v;
    let mut out: Vec<DerivedArea> = Vec::new();
    while input.len() > 0
        invariant
            out@.to_multiset().add(input@.to_multiset()) == whole.to_multiset(),
            listed(out@),
        decreases input.len(),
    {
        let ghost before_in = input@;
        let a = input.pop().unwrap();
        assert(before_in =~= input@.push(a));
        let mut p: usize = 0;
        while p < out.len() && area_precedes(&out[p], &a)
            invariant
                p <= out@.len(),
                forall|q: int| 0 <= q < p ==> precedes(#[trigger] out@[q], a),
            decreases out.len() - p,
        {
            p = p + 1;
        }
        let ghost before = out@;
        out.insert(p, a);
        proof {
            assert(out@ == before.insert(p as int, a));
            vstd::seq_lib::to_multiset_insert(before, p as int, a);
            vstd::seq_lib::to_multiset_build(input@, a);
            assert(out@.to_multiset() == before.to_multiset().insert(a));
            assert(before_in.to_multiset() == input@.to_multiset().insert(a));
            assert(before.to_multiset().add(before_in.to_multiset()) == whole.to_multiset());
            assert(out@.to_multiset().add(input@.to_multiset()) =~= whole.to_multiset());
            assert forall|x: int, y: int| 0 <= x < y < out@.len() implies !precedes(
                #[trigger] out@[y],
                #[trigger] out@[x],
            ) by {
                if y < p {
                    assert(out@[x] == before[x] && out@[y] == before[y]);
                } else if y == p {
                    assert(out@[x] == before[x]);
                    lemma_precedes_order(before[x], a, a);
                } else if x == p {
                    assert(out@[y] == before[y - 1]);
                    assert(!precedes(before[p as int], a));
                    if y - 1 > p {
                        lemma_precedes_order(before[y - 1], before[p as int], a);
                    }
                } else if x < p {
                    assert(out@[x] == before[x] && out@[y] == before[y - 1]);
                } else {
                    assert(out@[x] == before[x - 1] && out@[y] == before[y - 1]);
                }
            }
        }
    }
    assert(input@ =~= Seq::<DerivedArea>::empty());
    assert(out@.to_multiset().add(Multiset::empty()) =~= out@.to_multiset());
    out
}


/// Every id of these lists, counted with multiplicity.
pub open spec fn rows_bag(rows: Seq<Seq<RoomId>>) -> Multiset<RoomId>
    decreases rows.len(),
{
    if rows.len() == 0 {
        Multiset::empty()
    } else {
        rows_bag(rows.drop_last()).add(rows.last().to_multiset())
    }
}

proof fn lemma_rows_bag_push_at(rows: Seq<Seq<RoomId>>, b: int, x: RoomId)
    requires
        0 <= b < rows.len(),
    ensures
        rows_bag(rows.update(b, rows[b].push(x))) == rows_bag(rows).insert(x),
    decreases rows.len(),
{
    broadcast use vstd::seq_lib::group_to_multiset_ensures, vstd::multiset::group_multiset_axioms;

    let w = rows.update(b, rows[b].push(x));
    if b == rows.len() - 1 {
        assert(w.drop_last() =~= rows.drop_last());
        assert(w.last() == rows.last().push(x));
        assert(rows_bag(w) =~= rows_bag(rows).insert(x));
    } else {
        assert(w.drop_last() =~= rows.drop_last().update(b, rows[b].push(x)));
        lemma_rows_bag_push_at(rows.drop_last(), b, x);
        assert(rows_bag(w) =~= rows_bag(rows).insert(x));
    }
}

proof fn lemma_rows_bag_empty(rows: Seq<Seq<RoomId>>)
    requires
        forall|q: int| 0 <= q < rows.len() ==> #[trigger] rows[q].len() == 0,
    ensures
        rows_bag(rows) =~= Multiset::empty(),
    decreases rows.len(),
{
    broadcast use vstd::seq_lib::group_to_multiset_ensures, vstd::multiset::group_multiset_axioms;

    if rows.len() > 0 {
        lemma_rows_bag_empty(rows.drop_last());
        assert(rows.last() =~= Seq::<RoomId>::empty());
    }
}

proof fn lemma_perm_member(s1: Seq<DerivedArea>, s2: Seq<DerivedArea>, a: int)
    requires
        s1.to_multiset() == s2.to_multiset(),
        0 <= a < s1.len(),
    ensures
        exists|b: int| 0 <= b < s2.len() && s2[b] == s1[a],
{
    broadcast use vstd::seq_lib::group_to_multiset_ensures;

    vstd::seq_lib::to_multiset_contains(s1, s1[a]);
    vstd::seq_lib::to_multiset_contains(s2, s1[a]);
    assert(s1.contains(s1[a]));
    assert(s2.contains(s1[a]));
}

pub(crate) proof fn lemma_ids_of(rs: Seq<Room>)
    ensures
        ids_of(rs).len() == rs.len(),
        forall|i: int| 0 <= i < rs.len() ==> #[trigger] ids_of(rs)[i] == rs[i].id,
    decreases rs.len(),
{
    if rs.len() > 0 {
        lemma_ids_of(rs.drop_last());
    }
}

/// The area made of one set's rooms, `idx` in map order.
fn area_of_rows(
    rs: &Vec<&Room>,
    idx: &Vec<usize>,
    uo: &Vec<usize>,
    is_contested: &Vec<bool>,
    sense: &Vec<Sense>,
    adj: &Vec<Vec<usize>>,
    regions: &Vec<Option<String>>,
) -> (area: DerivedArea)
    requires
        ids_unique(rooms_of(rs@)),
        idx@.len() > 0,
        forall|k: int| 0 <= k < idx@.len() ==> #[trigger] idx@[k] < rs@.len(),
        uo@.len() == rs@.len(),
        forall|i: int| 0 <= i < uo@.len() ==> #[trigger] uo@[i] < is_contested@.len(),
        sense@.len() == rs@.len(),
        forall|i: int| 0 <= i < rs@.len() ==> #[trigger] sense@[i] == sense_of(*rs@[i]),
        adj@.len() == rs@.len(),
        forall|a: int, b: int|
            0 <= a < rs@.len() && 0 <= b < rs@.len() ==> (#[trigger] adj@[a]@.contains(b as usize)
                <==> linked(rooms_of(rs@), a, b)),
        regions@.len() == rs@.len(),
    ensures
        area.rooms@.len() == idx@.len(),
        forall|k: int| 0 <= k < idx@.len() ==> #[trigger] area.rooms@[k] == rs@[idx@[k] as int].id,
        area_ok(rooms_of(rs@), area),
{
    let ghost r = rooms_of(rs@);
    let mut rooms: Vec<RoomId> = Vec::new();
    let mut contested: Vec<RoomId> = Vec::new();
    let mut outdoor: usize = 0;
    let mut region_names: Vec<String> = Vec::new();
    let mut locations: Vec<String> = Vec::new();
    let mut prefixes: Vec<String> = Vec::new();
    let mut k: usize = 0;
    while k < idx.len()
        invariant
            k <= idx@.len(),
            r == rooms_of(rs@),
            ids_unique(r),
            forall|q: int| 0 <= q < idx@.len() ==> #[trigger] idx@[q] < rs@.len(),
            uo@.len() == rs@.len(),
            forall|i: int| 0 <= i < uo@.len() ==> #[trigger] uo@[i] < is_contested@.len(),
            sense@.len() == rs@.len(),
            forall|i: int| 0 <= i < rs@.len() ==> #[trigger] sense@[i] == sense_of(*rs@[i]),
            regions@.len() == rs@.len(),
            rooms@.len() == k,
            forall|q: int| 0 <= q < k ==> #[trigger] rooms@[q] == rs@[idx@[q] as int].id,
            forall|q: int| 0 <= q < contested@.len() ==> rooms@.contains(#[trigger] contested@[q]),
            outdoor <= k,
            outdoor == outdoors(r, rooms@),
        decreases idx.len() - k,
    {
        let i = idx[k];
        assert(r[i as int] == *rs@[i as int]);
        let ghost before = rooms@;
        rooms.push(rs[i].id);
        proof {
            assert(rooms@.drop_last() =~= before);
            crate::model::lemma_room_of_index(r, i as int);
            assert(rooms@.contains(rs@[i as int].id)) by {
                assert(rooms@[k as int] == rs@[i as int].id);
            }
            assert forall|q: int| 0 <= q < contested@.len() implies rooms@.contains(#[trigger] contested@[q]) by {
                let w = choose|w: int| 0 <= w < before.len() && before[w] == contested@[q];
                assert(rooms@[w] == before[w]);
            }
        }
        if is_contested[uo[i]] {
            contested.push(rs[i].id);
        }
        if sense[i] == Sense::Outdoor {
            outdoor = outdoor + 1;
        }
        match &regions[i] {
            Some(g) => region_names.push(g.clone()),
            None => {},
        }
        match &rs[i].location {
            Some(l) => locations.push(l.clone()),
            None => {},
        }
        match title_prefix(rs[i]) {
            Some(t) => prefixes.push(t),
            None => {},
        }
        k = k + 1;
    }
    let n = idx.len();
    let first = idx[0];
    let kind = if n == 1 && adj[first].len() == 0 {
        proof {
            assert(r[first as int] == *rs@[first as int]);
            assert forall|i: int, j: int|
                0 <= i < r.len() && 0 <= j < r.len() && r[i].id == rooms@[0] implies !#[trigger] linked(r, i, j) by {
                assert(rs@[i].id == rs@[first as int].id);
                if i != first {
                    assert(r[i].id != r[first as int].id);
                }
                if linked(r, i, j) {
                    assert(adj@[i]@.contains(j as usize));
                }
            }
        }
        AreaKind::Isolated
    } else if outdoor >= TINY_ROOMS {
        AreaKind::Streets
    } else if n >= ZONE_ROOMS {
        AreaKind::Zone
    } else {
        AreaKind::Interior
    };
    let region = crate::regions::commonest(&region_names);
    let name = match crate::regions::commonest(&locations) {
        Some(l) => l,
        None => match crate::regions::commonest(&prefixes) {
            Some(p) => p,
            None => "(unnamed)".to_string(),
        },
    };
    DerivedArea { region, name, kind, rooms, contested }
}

/// The areas the sets of units make, one per set, in list order.
fn assemble(
    rs: &Vec<&Room>,
    uo: &Vec<usize>,
    set: &Vec<usize>,
    contested_units: &Vec<usize>,
    sense: &Vec<Sense>,
    adj: &Vec<Vec<usize>>,
    regions: &Vec<Option<String>>,
) -> (areas: Vec<DerivedArea>)
    requires
        ids_unique(rooms_of(rs@)),
        uo@.len() == rs@.len(),
        reps(set@),
        forall|i: int| 0 <= i < uo@.len() ==> #[trigger] uo@[i] < set@.len(),
        numbered(uo@, set@.len() as int),
        forall|k: int| 0 <= k < contested_units@.len() ==> #[trigger] contested_units@[k] < set@.len(),
        sense@.len() == rs@.len(),
        forall|i: int| 0 <= i < rs@.len() ==> #[trigger] sense@[i] == sense_of(*rs@[i]),
        adj@.len() == rs@.len(),
        forall|a: int, b: int|
            0 <= a < rs@.len() && 0 <= b < rs@.len() ==> (#[trigger] adj@[a]@.contains(b as usize)
                <==> linked(rooms_of(rs@), a, b)),
        regions@.len() == rs@.len(),
    ensures
        room_bag(areas@) == ids_of(rooms_of(rs@)).to_multiset(),
        forall|a: int| 0 <= a < areas@.len() ==> area_ok(rooms_of(rs@), #[trigger] areas@[a]),
        forall|i: int, j: int|
            0 <= i < rs@.len() && 0 <= j < rs@.len() && set@[uo@[i] as int] == set@[uo@[j] as int]
                ==> together(areas@, #[trigger] rs@[i].id, #[trigger] rs@[j].id),
        listed(areas@),
{
    broadcast use vstd::seq_lib::group_to_multiset_ensures, vstd::multiset::group_multiset_axioms;

    let ghost r = rooms_of(rs@);
    let n = rs.len();
    let count = set.len();
    // Which units were contested.
    let mut is_contested: Vec<bool> = Vec::new();
    let mut u: usize = 0;
    while u < count
        invariant
            u <= count,
            is_contested@.len() == u,
        decreases count - u,
    {
        is_contested.push(false);
        u = u + 1;
    }
    let mut c: usize = 0;
    while c < contested_units.len()
        invariant
            is_contested@.len() == count,
            forall|k: int| 0 <= k < contested_units@.len() ==> #[trigger] contested_units@[k] < count,
        decreases contested_units.len() - c,
    {
        is_contested.set(contested_units[c], true);
        c = c + 1;
    }
    // One slot per set, in order of its representative.
    let mut slot: Vec<usize> = Vec::new();
    let mut root_at: Vec<usize> = Vec::new();
    let mut v: usize = 0;
    while v < count
        invariant
            v <= count,
            count == set@.len(),
            reps(set@),
            slot@.len() == v,
            forall|w: int| 0 <= w < v && set@[w] == w ==> #[trigger] slot@[w] < root_at@.len() && root_at@[slot@[w] as int] == w,
            forall|b: int| 0 <= b < root_at@.len() ==> #[trigger] root_at@[b] < v && set@[root_at@[b] as int] == root_at@[b],
            forall|b1: int, b2: int| 0 <= b1 < b2 < root_at@.len() ==> #[trigger] root_at@[b1] < #[trigger] root_at@[b2],
        decreases count - v,
    {
        if set[v] == v {
            slot.push(root_at.len());
            root_at.push(v);
        } else {
            slot.push(0);
        }
        v = v + 1;
    }
    let nsets = root_at.len();
    // The rooms of each set, in map order.
    let mut rows: Vec<Vec<usize>> = Vec::new();
    let ghost mut id_rows: Seq<Seq<RoomId>> = Seq::empty();
    let mut b: usize = 0;
    while b < nsets
        invariant
            b <= nsets,
            rows@.len() == b,
            id_rows.len() == b,
            forall|q: int| 0 <= q < b ==> (#[trigger] rows@[q])@.len() == 0,
            forall|q: int| 0 <= q < b ==> #[trigger] id_rows[q].len() == 0,
        decreases nsets - b,
    {
        rows.push(Vec::new());
        proof {
            id_rows = id_rows.push(Seq::empty());
        }
        b = b + 1;
    }
    proof {
        lemma_rows_bag_empty(id_rows);
        lemma_ids_of(r);
        assert(ids_of(r.take(0)) =~= Seq::<RoomId>::empty());
    }
    let mut i: usize = 0;
    while i < n
        invariant
            i <= n,
            n == rs@.len(),
            r == rooms_of(rs@),
            uo@.len() == n,
            count == set@.len(),
            reps(set@),
            forall|q: int| 0 <= q < n ==> #[trigger] uo@[q] < count,
            slot@.len() == count,
            forall|w: int| 0 <= w < count && set@[w] == w ==> #[trigger] slot@[w] < nsets && root_at@[slot@[w] as int] == w,
            root_at@.len() == nsets,
            forall|b: int| 0 <= b < nsets ==> #[trigger] root_at@[b] < count && set@[root_at@[b] as int] == root_at@[b],
            rows@.len() == nsets,
            id_rows.len() == nsets,
            forall|b: int| 0 <= b < nsets ==> (#[trigger] rows@[b])@.len() == id_rows[b].len(),
            forall|b: int, k: int|
                0 <= b < nsets && 0 <= k < rows@[b]@.len() ==> #[trigger] rows@[b]@[k] < i && id_rows[b][k]
                    == rs@[rows@[b]@[k] as int].id && slot@[set@[uo@[rows@[b]@[k] as int] as int] as int] == b,
            forall|q: int| 0 <= q < i ==> #[trigger] rows@[slot@[set@[uo@[q] as int] as int] as int]@.contains(q as usize),
            rows_bag(id_rows) == ids_of(r.take(i as int)).to_multiset(),
        decreases n - i,
    {
        let key = set[uo[i]];
        assert(set@[key as int] == key);
        let at = slot[key];
        let ghost before = rows@;
        let ghost before_ids = id_rows;
        push_at(&mut rows, at, i);
        proof {
            id_rows = id_rows.update(at as int, id_rows[at as int].push(rs@[i as int].id));
            lemma_rows_bag_push_at(before_ids, at as int, rs@[i as int].id);
            assert(r.take(i + 1).drop_last() =~= r.take(i as int));
            assert(r[i as int] == *rs@[i as int]);
            assert(ids_of(r.take(i + 1)) == ids_of(r.take(i as int)).push(rs@[i as int].id));
            vstd::seq_lib::to_multiset_build(ids_of(r.take(i as int)), rs@[i as int].id);
            assert forall|b: int, k: int|
                0 <= b < nsets && 0 <= k < rows@[b]@.len() implies #[trigger] rows@[b]@[k] < i + 1 && id_rows[b][k]
                    == rs@[rows@[b]@[k] as int].id && slot@[set@[uo@[rows@[b]@[k] as int] as int] as int] == b by {
                if b != at {
                    assert(rows@[b] == before[b]);
                } else if k < before[b]@.len() {
                    assert(rows@[b]@[k] == before[b]@[k]);
                }
            }
            assert forall|q: int| 0 <= q < i + 1 implies #[trigger] rows@[slot@[set@[uo@[q] as int] as int] as int]@.contains(
                q as usize,
            ) by {
                let bq = slot@[set@[uo@[q] as int] as int] as int;
                if q == i {
                    assert(rows@[bq]@[before[bq]@.len() as int] == i);
                } else if bq == at {
                    assert(before[bq]@.contains(q as usize));
                    let w = choose|w: int| 0 <= w < before[bq]@.len() && before[bq]@[w] == q as usize;
                    assert(rows@[bq]@[w] == q as usize);
                } else {
                    assert(before[bq]@.contains(q as usize));
                    assert(rows@[bq] == before[bq]);
                }
            }
        }
        i = i + 1;
    }
    proof {
        assert(r.take(n as int) =~= r);
    }
    // One area per set.
    let mut unsorted: Vec<DerivedArea> = Vec::new();
    let mut b: usize = 0;
    while b < nsets
        invariant
            b <= nsets,
            n == rs@.len(),
            r == rooms_of(rs@),
            ids_unique(r),
            uo@.len() == n,
            count == set@.len(),
            reps(set@),
            numbered(uo@, count as int),
            forall|q: int| 0 <= q < n ==> #[trigger] uo@[q] < count,
            is_contested@.len() == count,
            sense@.len() == n,
            forall|i: int| 0 <= i < n ==> #[trigger] sense@[i] == sense_of(*rs@[i]),
            adj@.len() == n,
            forall|a: int, c: int|
                0 <= a < n && 0 <= c < n ==> (#[trigger] adj@[a]@.contains(c as usize) <==> linked(r, a, c)),
            regions@.len() == n,
            slot@.len() == count,
            forall|w: int| 0 <= w < count && set@[w] == w ==> #[trigger] slot@[w] < nsets && root_at@[slot@[w] as int] == w,
            root_at@.len() == nsets,
            forall|c: int| 0 <= c < nsets ==> #[trigger] root_at@[c] < count && set@[root_at@[c] as int] == root_at@[c],
            forall|b1: int, b2: int| 0 <= b1 < b2 < nsets ==> #[trigger] root_at@[b1] < #[trigger] root_at@[b2],
            rows@.len() == nsets,
            id_rows.len() == nsets,
            forall|c: int| 0 <= c < nsets ==> (#[trigger] rows@[c])@.len() == id_rows[c].len(),
            forall|c: int, k: int|
                0 <= c < nsets && 0 <= k < rows@[c]@.len() ==> #[trigger] rows@[c]@[k] < n && id_rows[c][k]
                    == rs@[rows@[c]@[k] as int].id && slot@[set@[uo@[rows@[c]@[k] as int] as int] as int] == c,
            forall|q: int| 0 <= q < n ==> #[trigger] rows@[slot@[set@[uo@[q] as int] as int] as int]@.contains(q as usize),
            rows_bag(id_rows) == ids_of(r).to_multiset(),
            unsorted@.len() == b,
            forall|c: int| 0 <= c < b ==> (#[trigger] unsorted@[c]).rooms@ == id_rows[c],
            forall|c: int| 0 <= c < b ==> area_ok(r, #[trigger] unsorted@[c]),
            room_bag(unsorted@) == rows_bag(id_rows.take(b as int)),
        decreases nsets - b,
    {
        let root = root_at[b];
        proof {
            assert(first_before(uo@, root as int, n as int));
            let q = choose|q: int| q < n && #[trigger] first_at(uo@, root as int, q);
            assert(rows@[slot@[set@[uo@[q] as int] as int] as int]@.contains(q as usize));
            let sr = slot@[root as int] as int;
            assert(root_at@[sr] == root);
            if sr < b {
                assert(root_at@[sr] < root_at@[b as int]);
            } else if sr > b {
                assert(root_at@[b as int] < root_at@[sr]);
            }
            assert(rows@[b as int]@.len() > 0);
        }
        let area = area_of_rows(rs, &rows[b], uo, &is_contested, sense, adj, regions);
        proof {
            assert(area.rooms@ =~= id_rows[b as int]);
        }
        let ghost before = unsorted@;
        unsorted.push(area);
        proof {
            lemma_room_bag_push(before, area);
            assert(id_rows.take(b + 1).drop_last() =~= id_rows.take(b as int));
            assert(unsorted@[b as int] == area);
        }
        b = b + 1;
    }
    proof {
        assert(id_rows.take(nsets as int) =~= id_rows);
    }
    let areas = sort_areas(unsorted);
    proof {
        lemma_room_bag_permutation(areas@, unsorted@);
        assert forall|a: int| 0 <= a < areas@.len() implies area_ok(r, #[trigger] areas@[a]) by {
            lemma_perm_member(areas@, unsorted@, a);
        }
        assert forall|i: int, j: int|
            0 <= i < rs@.len() && 0 <= j < rs@.len() && set@[uo@[i] as int] == set@[uo@[j] as int]
                implies together(areas@, #[trigger] rs@[i].id, #[trigger] rs@[j].id) by {
            let c = slot@[set@[uo@[i] as int] as int] as int;
            assert(rows@[c]@.contains(i as usize));
            assert(rows@[c]@.contains(j as usize));
            let ki = choose|k: int| 0 <= k < rows@[c]@.len() && rows@[c]@[k] == i as usize;
            let kj = choose|k: int| 0 <= k < rows@[c]@.len() && rows@[c]@[k] == j as usize;
            assert(unsorted@[c].rooms@[ki] == rs@[i].id);
            assert(unsorted@[c].rooms@[kj] == rs@[j].id);
            lemma_perm_member(unsorted@, areas@, c);
            let d = choose|d: int| 0 <= d < areas@.len() && areas@[d] == unsorted@[c];
            assert(areas@[d].rooms@.contains(rs@[i].id));
            assert(areas@[d].rooms@.contains(rs@[j].id));
        }
    }
    areas
}


// ---------------------------------------------------------------------
// Places reached by no walk
// ---------------------------------------------------------------------

/// Every room of `b` is also in `a`.
pub open spec fn covers(a: DerivedArea, b: DerivedArea) -> bool {
    forall|k: int| 0 <= k < b.rooms@.len() ==> a.rooms@.contains(#[trigger] b.rooms@[k])
}

/// Every area of `before` lies within some area of `after`.
pub open spec fn coarsens(before: Seq<DerivedArea>, after: Seq<DerivedArea>) -> bool {
    forall|a: int| 0 <= a < before.len() ==> exists|b: int| 0 <= b < after.len() && covers(after[b], #[trigger] before[a])
}

/// The ids in ascending order of their number.
fn sort_ids(v: Vec<RoomId>) -> (out: Vec<RoomId>)
    ensures
        out@.to_multiset() == v@.to_multiset(),
        forall|a: int, b: int| 0 <= a < b < out@.len() ==> (#[trigger] out@[a]).0 <= (#[trigger] out@[b]).0,
{
    broadcast use vstd::seq_lib::group_to_multiset_ensures, vstd::multiset::group_multiset_axioms;

    let ghost whole = v@;
    let mut input = v;
    let mut out: Vec<RoomId> = Vec::new();
    while input.len() > 0
        invariant
            out@.to_multiset().add(input@.to_multiset()) == whole.to_multiset(),
            forall|a: int, b: int| 0 <= a < b < out@.len() ==> (#[trigger] out@[a]).0 <= (#[trigger] out@[b]).0,
        decreases input.len(),
    {
        let ghost before_in = input@;
        let x = input.pop().unwrap();
        assert(before_in =~= input@.push(x));
        let mut p: usize = 0;
        while p < out.len() && out[p].0 < x.0
            invariant
                p <= out@.len(),
                forall|q: int| 0 <= q < p ==> (#[trigger] out@[q]).0 < x.0,
            decreases out.len() - p,
        {
            p = p + 1;
        }
        let ghost before = out@;
        out.insert(p, x);
        proof {
            vstd::seq_lib::to_multiset_insert(before, p as int, x);
            vstd::seq_lib::to_multiset_build(input@, x);
            assert(out@.to_multiset().add(input@.to_multiset()) =~= whole.to_multiset());
            assert forall|a: int, b: int| 0 <= a < b < out@.len() implies (#[trigger] out@[a]).0 <= (
            #[trigger] out@[b]).0 by {
                if b < p {
                    assert(out@[a] == before[a] && out@[b] == before[b]);
                } else if b == p {
                    assert(out@[a] == before[a]);
                } else if a == p {
                    assert(out@[b] == before[b - 1]);
                    assert(before[p as int].0 >= x.0);
                } else if a < p {
                    assert(out@[a] == before[a] && out@[b] == before[b - 1]);
                } else {
                    assert(out@[a] == before[a - 1] && out@[b] == before[b - 1]);
                }
            }
        }
    }
    assert(input@ =~= Seq::<RoomId>::empty());
    assert(out@.to_multiset().add(Multiset::empty()) =~= out@.to_multiset());
    out
}

/// A gathered area so far: one name, every room alone.
spec fn gathering(rs: Seq<Room>, g: DerivedArea) -> bool {
    &&& g.rooms@.len() > 0
    &&& forall|k: int| 0 <= k < g.contested@.len() ==> g.rooms@.contains(#[trigger] g.contested@[k])
    &&& g.kind == AreaKind::Isolated
    &&& forall|k: int| 0 <= k < g.rooms@.len() ==> alone(rs, #[trigger] g.rooms@[k])
}

proof fn lemma_room_bag_update(s: Seq<DerivedArea>, q: int, a: DerivedArea, extra: Seq<RoomId>)
    requires
        0 <= q < s.len(),
        a.rooms@ == s[q].rooms@ + extra,
    ensures
        room_bag(s.update(q, a)) == room_bag(s).add(extra.to_multiset()),
    decreases s.len(),
{
    broadcast use vstd::seq_lib::group_to_multiset_ensures, vstd::multiset::group_multiset_axioms;

    vstd::seq_lib::lemma_multiset_commutative(s[q].rooms@, extra);
    let w = s.update(q, a);
    if q == s.len() - 1 {
        assert(w.drop_last() =~= s.drop_last());
        assert(room_bag(w) =~= room_bag(s).add(extra.to_multiset()));
    } else {
        assert(w.drop_last() =~= s.drop_last().update(q, a));
        lemma_room_bag_update(s.drop_last(), q, a, extra);
        assert(room_bag(w) =~= room_bag(s).add(extra.to_multiset()));
    }
}

/// Rooms with no passage in or out, sharing a name, are one place: the
/// rooms of a travel puzzle are joined by nothing that counts as
/// adjacency here, yet are plainly one area. Rooms with no region stay
/// isolated; there is nothing to gather them by.
fn gather_the_unwalkable(rs: Ghost<Seq<Room>>, areas: Vec<DerivedArea>) -> (out: Vec<DerivedArea>)
    requires
        forall|a: int| 0 <= a < areas@.len() ==> area_ok(rs@, #[trigger] areas@[a]),
    ensures
        room_bag(out@) == room_bag(areas@),
        forall|a: int| 0 <= a < out@.len() ==> area_ok(rs@, #[trigger] out@[a]),
        coarsens(areas@, out@),
        listed(out@),
{
    broadcast use vstd::seq_lib::group_to_multiset_ensures, vstd::multiset::group_multiset_axioms;

    let ghost whole = areas@;
    assert(whole.len() == areas.len());
    // In reverse, so that popping hands the areas back in order.
    let mut input = areas;
    let mut rest: Vec<DerivedArea> = Vec::new();
    while input.len() > 0
        invariant
            input@.len() + rest@.len() == whole.len(),
            whole.len() <= usize::MAX,
            forall|k: int| 0 <= k < input@.len() ==> #[trigger] input@[k] == whole[k],
            forall|k: int| 0 <= k < rest@.len() ==> #[trigger] rest@[k] == whole[whole.len() - 1 - k],
        decreases input.len(),
    {
        let a = input.pop().unwrap();
        rest.push(a);
    }
    let mut keep: Vec<DerivedArea> = Vec::new();
    let mut groups: Vec<DerivedArea> = Vec::new();
    let mut done: usize = 0;
    proof {
        lemma_room_bag_fold(Seq::<DerivedArea>::empty(), |m: Multiset<RoomId>, a: DerivedArea| m.add(a.rooms@.to_multiset()));
        assert(whole.take(0) =~= Seq::<DerivedArea>::empty());
    }
    while rest.len() > 0
        invariant
            done + rest@.len() == whole.len(),
            whole.len() <= usize::MAX,
            forall|k: int| 0 <= k < rest@.len() ==> #[trigger] rest@[k] == whole[whole.len() - 1 - k],
            forall|a: int| 0 <= a < whole.len() ==> area_ok(rs@, #[trigger] whole[a]),
            forall|a: int| 0 <= a < keep@.len() ==> area_ok(rs@, #[trigger] keep@[a]),
            forall|a: int| 0 <= a < groups@.len() ==> gathering(rs@, #[trigger] groups@[a]),
            room_bag(keep@).add(room_bag(groups@)) == room_bag(whole.take(done as int)),
            forall|a: int| 0 <= a < done ==> exists|b: int|
                (0 <= b < keep@.len() && covers(keep@[b], #[trigger] whole[a])) || (0 <= b < groups@.len()
                    && covers(groups@[b], whole[a])),
        decreases rest.len(),
    {
        let area = rest.pop().unwrap();
        assert(area == whole[done as int]);
        proof {
            assert(whole.take(done + 1).drop_last() =~= whole.take(done as int));
        }
        let gathered = match area.kind {
            AreaKind::Isolated => area.region.is_some(),
            _ => false,
        };
        if !gathered {
            let ghost before = keep@;
            keep.push(area);
            proof {
                lemma_room_bag_push(before, area);
                assert(covers(area, area));
                assert forall|a: int| 0 <= a < done + 1 implies exists|b: int|
                    (0 <= b < keep@.len() && covers(keep@[b], #[trigger] whole[a])) || (0 <= b < groups@.len()
                        && covers(groups@[b], whole[a])) by {
                    if a == done {
                        assert(keep@[before.len() as int] == area);
                    } else {
                        let b = choose|b: int|
                            (0 <= b < before.len() && covers(before[b], #[trigger] whole[a])) || (0 <= b < groups@.len()
                                && covers(groups@[b], whole[a]));
                        if 0 <= b < before.len() && covers(before[b], whole[a]) {
                            assert(keep@[b] == before[b]);
                        }
                    }
                }
            }
        } else {
            let mut q: usize = 0;
            while q < groups.len() && !same_text(groups[q].name.as_str(), area.name.as_str())
                invariant
                    q <= groups@.len(),
                decreases groups.len() - q,
            {
                q = q + 1;
            }
            if q < groups.len() {
                let ghost before = groups@;
                let ghost old_rooms = groups@[q as int].rooms@;
                let mut k: usize = 0;
                while k < area.rooms.len()
                    invariant
                        q < groups@.len(),
                        groups@.len() == before.len(),
                        forall|w: int| 0 <= w < groups@.len() && w != q ==> #[trigger] groups@[w] == before[w],
                        groups@[q as int].rooms@ == old_rooms + area.rooms@.take(k as int),
                        groups@[q as int].contested == before[q as int].contested,
                        groups@[q as int].kind == before[q as int].kind,
                        groups@[q as int].name == before[q as int].name,
                        groups@[q as int].region == before[q as int].region,
                        k <= area.rooms@.len(),
                    decreases area.rooms.len() - k,
                {
                    groups[q].rooms.push(area.rooms[k]);
                    assert(old_rooms + area.rooms@.take(k + 1) =~= (old_rooms + area.rooms@.take(k as int)).push(
                        area.rooms@[k as int],
                    ));
                    k = k + 1;
                }
                proof {
                    assert(area.rooms@.take(area.rooms@.len() as int) =~= area.rooms@);
                    let g = groups@[q as int];
                    assert(groups@ =~= before.update(q as int, g));
                    lemma_room_bag_update(before, q as int, g, area.rooms@);
                    assert(g.rooms@.len() == old_rooms.len() + 1);
                    assert forall|k: int| 0 <= k < g.rooms@.len() implies alone(rs@, #[trigger] g.rooms@[k]) by {
                        if k < old_rooms.len() {
                            assert(g.rooms@[k] == before[q as int].rooms@[k]);
                        } else {
                            assert(g.rooms@[k] == area.rooms@[0]);
                        }
                    }
                    assert forall|k: int| 0 <= k < g.contested@.len() implies g.rooms@.contains(#[trigger] g.contested@[k]) by {
                        let w = choose|w: int| 0 <= w < old_rooms.len() && old_rooms[w] == g.contested@[k];
                        assert(g.rooms@[w] == old_rooms[w]);
                    }
                    assert(covers(g, area)) by {
                        assert(g.rooms@[old_rooms.len() as int] == area.rooms@[0]);
                    }
                    assert forall|a: int| 0 <= a < done + 1 implies exists|b: int|
                        (0 <= b < keep@.len() && covers(keep@[b], #[trigger] whole[a])) || (0 <= b < groups@.len()
                            && covers(groups@[b], whole[a])) by {
                        if a == done {
                            assert(groups@[q as int] == g);
                        } else {
                            let b = choose|b: int|
                                (0 <= b < keep@.len() && covers(keep@[b], #[trigger] whole[a])) || (0 <= b < before.len()
                                    && covers(before[b], whole[a]));
                            if 0 <= b < before.len() && covers(before[b], whole[a]) && !(0 <= b < keep@.len() && covers(keep@[b], whole[a])) {
                                if b == q {
                                    assert forall|k: int| 0 <= k < whole[a].rooms@.len() implies g.rooms@.contains(
                                        #[trigger] whole[a].rooms@[k],
                                    ) by {
                                        let w = choose|w: int| 0 <= w < old_rooms.len() && old_rooms[w] == whole[a].rooms@[k];
                                        assert(g.rooms@[w] == old_rooms[w]);
                                    }
                                    assert(covers(groups@[b], whole[a]));
                                } else {
                                    assert(groups@[b] == before[b]);
                                }
                            }
                        }
                    }
                }
            } else {
                let ghost before = groups@;
                groups.push(area);
                proof {
                    lemma_room_bag_push(before, area);
                    assert(covers(area, area));
                    assert forall|k: int| 0 <= k < area.rooms@.len() implies alone(rs@, #[trigger] area.rooms@[k]) by {
                        assert(k == 0);
                    }
                    assert(gathering(rs@, area));
                    assert forall|a: int| 0 <= a < done + 1 implies exists|b: int|
                        (0 <= b < keep@.len() && covers(keep@[b], #[trigger] whole[a])) || (0 <= b < groups@.len()
                            && covers(groups@[b], whole[a])) by {
                        if a == done {
                            assert(groups@[before.len() as int] == area);
                        } else {
                            let b = choose|b: int|
                                (0 <= b < keep@.len() && covers(keep@[b], #[trigger] whole[a])) || (0 <= b < before.len()
                                    && covers(before[b], whole[a]));
                            if 0 <= b < before.len() && covers(before[b], whole[a]) {
                                assert(groups@[b] == before[b]);
                            }
                        }
                    }
                }
            }
        }
        done = done + 1;
    }
    proof {
        assert(whole.take(whole.len() as int) =~= whole);
    }
    // Each gathered name is one area: a zone, or still isolated if it is
    // one room after all.
    let mut k_before = keep.len();
    while groups.len() > 0
        invariant
            forall|a: int| 0 <= a < keep@.len() ==> area_ok(rs@, #[trigger] keep@[a]),
            forall|a: int| 0 <= a < groups@.len() ==> gathering(rs@, #[trigger] groups@[a]),
            room_bag(keep@).add(room_bag(groups@)) == room_bag(whole),
            forall|a: int| 0 <= a < whole.len() ==> exists|b: int|
                (0 <= b < keep@.len() && covers(keep@[b], #[trigger] whole[a])) || (0 <= b < groups@.len()
                    && covers(groups@[b], whole[a])),
        decreases groups.len(),
    {
        let ghost before_groups = groups@;
        let g = groups.pop().unwrap();
        assert(before_groups =~= groups@.push(g));
        proof {
            lemma_room_bag_push(groups@, g);
        }
        let rooms = sort_ids(g.rooms);
        let kind = if rooms.len() == 1 {
            AreaKind::Isolated
        } else {
            AreaKind::Zone
        };
        let done_area = DerivedArea { region: g.region, name: g.name, kind, rooms, contested: g.contested };
        proof {
            assert forall|k: int| 0 <= k < done_area.rooms@.len() implies g.rooms@.contains(#[trigger] done_area.rooms@[k]) by {
                vstd::seq_lib::to_multiset_contains(done_area.rooms@, done_area.rooms@[k]);
                vstd::seq_lib::to_multiset_contains(g.rooms@, done_area.rooms@[k]);
                assert(done_area.rooms@.contains(done_area.rooms@[k]));
            }
            assert forall|k: int| 0 <= k < g.rooms@.len() implies done_area.rooms@.contains(#[trigger] g.rooms@[k]) by {
                vstd::seq_lib::to_multiset_contains(done_area.rooms@, g.rooms@[k]);
                vstd::seq_lib::to_multiset_contains(g.rooms@, g.rooms@[k]);
                assert(g.rooms@.contains(g.rooms@[k]));
            }
            vstd::seq_lib::to_multiset_len(done_area.rooms@);
            vstd::seq_lib::to_multiset_len(g.rooms@);
            assert(done_area.rooms@.len() == g.rooms@.len());
            if kind == AreaKind::Isolated {
                assert(g.rooms@.contains(done_area.rooms@[0]));
                let w = choose|w: int| 0 <= w < g.rooms@.len() && g.rooms@[w] == done_area.rooms@[0];
                assert(alone(rs@, g.rooms@[w]));
            }
            assert(area_ok(rs@, done_area));
        }
        let ghost before_keep = keep@;
        keep.push(done_area);
        proof {
            lemma_room_bag_push(before_keep, done_area);
            assert(room_bag(keep@).add(room_bag(groups@)) =~= room_bag(whole));
            assert forall|a: int| 0 <= a < whole.len() implies exists|b: int|
                (0 <= b < keep@.len() && covers(keep@[b], #[trigger] whole[a])) || (0 <= b < groups@.len()
                    && covers(groups@[b], whole[a])) by {
                let b = choose|b: int|
                    (0 <= b < before_keep.len() && covers(before_keep[b], #[trigger] whole[a])) || (0 <= b
                        < before_groups.len() && covers(before_groups[b], whole[a]));
                if 0 <= b < before_keep.len() && covers(before_keep[b], whole[a]) {
                    assert(keep@[b] == before_keep[b]);
                } else if b == groups@.len() {
                    assert forall|k: int| 0 <= k < whole[a].rooms@.len() implies done_area.rooms@.contains(
                        #[trigger] whole[a].rooms@[k],
                    ) by {
                        let w = choose|w: int| 0 <= w < g.rooms@.len() && g.rooms@[w] == whole[a].rooms@[k];
                        assert(done_area.rooms@.contains(g.rooms@[w]));
                    }
                    assert(keep@[before_keep.len() as int] == done_area);
                } else {
                    assert(groups@[b] == before_groups[b]);
                }
            }
        }
    }
    proof {
        assert(room_bag(groups@) =~= Multiset::empty());
        assert(room_bag(keep@).add(Multiset::empty()) =~= room_bag(keep@));
    }
    let out = sort_areas(keep);
    proof {
        lemma_room_bag_permutation(out@, keep@);
        assert forall|a: int| 0 <= a < out@.len() implies area_ok(rs@, #[trigger] out@[a]) by {
            lemma_perm_member(out@, keep@, a);
        }
        assert forall|a: int| 0 <= a < whole.len() implies exists|b: int| 0 <= b < out@.len() && covers(
            out@[b],
            #[trigger] whole[a],
        ) by {
            let b = choose|b: int| 0 <= b < keep@.len() && covers(keep@[b], #[trigger] whole[a]);
            lemma_perm_member(keep@, out@, b);
            let d = choose|d: int| 0 <= d < out@.len() && out@[d] == keep@[b];
        }
    }
    out
}


// ---------------------------------------------------------------------
// Names for a region's lesser areas
// ---------------------------------------------------------------------

/// The most common name of a list, ties to the first in text order.
pub open spec fn pick(names: Seq<Seq<char>>) -> Option<Seq<char>> {
    if names.len() == 0 {
        None
    } else {
        Some(choose|n: Seq<char>| is_commonest(names, n))
    }
}

proof fn lemma_commonest_unique(names: Seq<Seq<char>>, a: Seq<char>, b: Seq<char>)
    requires
        is_commonest(names, a),
        is_commonest(names, b),
    ensures
        a == b,
{
    crate::keyed::lemma_text_lt_total(a, b);
}

proof fn lemma_pick(names: Seq<Seq<char>>, n: Seq<char>)
    requires
        is_commonest(names, n),
    ensures
        pick(names) == Some(n),
{
    assert(names.contains(n));
    let c = choose|m: Seq<char>| is_commonest(names, m);
    lemma_commonest_unique(names, c, n);
}

/// How many of the first `m` areas lie in region `g`.
pub open spec fn in_region_upto(areas: Seq<DerivedArea>, g: Seq<char>, m: int) -> nat
    decreases m,
{
    if m <= 0 {
        0
    } else {
        in_region_upto(areas, g, m - 1) + if opt_view(areas[m - 1].region) == Some(g) {
            1nat
        } else {
            0nat
        }
    }
}

proof fn lemma_in_region_bound(areas: Seq<DerivedArea>, g: Seq<char>, m: int)
    requires
        0 <= m,
    ensures
        in_region_upto(areas, g, m) <= m,
    decreases m,
{
    if m > 0 {
        lemma_in_region_bound(areas, g, m - 1);
    }
}

proof fn lemma_named_bound(map: Seq<Room>, areas: Seq<DerivedArea>, name: Seq<char>, m: int)
    requires
        0 <= m,
    ensures
        named_upto(map, areas, name, m) <= m,
    decreases m,
{
    if m > 0 {
        lemma_named_bound(map, areas, name, m - 1);
    }
}

/// An area that keeps its name: the first listed of its region, or an
/// isolated one.
pub open spec fn principal(areas: Seq<DerivedArea>, at: int) -> bool {
    match areas[at].region {
        Some(g) => in_region_upto(areas, g@, at + 1) == 1 || areas[at].kind == AreaKind::Isolated,
        None => false,
    }
}

/// The title prefixes (or, with `inner`, the whole bracketed titles) of
/// these rooms of the map, where they have one.
pub open spec fn titled_names(map: Seq<Room>, ids: Seq<RoomId>, inner: bool) -> Seq<Seq<char>>
    decreases ids.len(),
{
    if ids.len() == 0 {
        Seq::empty()
    } else {
        let rest = titled_names(map, ids.drop_last(), inner);
        match room_of(map, ids.last()) {
            Some(r) => match if inner {
                title_inner_of(r)
            } else {
                title_prefix_of(r)
            } {
                Some(t) => rest.push(t),
                None => rest,
            },
            None => rest,
        }
    }
}

/// The name a region's lesser area takes: the title prefix its rooms
/// share, unless that is the region's own name, else the whole title
/// they share, else the name it had.
pub open spec fn satellite_name(map: Seq<Room>, a: DerivedArea, region: Seq<char>) -> Seq<char> {
    match pick(titled_names(map, a.rooms@, false)) {
        Some(p) if p != region => p,
        _ => match pick(titled_names(map, a.rooms@, true)) {
            Some(t) => t,
            None => a.name@,
        },
    }
}

/// The name of area `at` once the lesser areas of each region are
/// renamed.
pub open spec fn renamed(map: Seq<Room>, areas: Seq<DerivedArea>, at: int) -> Seq<char> {
    match areas[at].region {
        Some(g) => if !principal(areas, at) {
            satellite_name(map, areas[at], g@)
        } else {
            areas[at].name@
        },
        None => areas[at].name@,
    }
}

/// How many of the first `m` areas that are not isolated carry `name`
/// once renamed.
pub open spec fn named_upto(map: Seq<Room>, areas: Seq<DerivedArea>, name: Seq<char>, m: int) -> nat
    decreases m,
{
    if m <= 0 {
        0
    } else {
        named_upto(map, areas, name, m - 1) + if areas[m - 1].kind != AreaKind::Isolated && renamed(
            map,
            areas,
            m - 1,
        ) == name {
            1nat
        } else {
            0nat
        }
    }
}

/// The final name of area `at`: a lesser area whose name is still shared
/// says how big it is.
pub open spec fn final_name(map: Seq<Room>, areas: Seq<DerivedArea>, at: int) -> Seq<char> {
    let m = renamed(map, areas, at);
    if !principal(areas, at) && areas[at].kind != AreaKind::Isolated && named_upto(
        map,
        areas,
        m,
        areas.len() as int,
    ) > 1 {
        m + " ("@ + digits(areas[at].rooms@.len()) + " rooms)"@
    } else {
        m
    }
}

/// The title prefixes or whole titles of these rooms of the map.
pub(crate) fn titles_of(map: &RoomMap, ids: &Vec<RoomId>, inner: bool) -> (out: Vec<String>)
    ensures
        out@.map_values(|s: String| s@) == titled_names(map@, ids@, inner),
{
    let mut out: Vec<String> = Vec::new();
    let mut k: usize = 0;
    while k < ids.len()
        invariant
            k <= ids@.len(),
            out@.map_values(|s: String| s@) == titled_names(map@, ids@.take(k as int), inner),
        decreases ids.len() - k,
    {
        let ghost before = out@;
        proof {
            assert(ids@.take(k + 1).drop_last() =~= ids@.take(k as int));
            assert(ids@.take(k + 1).last() == ids@[k as int]);
        }
        match map.room(ids[k]) {
            Some(room) => {
                let t = if inner {
                    title_inner(room)
                } else {
                    title_prefix(room)
                };
                match t {
                    Some(t) => {
                        out.push(t);
                        assert(out@.map_values(|s: String| s@) =~= before.map_values(|s: String| s@).push(
                            out@[before.len() as int]@,
                        ));
                    },
                    None => {},
                }
            },
            None => {},
        }
        k = k + 1;
    }
    assert(ids@.take(ids@.len() as int) =~= ids@);
    out
}

/// The name area `area` takes as a lesser area of `region`.
fn satellite_name_exec(map: &RoomMap, area: &DerivedArea, region: &String) -> (r: Option<String>)
    ensures
        r is Some ==> r->0@ == satellite_name(map@, *area, region@),
        r is None ==> satellite_name(map@, *area, region@) == area.name@,
{
    let prefixes = titles_of(map, &area.rooms, false);
    let p = commonest(&prefixes);
    let first = match p {
        Some(n) => {
            proof {
                lemma_pick(prefixes@.map_values(|s: String| s@), n@);
            }
            if same_text(n.as_str(), region.as_str()) {
                None
            } else {
                Some(n)
            }
        },
        None => None,
    };
    match first {
        Some(n) => Some(n),
        None => {
            let inners = titles_of(map, &area.rooms, true);
            match commonest(&inners) {
                Some(t) => {
                    proof {
                        lemma_pick(inners@.map_values(|s: String| s@), t@);
                    }
                    Some(t)
                },
                None => None,
            }
        },
    }
}

/// A region's largest area keeps its name; the rest take the title prefix
/// their rooms share, so the list does not read as many areas all called
/// by the region. Any name still repeated gets its room count.
fn name_satellites(areas: &mut Vec<DerivedArea>, map: &RoomMap)
    ensures
        final(areas)@.len() == old(areas)@.len(),
        forall|at: int| 0 <= at < old(areas)@.len() ==> {
            let a = #[trigger] final(areas)@[at];
            let b = old(areas)@[at];
            &&& a.region == b.region
            &&& a.kind == b.kind
            &&& a.rooms == b.rooms
            &&& a.contested == b.contested
            &&& a.name@ == final_name(map@, old(areas)@, at)
        },
{
    let ghost start = areas@;
    let n = areas.len();
    // Which areas keep their name, and the renamed names.
    let mut seen_region: TextMap<usize> = TextMap::new();
    let mut principal_at: Vec<bool> = Vec::new();
    let mut names: Vec<String> = Vec::new();
    let mut at: usize = 0;
    while at < n
        invariant
            at <= n,
            n == start.len(),
            areas@ == start,
            principal_at@.len() == at,
            names@.len() == at,
            forall|q: int| 0 <= q < at ==> #[trigger] principal_at@[q] == principal(start, q),
            forall|q: int| 0 <= q < at ==> (#[trigger] names@[q])@ == renamed(map@, start, q),
            forall|g: Seq<char>| #[trigger] seen_region@.contains_key(g) ==> seen_region@[g] == in_region_upto(
                start,
                g,
                at as int,
            ),
            forall|g: Seq<char>| !(#[trigger] seen_region@.contains_key(g)) ==> in_region_upto(
                start,
                g,
                at as int,
            ) == 0,
        decreases n - at,
    {
        let area = &areas[at];
        proof {
            assert forall|g: Seq<char>| #[trigger] in_region_upto(start, g, at + 1) == in_region_upto(start, g, at as int)
                + if opt_view(start[at as int].region) == Some(g) {
                1nat
            } else {
                0nat
            } by {}
        }
        match &area.region {
            Some(g) => {
                let nth: usize = match seen_region.get(g.as_str()) {
                    Some(c) => *c,
                    None => 0,
                };
                assert(nth == in_region_upto(start, g@, at as int));
                proof {
                    lemma_in_region_bound(start, g@, at as int);
                }
                let nth = nth + 1;
                seen_region.insert(g.clone(), nth);
                let keeps = nth == 1 || area.kind == AreaKind::Isolated;
                principal_at.push(keeps);
                if keeps {
                    names.push(area.name.clone());
                } else {
                    match satellite_name_exec(map, area, g) {
                        Some(s) => names.push(s),
                        None => names.push(area.name.clone()),
                    }
                }
            },
            None => {
                principal_at.push(false);
                names.push(area.name.clone());
            },
        }
        at = at + 1;
    }
    // How many areas, isolated ones aside, carry each name.
    let mut seen_name: TextMap<usize> = TextMap::new();
    let mut at: usize = 0;
    while at < n
        invariant
            at <= n,
            n == start.len(),
            areas@ == start,
            names@.len() == n,
            forall|q: int| 0 <= q < n ==> (#[trigger] names@[q])@ == renamed(map@, start, q),
            forall|m: Seq<char>| #[trigger] seen_name@.contains_key(m) ==> seen_name@[m] == named_upto(
                map@,
                start,
                m,
                at as int,
            ),
            forall|m: Seq<char>| !(#[trigger] seen_name@.contains_key(m)) ==> named_upto(
                map@,
                start,
                m,
                at as int,
            ) == 0,
        decreases n - at,
    {
        proof {
            assert forall|m: Seq<char>| #[trigger] named_upto(map@, start, m, at + 1) == named_upto(
                map@,
                start,
                m,
                at as int,
            ) + if start[at as int].kind != AreaKind::Isolated && renamed(map@, start, at as int) == m {
                1nat
            } else {
                0nat
            } by {}
        }
        if areas[at].kind != AreaKind::Isolated {
            let c: usize = match seen_name.get(names[at].as_str()) {
                Some(c) => *c,
                None => 0,
            };
            proof {
                lemma_named_bound(map@, start, names@[at as int]@, at as int);
            }
            seen_name.insert(names[at].clone(), c + 1);
        }
        at = at + 1;
    }
    // A lesser area whose name is still shared says how big it is.
    let mut at: usize = 0;
    while at < n
        invariant
            at <= n,
            n == start.len(),
            areas@.len() == n,
            names@.len() == n,
            principal_at@.len() == n,
            forall|q: int| 0 <= q < n ==> #[trigger] principal_at@[q] == principal(start, q),
            forall|q: int| 0 <= q < n ==> (#[trigger] names@[q])@ == renamed(map@, start, q),
            forall|m: Seq<char>| #[trigger] seen_name@.contains_key(m) ==> seen_name@[m] == named_upto(
                map@,
                start,
                m,
                n as int,
            ),
            forall|m: Seq<char>| !(#[trigger] seen_name@.contains_key(m)) ==> named_upto(
                map@,
                start,
                m,
                n as int,
            ) == 0,
            forall|q: int| at <= q < n ==> #[trigger] areas@[q] == start[q],
            forall|q: int| 0 <= q < at ==> {
                let a = #[trigger] areas@[q];
                let b = start[q];
                &&& a.region == b.region
                &&& a.kind == b.kind
                &&& a.rooms == b.rooms
                &&& a.contested == b.contested
                &&& a.name@ == final_name(map@, start, q)
            },
        decreases n - at,
    {
        let shared = match seen_name.get(names[at].as_str()) {
            Some(c) => *c > 1,
            None => false,
        };
        let ghost before = areas@;
        if !principal_at[at] && areas[at].kind != AreaKind::Isolated && shared {
            let mut named = names[at].clone();
            push_text(&mut named, " (");
            push_count(&mut named, areas[at].rooms.len());
            push_text(&mut named, " rooms)");
            areas[at].name = named;
        } else {
            areas[at].name = names[at].clone();
        }
        proof {
            assert forall|q: int| at < q < n implies #[trigger] areas@[q] == start[q] by {
                assert(areas@[q] == before[q]);
            }
            assert forall|q: int| 0 <= q < at + 1 implies {
                let a = #[trigger] areas@[q];
                let b = start[q];
                &&& a.region == b.region
                &&& a.kind == b.kind
                &&& a.rooms == b.rooms
                &&& a.contested == b.contested
                &&& a.name@ == final_name(map@, start, q)
            } by {
                if q < at {
                    assert(areas@[q] == before[q]);
                }
            }
        }
        at = at + 1;
    }
}


// ---------------------------------------------------------------------
// Deriving the areas
// ---------------------------------------------------------------------

/// The sense of each room.
fn senses(rs: &Vec<&Room>) -> (out: Vec<Sense>)
    ensures
        out@.len() == rs@.len(),
        forall|i: int| 0 <= i < rs@.len() ==> #[trigger] out@[i] == sense_of(*rs@[i]),
{
    let mut out: Vec<Sense> = Vec::new();
    let mut i: usize = 0;
    while i < rs.len()
        invariant
            i <= rs@.len(),
            out@.len() == i,
            forall|k: int| 0 <= k < i ==> #[trigger] out@[k] == sense_of(*rs@[k]),
        decreases rs.len() - i,
    {
        out.push(room_sense(rs[i]));
        i = i + 1;
    }
    out
}

/// Every unit its own set.
fn singletons(count: usize) -> (set: Vec<usize>)
    ensures
        set@.len() == count,
        forall|u: int| 0 <= u < count ==> #[trigger] set@[u] == u,
        reps(set@),
{
    let mut set: Vec<usize> = Vec::new();
    let mut u: usize = 0;
    while u < count
        invariant
            u <= count,
            set@.len() == u,
            forall|q: int| 0 <= q < u ==> #[trigger] set@[q] == q,
        decreases count - u,
    {
        set.push(u);
        u = u + 1;
    }
    set
}

proof fn lemma_room_bag_rooms(a: Seq<DerivedArea>, b: Seq<DerivedArea>)
    requires
        a.len() == b.len(),
        forall|k: int| 0 <= k < a.len() ==> (#[trigger] a[k]).rooms == b[k].rooms,
    ensures
        room_bag(a) == room_bag(b),
    decreases a.len(),
{
    if a.len() > 0 {
        lemma_room_bag_rooms(a.drop_last(), b.drop_last());
    }
}

/// What `derive_areas` promises of its areas: every real room of the map
/// in exactly one, each area sound, rooms that are linked and of one kind,
/// or linked and of one named region, together, and the largest first.
pub open spec fn derived_grouping(map: Seq<Room>, areas: Seq<DerivedArea>) -> bool {
    &&& room_bag(areas) == ids_of(real_rooms(map)).to_multiset()
    &&& forall|a: int| 0 <= a < areas.len() ==> area_ok(real_rooms(map), #[trigger] areas[a])
    &&& forall|i: int, j: int|
        0 <= i < real_rooms(map).len() && 0 <= j < real_rooms(map).len() && linked(real_rooms(map), i, j) && same_kind(
            real_rooms(map),
            i,
            j,
        ) ==> together(areas, #[trigger] real_rooms(map)[i].id, #[trigger] real_rooms(map)[j].id)
    &&& forall|i: int, j: int|
        0 <= i < real_rooms(map).len() && 0 <= j < real_rooms(map).len() && linked(real_rooms(map), i, j) && region_opt(
            real_rooms(map)[i],
        ) is Some && region_opt(real_rooms(map)[i]) == region_opt(real_rooms(map)[j]) ==> together(
            areas,
            #[trigger] real_rooms(map)[i].id,
            #[trigger] real_rooms(map)[j].id,
        )
    &&& forall|a: int, b: int| 0 <= a < b < areas.len() ==> (#[trigger] areas[a]).rooms@.len() >= (#[trigger] areas[b]).rooms@.len()
}

/// Every area the map's rooms fall into, largest first.
///
/// Menus are no places: a room tagged as one reaches no area. The rest
/// are grouped by the walks between them: a unit (a connected run of one
/// location and one sense) is never split, nor are adjacent rooms of one
/// region; buildings, scraps and courtyards join what they open onto;
/// rooms no walk reaches are gathered by name.
pub fn derive_areas(map: &RoomMap) -> (areas: Vec<DerivedArea>)
    ensures
        room_bag(areas@) == ids_of(real_rooms(map@)).to_multiset(),
        forall|a: int| 0 <= a < areas@.len() ==> area_ok(real_rooms(map@), #[trigger] areas@[a]),
        forall|i: int, j: int|
            0 <= i < real_rooms(map@).len() && 0 <= j < real_rooms(map@).len() && linked(real_rooms(map@), i, j)
                && same_kind(real_rooms(map@), i, j) ==> together(
                areas@,
                #[trigger] real_rooms(map@)[i].id,
                #[trigger] real_rooms(map@)[j].id,
            ),
        forall|i: int, j: int|
            0 <= i < real_rooms(map@).len() && 0 <= j < real_rooms(map@).len() && linked(real_rooms(map@), i, j)
                && region_opt(real_rooms(map@)[i]) is Some && region_opt(real_rooms(map@)[i]) == region_opt(
                real_rooms(map@)[j],
            ) ==> together(areas@, #[trigger] real_rooms(map@)[i].id, #[trigger] real_rooms(map@)[j].id),
        forall|a: int, b: int|
            0 <= a < b < areas@.len() ==> (#[trigger] areas@[a]).rooms@.len() >= (#[trigger] areas@[b]).rooms@.len(),
{
    // A menu is not a place: the hideouts never reach an area at all.
    let rs = real_rooms_exec(map);
    let ghost r = rooms_of(rs@);
    let index = index_of_ids(&rs);
    let regions = regions_exec(&rs);
    let hub = hubs_exec(&rs, &index, &regions);
    let adj = adjacency(&rs, &index, &hub);
    let sense = senses(&rs);
    let (uo, count) = units(&rs, &sense, &adj);
    assert(uo@.len() == uo.len());
    proof {
        assert forall|u: int, k: int|
            0 <= u < count && 0 <= k < members_of(uo@, u).len() implies #[trigger] members_of(uo@, u)[k] < rs@.len() by {
            lemma_members_upto(uo@, u, uo@.len() as int);
        }
    }
    let members = members_exec(&uo, count);
    proof {
        assert forall|u: int| 0 <= u < count implies (#[trigger] members@[u])@.len() > 0
            && uo@[members@[u]@[0] as int] == u by {
            assert(first_before(uo@, u, uo@.len() as int));
            let i = choose|i: int| i < uo@.len() && #[trigger] first_at(uo@, u, i);
            lemma_first_member(uo@, u, i);
        }
        assert forall|u: int, k: int|
            0 <= u < members@.len() && 0 <= k < members@[u]@.len() implies #[trigger] members@[u]@[k] < rs@.len() by {
            assert(members@[u]@ == members_of(uo@, u));
        }
    }
    let unit_sense = unit_senses(&members, &sense);
    let uregion = unit_regions(&members, &regions);
    let mut set = singletons(count);
    merge_regions(&mut set, &members, &uo, &adj, &uregion);
    let ghost merged = set@;
    let contested = attach(&mut set, &members, &uo, &unit_sense, &sense, &adj);
    let areas = assemble(&rs, &uo, &set, &contested, &sense, &adj, &regions);
    let ghost assembled = areas@;
    let mut areas = gather_the_unwalkable(Ghost(r), areas);
    let ghost gathered = areas@;
    name_satellites(&mut areas, map);
    proof {
        lemma_room_bag_rooms(areas@, gathered);
        assert forall|a: int| 0 <= a < areas@.len() implies area_ok(r, #[trigger] areas@[a]) by {
            assert(area_ok(r, gathered[a]));
        }
        assert forall|a: int, b: int| 0 <= a < b < areas@.len() implies (#[trigger] areas@[a]).rooms@.len()
            >= (#[trigger] areas@[b]).rooms@.len() by {
            assert(!precedes(gathered[b], gathered[a]));
        }
        // Two rooms of one set lie in one area at the end.
        assert forall|i: int, j: int|
            0 <= i < r.len() && 0 <= j < r.len() && set@[uo@[i] as int] == set@[uo@[j] as int] implies together(
            areas@,
            r[i].id,
            r[j].id,
        ) by {
            assert(r[i] == *rs@[i] && r[j] == *rs@[j]);
            assert(together(assembled, rs@[i].id, rs@[j].id));
            let a = choose|a: int|
                0 <= a < assembled.len() && (#[trigger] assembled[a]).rooms@.contains(rs@[i].id)
                    && assembled[a].rooms@.contains(rs@[j].id);
            assert(coarsens(assembled, gathered));
            let b = choose|b: int| 0 <= b < gathered.len() && covers(gathered[b], #[trigger] assembled[a]);
            let ki = choose|k: int| 0 <= k < assembled[a].rooms@.len() && assembled[a].rooms@[k] == rs@[i].id;
            let kj = choose|k: int| 0 <= k < assembled[a].rooms@.len() && assembled[a].rooms@[k] == rs@[j].id;
            assert(gathered[b].rooms@.contains(assembled[a].rooms@[ki]));
            assert(gathered[b].rooms@.contains(assembled[a].rooms@[kj]));
            assert(areas@[b].rooms == gathered[b].rooms);
        }
        assert forall|i: int, j: int|
            0 <= i < r.len() && 0 <= j < r.len() && linked(r, i, j) && same_kind(r, i, j) implies together(
            areas@,
            #[trigger] r[i].id,
            #[trigger] r[j].id,
        ) by {
            assert(uo@[i] == uo@[j]);
        }
        assert forall|i: int, j: int|
            0 <= i < r.len() && 0 <= j < r.len() && linked(r, i, j) && region_opt(r[i]) is Some && region_opt(r[i])
                == region_opt(r[j]) implies together(areas@, #[trigger] r[i].id, #[trigger] r[j].id) by {
            let fi = members@[uo@[i] as int]@[0] as int;
            let fj = members@[uo@[j] as int]@[0] as int;
            assert(uo@[fi] == uo@[i]);
            assert(uo@[fj] == uo@[j]);
            assert(same_kind(r, fi, i));
            assert(same_kind(r, fj, j));
            assert(r[fi] == *rs@[fi] && r[fj] == *rs@[fj] && r[i] == *rs@[i] && r[j] == *rs@[j]);
            assert(region_opt(r[fi]) == region_opt(r[i]));
            assert(region_opt(r[fj]) == region_opt(r[j]));
            assert(adj@[i]@.contains((j as int) as usize));
            assert(merged[uo@[i] as int] == merged[uo@[j] as int]);
            assert(set@[uo@[i] as int] == set@[uo@[j] as int]);
        }
    }
    areas
}

} // verus!
