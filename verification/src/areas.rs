//! The area lists a person can browse the map by, each a name and the
//! rooms that make it up: the game's official layout areas, the map's
//! administrative regions, the game's `location` answers, the areas read
//! off the room graph, and the plates a person made.
//!
//! The official list and the location list never share a room: where an
//! official area covers a room it wins, and the location list holds only
//! what is left. The region list is a second opinion on the whole map and
//! drops nothing.

use vstd::prelude::*;
use vstd::multiset::Multiset;

use crate::keyed::{TextMap, keys_distinct, pairs_to_map, text_lt, text_sorted};
use crate::model::{Room, RoomId, RoomMap, has_room, ids_unique, room_of};
use crate::text::{
    chars_of, has_prefix, occurs_at, occurs_at_exec, parse_u32_chars, push_text, same_chars, string_of,
    unsigned_value,
};
use crate::split::{line_spans, lines_of, split_on, split_range, words, words_of};
use crate::derived::ids_of;
use crate::overrides::{MapOverrides, RoomKey, room_key, room_key_of};
use crate::derived::{DerivedArea, derive_areas, derived_grouping};

verus! {

/// Which of the area lists a list holds.
#[derive(Debug, Clone, Copy, PartialEq, Eq, Structural)]
pub enum AreaKind {
    /// The game's own layout areas.
    Official,
    /// The game's `location` answer.
    Location,
    /// The map database's administrative region.
    Region,
    /// Areas read off the room graph.
    Derived,
    /// Plates a person made.
    Plates,
}

pub open spec fn area_kind_title(k: AreaKind) -> Seq<char> {
    match k {
        AreaKind::Official => "Official"@,
        AreaKind::Region => "Region"@,
        AreaKind::Location => "Location"@,
        AreaKind::Derived => "Derived"@,
        AreaKind::Plates => "Plates"@,
    }
}

impl AreaKind {
    /// The tab label.
    pub fn title(self) -> (s: &'static str)
        ensures
            s@ == area_kind_title(self),
    {
        match self {
            AreaKind::Official => "Official",
            AreaKind::Region => "Region",
            AreaKind::Location => "Location",
            AreaKind::Derived => "Derived",
            AreaKind::Plates => "Plates",
        }
    }
}

/// One browsable area: a name and the rooms that make it up.
pub struct Area {
    pub name: String,
    pub kind: AreaKind,
    /// Members, in map order.
    pub rooms: Vec<RoomId>,
}

/// The key an area's corrections are stored under: a derived area and a
/// region are prefixed, so a list that shares a name with another over
/// different rooms cannot put its corrections on the other's grid.
pub open spec fn area_store_key(kind: AreaKind, name: Seq<char>) -> Seq<char> {
    match kind {
        AreaKind::Derived => "derived:"@ + name,
        AreaKind::Region => "region:"@ + name,
        _ => name,
    }
}

impl Area {
    pub fn store_key(&self) -> (s: String)
        ensures
            s@ == area_store_key(self.kind, self.name@),
    {
        let mut s = String::new();
        match self.kind {
            AreaKind::Derived => push_text(&mut s, "derived:"),
            AreaKind::Region => push_text(&mut s, "region:"),
            _ => {},
        }
        push_text(&mut s, self.name.as_str());
        assert(s@ =~= area_store_key(self.kind, self.name@));
        s
    }
}


// ---------------------------------------------------------------------
// Grouping rooms by a key
// ---------------------------------------------------------------------

/// The ids among the first `m` whose key is `k`, in order.
pub open spec fn keyed_upto(ids: Seq<RoomId>, keys: Seq<Seq<char>>, k: Seq<char>, m: int) -> Seq<RoomId>
    decreases m,
{
    if m <= 0 {
        Seq::empty()
    } else if keys[m - 1] == k {
        keyed_upto(ids, keys, k, m - 1).push(ids[m - 1])
    } else {
        keyed_upto(ids, keys, k, m - 1)
    }
}

proof fn lemma_keyed_upto_empty(ids: Seq<RoomId>, keys: Seq<Seq<char>>, k: Seq<char>, m: int)
    requires
        0 <= m <= keys.len(),
        forall|q: int| 0 <= q < m ==> keys[q] != k,
    ensures
        keyed_upto(ids, keys, k, m) == Seq::<RoomId>::empty(),
    decreases m,
{
    if m > 0 {
        lemma_keyed_upto_empty(ids, keys, k, m - 1);
    }
}

/// Some entry has this key.
pub open spec fn key_listed<V>(out: Seq<(String, V)>, k: Seq<char>) -> bool {
    exists|i: int| 0 <= i < out.len() && (#[trigger] out[i]).0@ == k
}

/// The ids grouped by key: one entry per key, keys in text order, each
/// with its ids in order.
fn group_by_key(ids: &Vec<RoomId>, keys: &Vec<String>) -> (out: Vec<(String, Vec<RoomId>)>)
    requires
        ids@.len() == keys@.len(),
    ensures
        forall|i: int, j: int| 0 <= i < j < out@.len() ==> text_lt((#[trigger] out@[i]).0@, (#[trigger] out@[j]).0@),
        forall|i: int|
            0 <= i < out@.len() ==> (#[trigger] out@[i]).1@ == keyed_upto(
                ids@,
                keys@.map_values(|s: String| s@),
                out@[i].0@,
                ids@.len() as int,
            ) && out@[i].1@.len() > 0,
        forall|m: int| 0 <= m < keys@.len() ==> #[trigger] key_listed(out@, keys@[m]@),
{
    let ghost kv = keys@.map_values(|s: String| s@);
    let mut groups: TextMap<Vec<RoomId>> = TextMap::new();
    let mut i: usize = 0;
    while i < ids.len()
        invariant
            i <= ids@.len(),
            ids@.len() == keys@.len(),
            kv == keys@.map_values(|s: String| s@),
            forall|k: Seq<char>| #[trigger] groups.view().contains_key(k) <==> exists|m: int| 0 <= m < i && kv[m] == k,
            forall|k: Seq<char>|
                #[trigger] groups.view().contains_key(k) ==> groups.view()[k]@ == keyed_upto(ids@, kv, k, i as int),
        decreases ids.len() - i,
    {
        let key = &keys[i];
        let mut row: Vec<RoomId> = match groups.remove(key.as_str()) {
            Some(v) => v,
            None => Vec::new(),
        };
        proof {
            if !(exists|m: int| 0 <= m < i && kv[m] == key@) {
                lemma_keyed_upto_empty(ids@, kv, key@, i as int);
            }
        }
        row.push(ids[i]);
        groups.insert(key.clone(), row);
        proof {
            assert forall|k: Seq<char>| #[trigger] groups.view().contains_key(k) <==> exists|m: int| 0 <= m < i + 1 && kv[m] == k by {
                if k == key@ {
                    assert(kv[i as int] == k);
                }
            }
        }
        i = i + 1;
    }
    groups.facts();
    let mut out: Vec<(String, Vec<RoomId>)> = Vec::new();
    let mut j: usize = 0;
    while j < groups.len()
        invariant
            j <= groups.pairs().len(),
            text_sorted(groups.pairs()),
            keys_distinct(groups.pairs()),
            groups.view() == pairs_to_map(groups.pairs()),
            forall|k: Seq<char>|
                #[trigger] groups.view().contains_key(k) ==> groups.view()[k]@ == keyed_upto(ids@, kv, k, ids@.len() as int),
            out@.len() == j,
            forall|q: int| 0 <= q < j ==> (#[trigger] out@[q]).0@ == groups.pairs()[q].0 && out@[q].1@
                == groups.pairs()[q].1@,
        decreases groups.pairs().len() - j,
    {
        let k = groups.key_at(j);
        let v = groups.value_at(j);
        let mut row: Vec<RoomId> = Vec::new();
        let mut t: usize = 0;
        while t < v.len()
            invariant
                t <= v@.len(),
                row@ == v@.take(t as int),
            decreases v.len() - t,
        {
            row.push(v[t]);
            assert(v@.take(t + 1) =~= v@.take(t as int).push(v@[t as int]));
            t = t + 1;
        }
        assert(v@.take(v@.len() as int) =~= v@);
        out.push((k.clone(), row));
        j = j + 1;
    }
    proof {
        assert forall|i: int|
            0 <= i < out@.len() implies (#[trigger] out@[i]).1@ == keyed_upto(ids@, kv, out@[i].0@, ids@.len() as int)
                && out@[i].1@.len() > 0 by {
            crate::keyed::lemma_pairs_index(groups.pairs(), i);
            let k = out@[i].0@;
            assert(groups.view().contains_key(k));
            let m = choose|m: int| 0 <= m < ids@.len() && kv[m] == k;
            lemma_keyed_upto_has(ids@, kv, k, ids@.len() as int, m);
        }
        assert forall|m: int| 0 <= m < keys@.len() implies #[trigger] key_listed(out@, keys@[m]@) by {
            assert(kv[m] == keys@[m]@);
            assert(groups.view().contains_key(kv[m]));
            let i = choose|i: int| 0 <= i < groups.pairs().len() && #[trigger] groups.pairs()[i].0 == kv[m];
            assert(out@[i].0@ == keys@[m]@);
        }
    }
    out
}

proof fn lemma_keyed_upto_has(ids: Seq<RoomId>, keys: Seq<Seq<char>>, k: Seq<char>, m: int, q: int)
    requires
        0 <= q < m <= keys.len(),
        keys[q] == k,
    ensures
        keyed_upto(ids, keys, k, m).len() > 0,
    decreases m,
{
    if q < m - 1 {
        lemma_keyed_upto_has(ids, keys, k, m - 1, q);
    }
}


/// `out` holds, in the order of the keys `ks`, one area of `kind` per
/// key, with the rooms of that key in order; an empty key is shown as
/// `unnamed`, and every key the rooms carry is among `ks`.
pub open spec fn grouped_by(
    out: Seq<Area>,
    ids: Seq<RoomId>,
    keys: Seq<Seq<char>>,
    kind: AreaKind,
    unnamed: Seq<char>,
    ks: Seq<Seq<char>>,
) -> bool {
    &&& ks.len() == out.len()
    &&& forall|i: int, j: int| 0 <= i < j < ks.len() ==> text_lt(#[trigger] ks[i], #[trigger] ks[j])
    &&& forall|i: int|
        0 <= i < out.len() ==> (#[trigger] out[i]).kind == kind && out[i].name@ == (if ks[i].len() == 0 {
            unnamed
        } else {
            ks[i]
        }) && out[i].rooms@ == keyed_upto(ids, keys, ks[i], ids.len() as int) && out[i].rooms@.len() > 0
    &&& forall|m: int| 0 <= m < keys.len() ==> ks.contains(#[trigger] keys[m])
}

/// `out` holds, in text order of their keys, one area of `kind` per key
/// the rooms carry, with the rooms of that key in order; an empty key is
/// shown as `unnamed`.
pub open spec fn grouped(
    out: Seq<Area>,
    ids: Seq<RoomId>,
    keys: Seq<Seq<char>>,
    kind: AreaKind,
    unnamed: Seq<char>,
) -> bool {
    exists|ks: Seq<Seq<char>>| #[trigger] grouped_by(out, ids, keys, kind, unnamed, ks)
}

/// An id an entry of `keyed_upto` holds is one of the first `m` ids.
proof fn lemma_keyed_upto_within(ids: Seq<RoomId>, keys: Seq<Seq<char>>, k: Seq<char>, m: int, x: RoomId)
    requires
        0 <= m <= ids.len(),
        m <= keys.len(),
        keyed_upto(ids, keys, k, m).contains(x),
    ensures
        exists|q: int| 0 <= q < m && #[trigger] ids[q] == x,
    decreases m,
{
    if m > 0 {
        let prev = keyed_upto(ids, keys, k, m - 1);
        if keys[m - 1] == k && !prev.contains(x) {
            let i = choose|i: int| 0 <= i < prev.len() + 1 && #[trigger] prev.push(ids[m - 1])[i] == x;
            if i < prev.len() {
                assert(prev[i] == x);
            }
            assert(ids[m - 1] == x);
        } else {
            lemma_keyed_upto_within(ids, keys, k, m - 1, x);
        }
    }
}

/// The `q`-th id is in the entry of its own key.
proof fn lemma_keyed_upto_holds(ids: Seq<RoomId>, keys: Seq<Seq<char>>, q: int, m: int)
    requires
        0 <= q < m,
        m <= ids.len(),
        m <= keys.len(),
    ensures
        keyed_upto(ids, keys, keys[q], m).contains(ids[q]),
    decreases m,
{
    let prev = keyed_upto(ids, keys, keys[q], m - 1);
    if q == m - 1 {
        assert(keyed_upto(ids, keys, keys[q], m)[prev.len() as int] == ids[q]);
    } else {
        lemma_keyed_upto_holds(ids, keys, q, m - 1);
        let i = choose|i: int| 0 <= i < prev.len() && #[trigger] prev[i] == ids[q];
        if keys[m - 1] == keys[q] {
            assert(keyed_upto(ids, keys, keys[q], m)[i] == ids[q]);
        }
    }
}

/// Every grouped id is in some entry.
pub proof fn lemma_grouped_covers(
    out: Seq<Area>,
    ids: Seq<RoomId>,
    keys: Seq<Seq<char>>,
    kind: AreaKind,
    unnamed: Seq<char>,
    q: int,
)
    requires
        grouped(out, ids, keys, kind, unnamed),
        ids.len() == keys.len(),
        0 <= q < ids.len(),
    ensures
        exists|a: int| 0 <= a < out.len() && (#[trigger] out[a]).rooms@.contains(ids[q]),
{
    let ks = choose|ks: Seq<Seq<char>>| #[trigger] grouped_by(out, ids, keys, kind, unnamed, ks);
    assert(ks.contains(keys[q]));
    let a = choose|a: int| 0 <= a < ks.len() && ks[a] == keys[q];
    lemma_keyed_upto_holds(ids, keys, q, ids.len() as int);
    assert(out[a].rooms@.contains(ids[q]));
}

/// Every room an entry holds is one of the grouped ids.
pub proof fn lemma_grouped_within(
    out: Seq<Area>,
    ids: Seq<RoomId>,
    keys: Seq<Seq<char>>,
    kind: AreaKind,
    unnamed: Seq<char>,
    a: int,
    x: RoomId,
)
    requires
        grouped(out, ids, keys, kind, unnamed),
        ids.len() == keys.len(),
        0 <= a < out.len(),
        out[a].rooms@.contains(x),
    ensures
        ids.contains(x),
{
    let ks = choose|ks: Seq<Seq<char>>| #[trigger] grouped_by(out, ids, keys, kind, unnamed, ks);
    lemma_keyed_upto_within(ids, keys, ks[a], ids.len() as int, x);
    let q = choose|q: int| 0 <= q < ids.len() && #[trigger] ids[q] == x;
    assert(ids[q] == x);
}

/// Areas of `kind` from the groups, an empty key shown as `unnamed`.
fn areas_of_groups(
    groups: Vec<(String, Vec<RoomId>)>,
    kind: AreaKind,
    unnamed: &str,
    ids: Ghost<Seq<RoomId>>,
    keys: Ghost<Seq<Seq<char>>>,
) -> (out: Vec<Area>)
    requires
        forall|i: int, j: int| 0 <= i < j < groups@.len() ==> text_lt((#[trigger] groups@[i]).0@, (#[trigger] groups@[j]).0@),
        forall|i: int|
            0 <= i < groups@.len() ==> (#[trigger] groups@[i]).1@ == keyed_upto(ids@, keys@, groups@[i].0@, ids@.len() as int)
                && groups@[i].1@.len() > 0,
        forall|m: int| 0 <= m < keys@.len() ==> #[trigger] key_listed(groups@, keys@[m]),
    ensures
        grouped(out@, ids@, keys@, kind, unnamed@),
{
    let ghost whole = groups@;
    let ghost ks = groups@.map_values(|g: (String, Vec<RoomId>)| g.0@);
    let mut rest = groups;
    let mut rev: Vec<(String, Vec<RoomId>)> = Vec::new();
    while rest.len() > 0
        invariant
            rest@.len() + rev@.len() == whole.len(),
            forall|q: int| 0 <= q < rest@.len() ==> #[trigger] rest@[q] == whole[q],
            forall|q: int| 0 <= q < rev@.len() ==> #[trigger] rev@[q] == whole[whole.len() - 1 - q],
        decreases rest.len(),
    {
        let g = rest.pop().unwrap();
        rev.push(g);
    }
    let mut out: Vec<Area> = Vec::new();
    while rev.len() > 0
        invariant
            out@.len() + rev@.len() == whole.len(),
            forall|q: int| 0 <= q < rev@.len() ==> #[trigger] rev@[q] == whole[whole.len() - 1 - q],
            forall|q: int| 0 <= q < out@.len() ==> (#[trigger] out@[q]).kind == kind && out@[q].name@ == (if whole[q].0@.len() == 0 {
                unnamed@
            } else {
                whole[q].0@
            }) && out@[q].rooms == whole[q].1,
        decreases rev.len(),
    {
        let (key, rooms) = rev.pop().unwrap();
        let name = if chars_of(key.as_str()).len() == 0 {
            unnamed.to_string()
        } else {
            key
        };
        out.push(Area { name, kind, rooms });
    }
    proof {
        assert(ks.len() == out@.len());
        assert forall|m: int| 0 <= m < keys@.len() implies ks.contains(#[trigger] keys@[m]) by {
            assert(key_listed(whole, keys@[m]));
            let i = choose|i: int| 0 <= i < whole.len() && (#[trigger] whole[i]).0@ == keys@[m];
            assert(ks[i] == keys@[m]);
        }
        assert forall|i: int, j: int| 0 <= i < j < ks.len() implies text_lt(#[trigger] ks[i], #[trigger] ks[j]) by {
            assert(text_lt(whole[i].0@, whole[j].0@));
        }
        assert(grouped_by(out@, ids@, keys@, kind, unnamed@, ks));
    }
    out
}

/// The region a room's meta names, or nothing.
pub open spec fn region_key_of(meta: Seq<String>) -> Seq<char>
    decreases meta.len(),
{
    if meta.len() == 0 {
        Seq::empty()
    } else if has_prefix(meta[0]@, "region:"@) {
        meta[0]@.skip(7)
    } else {
        region_key_of(meta.drop_first())
    }
}

/// Each room's region key, in order.
pub open spec fn region_keys(rs: Seq<Room>) -> Seq<Seq<char>>
    decreases rs.len(),
{
    if rs.len() == 0 {
        Seq::empty()
    } else {
        region_keys(rs.drop_last()).push(region_key_of(rs.last().meta@))
    }
}

/// The text after a `region:` prefix, if the string has one.
fn strip_region(s: &str) -> (r: Option<String>)
    ensures
        r is Some <==> has_prefix(s@, "region:"@),
        r matches Some(t) ==> t@ == s@.skip(7),
{
    let v = chars_of(s);
    let p = chars_of("region:");
    proof {
        reveal_strlit("region:");
    }
    if occurs_at_exec(&v, &p, 0) {
        let mut out: Vec<char> = Vec::new();
        let mut k: usize = 7;
        while k < v.len()
            invariant
                7 <= k <= v@.len(),
                out@ == v@.subrange(7, k as int),
            decreases v.len() - k,
        {
            out.push(v[k]);
            assert(v@.subrange(7, k + 1) =~= v@.subrange(7, k as int).push(v@[k as int]));
            k = k + 1;
        }
        assert(v@.subrange(7, v@.len() as int) =~= v@.skip(7));
        Some(string_of(&out))
    } else {
        None
    }
}

/// The region a room's meta names.
fn region_key(room: &Room) -> (k: String)
    ensures
        k@ == region_key_of(room.meta@),
{
    let mut i: usize = 0;
    assert(room.meta@.skip(0) =~= room.meta@);
    while i < room.meta.len()
        invariant
            i <= room.meta@.len(),
            region_key_of(room.meta@) == region_key_of(room.meta@.skip(i as int)),
        decreases room.meta.len() - i,
    {
        assert(room.meta@.skip(i as int).drop_first() =~= room.meta@.skip(i + 1));
        assert(room.meta@.skip(i as int)[0] == room.meta@[i as int]);
        match strip_region(room.meta[i].as_str()) {
            Some(t) => {
                return t;
            },
            None => {},
        }
        i = i + 1;
    }
    proof {
        assert(room.meta@.skip(i as int) =~= Seq::<String>::empty());
    }
    String::new()
}

/// Every distinct region, with its rooms; rooms with none are collected
/// under "(no region)". It claims nothing and drops nothing: every room
/// of the map is in exactly one entry.
pub fn region_areas(map: &RoomMap) -> (out: Vec<Area>)
    ensures
        grouped(out@, ids_of(map@), region_keys(map@), AreaKind::Region, "(no region)"@),
        forall|i: int| 0 <= i < map@.len() ==> lists_room(out@, #[trigger] map@[i].id),
{
    let rooms = map.rooms();
    let mut ids: Vec<RoomId> = Vec::new();
    let mut keys: Vec<String> = Vec::new();
    let mut i: usize = 0;
    while i < rooms.len()
        invariant
            i <= rooms@.len(),
            rooms@ == map@,
            ids@.len() == i,
            keys@.len() == i,
            ids@ == ids_of(map@.take(i as int)),
            keys@.map_values(|s: String| s@) == region_keys(map@.take(i as int)),
        decreases rooms.len() - i,
    {
        assert(map@.take(i + 1).drop_last() =~= map@.take(i as int));
        assert(map@.take(i + 1).last() == map@[i as int]);
        ids.push(rooms[i].id);
        let ghost before = keys@;
        keys.push(region_key(&rooms[i]));
        assert(keys@.map_values(|s: String| s@) =~= before.map_values(|s: String| s@).push(keys@[i as int]@));
        i = i + 1;
    }
    assert(map@.take(map@.len() as int) =~= map@);
    let groups = group_by_key(&ids, &keys);
    proof {
        reveal_strlit("(no region)");
    }
    let out = areas_of_groups(
        groups,
        AreaKind::Region,
        "(no region)",
        Ghost(ids@),
        Ghost(keys@.map_values(|s: String| s@)),
    );
    proof {
        crate::derived::lemma_ids_of(map@);
        assert forall|i: int| 0 <= i < map@.len() implies lists_room(out@, #[trigger] map@[i].id) by {
            lemma_grouped_covers(out@, ids_of(map@), region_keys(map@), AreaKind::Region, "(no region)"@, i);
            assert(ids_of(map@)[i] == map@[i].id);
        }
    }
    out
}


/// The rooms no official area claimed, in order.
pub open spec fn unclaimed(rs: Seq<Room>, claimed: Seq<RoomId>) -> Seq<Room>
    decreases rs.len(),
{
    if rs.len() == 0 {
        Seq::empty()
    } else if claimed.contains(rs.last().id) {
        unclaimed(rs.drop_last(), claimed)
    } else {
        unclaimed(rs.drop_last(), claimed).push(rs.last())
    }
}

/// Each room's location, or nothing.
pub open spec fn location_keys(rs: Seq<Room>) -> Seq<Seq<char>>
    decreases rs.len(),
{
    if rs.len() == 0 {
        Seq::empty()
    } else {
        location_keys(rs.drop_last()).push(
            match rs.last().location {
                Some(l) => l@,
                None => Seq::empty(),
            },
        )
    }
}

/// Whether the list holds this id.
fn holds_id(list: &[RoomId], id: RoomId) -> (b: bool)
    ensures
        b == list@.contains(id),
{
    let mut k: usize = 0;
    while k < list.len()
        invariant
            k <= list@.len(),
            forall|q: int| 0 <= q < k ==> list@[q] != id,
        decreases list.len() - k,
    {
        if list[k].0 == id.0 {
            assert(list@[k as int] == id);
            return true;
        }
        k = k + 1;
    }
    false
}

/// Some entry holds the room `x`.
pub open spec fn lists_room(out: Seq<Area>, x: RoomId) -> bool {
    exists|a: int| 0 <= a < out.len() && (#[trigger] out[a]).rooms@.contains(x)
}

/// The rooms left unclaimed are the map's rooms that `c` does not hold.
proof fn lemma_unclaimed_ids(rs: Seq<Room>, c: Seq<RoomId>)
    ensures
        forall|x: RoomId| #[trigger] ids_of(unclaimed(rs, c)).contains(x) ==> !c.contains(x) && has_room(rs, x),
        forall|i: int|
            0 <= i < rs.len() && !c.contains(rs[i].id) ==> ids_of(unclaimed(rs, c)).contains(#[trigger] rs[i].id),
    decreases rs.len(),
{
    if rs.len() > 0 {
        let d = rs.drop_last();
        let last = rs.last();
        lemma_unclaimed_ids(d, c);
        let u = ids_of(unclaimed(d, c));
        let w = ids_of(unclaimed(rs, c));
        if c.contains(last.id) {
            assert(unclaimed(rs, c) == unclaimed(d, c));
            assert(w == u);
        } else {
            assert(unclaimed(rs, c) == unclaimed(d, c).push(last));
            assert(unclaimed(rs, c).drop_last() =~= unclaimed(d, c));
            assert(w == u.push(last.id));
        }
        assert forall|x: RoomId| #[trigger] w.contains(x) implies !c.contains(x) && has_room(rs, x) by {
            if u.contains(x) {
                let j = choose|j: int| 0 <= j < d.len() && #[trigger] d[j].id == x;
                assert(rs[j].id == x);
            } else {
                let k = choose|k: int| 0 <= k < w.len() && w[k] == x;
                if k < u.len() {
                    assert(u[k] == x);
                }
                assert(rs[rs.len() - 1].id == x);
            }
        }
        assert forall|i: int| 0 <= i < rs.len() && !c.contains(rs[i].id) implies w.contains(#[trigger] rs[i].id) by {
            if i < d.len() {
                assert(d[i].id == rs[i].id);
                let k = choose|k: int| 0 <= k < u.len() && u[k] == rs[i].id;
                assert(w[k] == rs[i].id);
            } else {
                assert(w[u.len() as int] == rs[i].id);
            }
        }
    }
}

/// Every distinct location among the rooms no official area `claimed`,
/// with its rooms; rooms with none are collected under "(no location)".
/// A location all of whose rooms are claimed drops out.
pub fn location_areas(map: &RoomMap, claimed: &[RoomId]) -> (out: Vec<Area>)
    ensures
        grouped(
            out@,
            ids_of(unclaimed(map@, claimed@)),
            location_keys(unclaimed(map@, claimed@)),
            AreaKind::Location,
            "(no location)"@,
        ),
        forall|a: int, x: RoomId|
            0 <= a < out@.len() && #[trigger] out@[a].rooms@.contains(x) ==> !claimed@.contains(x) && has_room(
                map@,
                x,
            ),
        forall|i: int|
            0 <= i < map@.len() && !claimed@.contains(map@[i].id) ==> lists_room(out@, #[trigger] map@[i].id),
{
    let rooms = map.rooms();
    let mut ids: Vec<RoomId> = Vec::new();
    let mut keys: Vec<String> = Vec::new();
    let mut i: usize = 0;
    while i < rooms.len()
        invariant
            i <= rooms@.len(),
            rooms@ == map@,
            ids@.len() == keys@.len(),
            ids@ == ids_of(unclaimed(map@.take(i as int), claimed@)),
            keys@.map_values(|s: String| s@) == location_keys(unclaimed(map@.take(i as int), claimed@)),
        decreases rooms.len() - i,
    {
        let ghost t = map@.take(i + 1);
        assert(t.drop_last() =~= map@.take(i as int));
        assert(t.last() == map@[i as int]);
        if !holds_id(claimed, rooms[i].id) {
            ids.push(rooms[i].id);
            let ghost before = keys@;
            let key = match &rooms[i].location {
                Some(l) => l.clone(),
                None => String::new(),
            };
            keys.push(key);
            proof {
                let p = unclaimed(t, claimed@);
                assert(p == unclaimed(map@.take(i as int), claimed@).push(map@[i as int]));
                assert(p.drop_last() == unclaimed(map@.take(i as int), claimed@));
                assert(p.last() == map@[i as int]);
                assert(keys@.map_values(|s: String| s@) =~= before.map_values(|s: String| s@).push(keys@[before.len() as int]@));
            }
        }
        i = i + 1;
    }
    assert(map@.take(map@.len() as int) =~= map@);
    let groups = group_by_key(&ids, &keys);
    proof {
        reveal_strlit("(no location)");
    }
    let out = areas_of_groups(
        groups,
        AreaKind::Location,
        "(no location)",
        Ghost(ids@),
        Ghost(keys@.map_values(|s: String| s@)),
    );
    proof {
        let u = unclaimed(map@, claimed@);
        let ks = location_keys(u);
        lemma_unclaimed_ids(map@, claimed@);
        assert forall|a: int, x: RoomId|
            0 <= a < out@.len() && #[trigger] out@[a].rooms@.contains(x) implies !claimed@.contains(x) && has_room(
            map@,
            x,
        ) by {
            lemma_grouped_within(out@, ids_of(u), ks, AreaKind::Location, "(no location)"@, a, x);
        }
        assert forall|i: int| 0 <= i < map@.len() && !claimed@.contains(map@[i].id) implies lists_room(
            out@,
            #[trigger] map@[i].id,
        ) by {
            let x = map@[i].id;
            assert(ids_of(u).contains(x));
            let q = choose|q: int| 0 <= q < ids_of(u).len() && ids_of(u)[q] == x;
            lemma_grouped_covers(out@, ids_of(u), ks, AreaKind::Location, "(no location)"@, q);
        }
    }
    out
}

/// The rooms moved onto some plate, in order.
pub open spec fn plated_rooms(rs: Seq<Room>, moves: Map<RoomKey, String>) -> Seq<Room>
    decreases rs.len(),
{
    if rs.len() == 0 {
        Seq::empty()
    } else if moves.contains_key(room_key_of(rs.last())) {
        plated_rooms(rs.drop_last(), moves).push(rs.last())
    } else {
        plated_rooms(rs.drop_last(), moves)
    }
}

/// The plate each of these rooms was moved onto.
pub open spec fn plate_keys(rs: Seq<Room>, moves: Map<RoomKey, String>) -> Seq<Seq<char>>
    decreases rs.len(),
{
    if rs.len() == 0 {
        Seq::empty()
    } else {
        plate_keys(rs.drop_last(), moves).push(moves[room_key_of(rs.last())]@)
    }
}

/// The name a plate is listed under: the one it was made with, or its
/// key for a plate the store does not describe.
pub open spec fn plate_title(store: MapOverrides, key: Seq<char>) -> Seq<char> {
    if store.custom_maps.view().contains_key(key) {
        store.custom_maps.view()[key].name@
    } else {
        key
    }
}

/// One area per plate that has rooms on it, in text order of the plate
/// keys, named as the person named it.
pub fn plate_areas(map: &RoomMap, store: &MapOverrides) -> (out: Vec<Area>)
    ensures
        exists|ks: Seq<Seq<char>>|
            #![trigger ks.len()]
            ks.len() == out@.len() && (forall|i: int, j: int| 0 <= i < j < ks.len() ==> text_lt(#[trigger] ks[i], #[trigger] ks[j]))
                && (forall|i: int|
                0 <= i < out@.len() ==> (#[trigger] out@[i]).kind == AreaKind::Plates && out@[i].name@ == plate_title(
                    *store,
                    ks[i],
                ) && out@[i].rooms@ == keyed_upto(
                    ids_of(plated_rooms(map@, store.membership_moves.view())),
                    plate_keys(plated_rooms(map@, store.membership_moves.view()), store.membership_moves.view()),
                    ks[i],
                    plated_rooms(map@, store.membership_moves.view()).len() as int,
                ) && out@[i].rooms@.len() > 0) && (forall|m: int|
                0 <= m < plated_rooms(map@, store.membership_moves.view()).len() ==> ks.contains(
                    #[trigger] plate_keys(plated_rooms(map@, store.membership_moves.view()), store.membership_moves.view())[m],
                )),
{
    let ghost moves = store.membership_moves.view();
    let rooms = map.rooms();
    let mut ids: Vec<RoomId> = Vec::new();
    let mut keys: Vec<String> = Vec::new();
    let mut i: usize = 0;
    while i < rooms.len()
        invariant
            i <= rooms@.len(),
            rooms@ == map@,
            moves == store.membership_moves.view(),
            ids@.len() == keys@.len(),
            ids@ == ids_of(plated_rooms(map@.take(i as int), moves)),
            keys@.map_values(|s: String| s@) == plate_keys(plated_rooms(map@.take(i as int), moves), moves),
        decreases rooms.len() - i,
    {
        let ghost t = map@.take(i + 1);
        assert(t.drop_last() =~= map@.take(i as int));
        assert(t.last() == map@[i as int]);
        let key = room_key(&rooms[i]);
        match store.membership_moves.get(key) {
            Some(plate) => {
                ids.push(rooms[i].id);
                let ghost before = keys@;
                keys.push(plate.clone());
                proof {
                    let p = plated_rooms(t, moves);
                    assert(p == plated_rooms(map@.take(i as int), moves).push(map@[i as int]));
                    assert(p.drop_last() == plated_rooms(map@.take(i as int), moves));
                    assert(p.last() == map@[i as int]);
                    assert(keys@.map_values(|s: String| s@) =~= before.map_values(|s: String| s@).push(keys@[before.len() as int]@));
                }
            },
            None => {},
        }
        i = i + 1;
    }
    assert(map@.take(map@.len() as int) =~= map@);
    let ghost kv = keys@.map_values(|s: String| s@);
    let groups = group_by_key(&ids, &keys);
    let mut out: Vec<Area> = Vec::new();
    let mut j: usize = 0;
    while j < groups.len()
        invariant
            j <= groups@.len(),
            out@.len() == j,
            forall|q: int| 0 <= q < j ==> (#[trigger] out@[q]).kind == AreaKind::Plates && out@[q].name@ == plate_title(
                *store,
                groups@[q].0@,
            ) && out@[q].rooms@ == groups@[q].1@,
        decreases groups.len() - j,
    {
        let name = store.plate_name(groups[j].0.as_str()).to_string();
        let mut rooms_here: Vec<RoomId> = Vec::new();
        let v = &groups[j].1;
        let mut t: usize = 0;
        while t < v.len()
            invariant
                t <= v@.len(),
                rooms_here@ == v@.take(t as int),
            decreases v.len() - t,
        {
            rooms_here.push(v[t]);
            assert(v@.take(t + 1) =~= v@.take(t as int).push(v@[t as int]));
            t = t + 1;
        }
        assert(v@.take(v@.len() as int) =~= v@);
        out.push(Area { name, kind: AreaKind::Plates, rooms: rooms_here });
        j = j + 1;
    }
    proof {
        let pr = plated_rooms(map@, moves);
        crate::derived::lemma_ids_of(pr);
        assert(ids@.len() == pr.len());
        let ks = groups@.map_values(|g: (String, Vec<RoomId>)| g.0@);
        assert(ks.len() == out@.len());
        assert forall|i: int, j: int| 0 <= i < j < ks.len() implies text_lt(#[trigger] ks[i], #[trigger] ks[j]) by {
            assert(text_lt(groups@[i].0@, groups@[j].0@));
        }
        assert forall|m: int| 0 <= m < kv.len() implies ks.contains(#[trigger] kv[m]) by {
            assert(kv[m] == keys@[m]@);
            assert(key_listed(groups@, keys@[m]@));
            let i = choose|i: int| 0 <= i < groups@.len() && (#[trigger] groups@[i]).0@ == keys@[m]@;
            assert(ks[i] == kv[m]);
        }
        assert forall|i: int|
            0 <= i < out@.len() implies (#[trigger] out@[i]).kind == AreaKind::Plates && out@[i].name@ == plate_title(
                *store,
                ks[i],
            ) && out@[i].rooms@ == keyed_upto(ids_of(pr), plate_keys(pr, moves), ks[i], pr.len() as int)
                && out@[i].rooms@.len() > 0 by {}
    }
    out
}


/// A derived area as a list entry.
pub open spec fn as_area(d: DerivedArea) -> Area {
    Area { name: d.name, kind: AreaKind::Derived, rooms: d.rooms }
}

/// The derived areas that are not isolated rooms, as list entries, in
/// order.
pub open spec fn listable(ds: Seq<DerivedArea>) -> Seq<Area>
    decreases ds.len(),
{
    if ds.len() == 0 {
        Seq::empty()
    } else if ds.last().kind == crate::derived::AreaKind::Isolated {
        listable(ds.drop_last())
    } else {
        listable(ds.drop_last()).push(as_area(ds.last()))
    }
}

proof fn lemma_text_ge_trans(a: Seq<char>, b: Seq<char>, c: Seq<char>)
    requires
        !text_lt(a, b),
        !text_lt(b, c),
    ensures
        !text_lt(a, c),
{
    if text_lt(a, c) {
        crate::keyed::lemma_text_lt_total(b, c);
        if text_lt(c, b) {
            crate::keyed::lemma_text_lt_transitive(a, c, b);
        }
    }
}

/// Entries in text order of their names; equal names keep their order.
fn sort_by_name(v: Vec<Area>) -> (out: Vec<Area>)
    ensures
        out@.to_multiset() == v@.to_multiset(),
        forall|a: int, b: int| 0 <= a < b < out@.len() ==> !text_lt((#[trigger] out@[b]).name@, (#[trigger] out@[a]).name@),
{
    broadcast use vstd::seq_lib::group_to_multiset_ensures, vstd::multiset::group_multiset_axioms;

    let ghost whole = v@;
    let mut input = v;
    let mut out: Vec<Area> = Vec::new();
    while input.len() > 0
        invariant
            out@.to_multiset().add(input@.to_multiset()) == whole.to_multiset(),
            forall|a: int, b: int| 0 <= a < b < out@.len() ==> !text_lt((#[trigger] out@[b]).name@, (#[trigger] out@[a]).name@),
        decreases input.len(),
    {
        let ghost before_in = input@;
        let a = input.pop().unwrap();
        assert(before_in =~= input@.push(a));
        let mut p: usize = 0;
        while p < out.len() && crate::keyed::text_less(out[p].name.as_str(), a.name.as_str())
            invariant
                p <= out@.len(),
                forall|q: int| 0 <= q < p ==> text_lt((#[trigger] out@[q]).name@, a.name@),
            decreases out.len() - p,
        {
            p = p + 1;
        }
        let ghost before = out@;
        out.insert(p, a);
        proof {
            vstd::seq_lib::to_multiset_insert(before, p as int, a);
            vstd::seq_lib::to_multiset_build(input@, a);
            assert(out@.to_multiset().add(input@.to_multiset()) =~= whole.to_multiset());
            assert forall|x: int, y: int| 0 <= x < y < out@.len() implies !text_lt(
                (#[trigger] out@[y]).name@,
                (#[trigger] out@[x]).name@,
            ) by {
                if y < p {
                    assert(out@[x] == before[x] && out@[y] == before[y]);
                } else if y == p {
                    assert(out@[x] == before[x]);
                    crate::keyed::lemma_text_lt_asymmetric(before[x].name@, a.name@);
                } else if x == p {
                    assert(out@[y] == before[y - 1]);
                    assert(!text_lt(before[p as int].name@, a.name@));
                    if y - 1 > p {
                        assert(!text_lt(before[y - 1].name@, before[p as int].name@));
                        lemma_text_ge_trans(before[y - 1].name@, before[p as int].name@, a.name@);
                    }
                } else if x < p {
                    assert(out@[x] == before[x] && out@[y] == before[y - 1]);
                } else {
                    assert(out@[x] == before[x - 1] && out@[y] == before[y - 1]);
                }
            }
        }
    }
    assert(input@ =~= Seq::<Area>::empty());
    assert(out@.to_multiset().add(Multiset::empty()) =~= out@.to_multiset());
    out
}

/// The derived areas as list entries: isolated rooms left out, the rest
/// in text order of their names.
pub fn derived_list(areas: Vec<DerivedArea>) -> (out: Vec<Area>)
    ensures
        out@.to_multiset() == listable(areas@).to_multiset(),
        forall|a: int, b: int| 0 <= a < b < out@.len() ==> !text_lt((#[trigger] out@[b]).name@, (#[trigger] out@[a]).name@),
{
    let ghost whole = areas@;
    assert(whole.len() == areas.len());
    let mut input = areas;
    let mut rev: Vec<DerivedArea> = Vec::new();
    while input.len() > 0
        invariant
            input@.len() + rev@.len() == whole.len(),
            whole.len() <= usize::MAX,
            forall|q: int| 0 <= q < input@.len() ==> #[trigger] input@[q] == whole[q],
            forall|q: int| 0 <= q < rev@.len() ==> #[trigger] rev@[q] == whole[whole.len() - 1 - q],
        decreases input.len(),
    {
        let a = input.pop().unwrap();
        rev.push(a);
    }
    let mut listed: Vec<Area> = Vec::new();
    let mut done: usize = 0;
    assert(whole.take(0) =~= Seq::<DerivedArea>::empty());
    while rev.len() > 0
        invariant
            done + rev@.len() == whole.len(),
            whole.len() <= usize::MAX,
            forall|q: int| 0 <= q < rev@.len() ==> #[trigger] rev@[q] == whole[whole.len() - 1 - q],
            listed@ == listable(whole.take(done as int)),
        decreases rev.len(),
    {
        let d = rev.pop().unwrap();
        assert(d == whole[done as int]);
        assert(whole.take(done + 1).drop_last() =~= whole.take(done as int));
        match d.kind {
            crate::derived::AreaKind::Isolated => {},
            _ => {
                listed.push(Area { name: d.name, kind: AreaKind::Derived, rooms: d.rooms });
            },
        }
        done = done + 1;
    }
    assert(whole.take(whole.len() as int) =~= whole);
    sort_by_name(listed)
}

proof fn lemma_listable_kind(ds: Seq<DerivedArea>)
    ensures
        forall|k: int| 0 <= k < listable(ds).len() ==> (#[trigger] listable(ds)[k]).kind == AreaKind::Derived,
    decreases ds.len(),
{
    if ds.len() > 0 {
        lemma_listable_kind(ds.drop_last());
    }
}

/// The graph's own grouping, by name; isolated rooms are left out.
pub fn derived_areas(map: &RoomMap) -> (out: Vec<Area>)
    ensures
        forall|a: int| 0 <= a < out@.len() ==> (#[trigger] out@[a]).kind == AreaKind::Derived,
        forall|a: int, b: int| 0 <= a < b < out@.len() ==> !text_lt((#[trigger] out@[b]).name@, (#[trigger] out@[a]).name@),
        exists|ds: Seq<DerivedArea>|
            #[trigger] derived_grouping(map@, ds) && out@.to_multiset() == listable(ds).to_multiset(),
{
    let ds = derive_areas(map);
    let ghost dv = ds@;
    assert(derived_grouping(map@, dv));
    let out = derived_list(ds);
    proof {
        lemma_listable_kind(dv);
        assert forall|a: int| 0 <= a < out@.len() implies (#[trigger] out@[a]).kind == AreaKind::Derived by {
            let d = out@[a];
            vstd::seq_lib::to_multiset_contains(out@, d);
            vstd::seq_lib::to_multiset_contains(listable(dv), d);
            assert(out@.contains(d));
            assert(listable(dv).contains(d));
        }
    }
    out
}


// ---------------------------------------------------------------------
// The rooms to lay an area out from
// ---------------------------------------------------------------------

/// Some exit of room `r` leads to `x`.
pub open spec fn points_at(r: Room, x: RoomId) -> bool {
    exists|e: int| 0 <= e < r.exits@.len() && (#[trigger] r.exits@[e]).to == x
}

/// Some room of the map outside the area has an exit to `x`.
pub open spec fn entered_from(map: Seq<Room>, own: Seq<RoomId>, x: RoomId, n: RoomId) -> bool {
    !own.contains(n) && exists|i: int| 0 <= i < map.len() && (#[trigger] map[i]).id == n && points_at(map[i], x)
}

/// Room `n` of the map is a neighbour of room `r` of the area: an exit of
/// `r` leads to it, or it lies outside the area and an exit of its own
/// leads to `r`.
pub open spec fn neighbour_of(map: Seq<Room>, own: Seq<RoomId>, r: Room, n: RoomId) -> bool {
    has_room(map, n) && (points_at(r, n) || entered_from(map, own, r.id, n))
}

/// Room `r` has neighbours, none of them in the area: the boundary cut it
/// off.
pub open spec fn stranded(map: Seq<Room>, own: Seq<RoomId>, r: Room) -> bool {
    &&& exists|n: RoomId| #[trigger] neighbour_of(map, own, r, n)
    &&& forall|n: RoomId| #[trigger] neighbour_of(map, own, r, n) ==> !own.contains(n)
}

/// Room `n` is pulled in: it neighbours a stranded room of the area.
pub open spec fn pulled_in(map: Seq<Room>, own: Seq<RoomId>, n: RoomId) -> bool {
    exists|k: int|
        0 <= k < own.len() && #[trigger] room_of(map, own[k]) is Some && stranded(map, own, room_of(map, own[k])->0)
            && neighbour_of(map, own, room_of(map, own[k])->0, n)
}

/// The rooms of the map these ids name, in order.
pub open spec fn present(map: Seq<Room>, ids: Seq<RoomId>) -> Seq<Room>
    decreases ids.len(),
{
    if ids.len() == 0 {
        Seq::empty()
    } else {
        match room_of(map, ids.last()) {
            Some(r) => present(map, ids.drop_last()).push(r),
            None => present(map, ids.drop_last()),
        }
    }
}

/// Doorways into the area from outside it: (area room, outside room).
fn inbound_pairs(own: &[RoomId], map: &RoomMap) -> (out: Vec<(RoomId, RoomId)>)
    ensures
        forall|x: RoomId, n: RoomId|
            #[trigger] out@.contains((x, n)) <==> own@.contains(x) && entered_from(map@, own@, x, n),
{
    let rooms = map.rooms();
    let mut out: Vec<(RoomId, RoomId)> = Vec::new();
    let mut i: usize = 0;
    while i < rooms.len()
        invariant
            i <= rooms@.len(),
            rooms@ == map@,
            forall|x: RoomId, n: RoomId|
                #[trigger] out@.contains((x, n)) <==> own@.contains(x) && !own@.contains(n) && exists|q: int|
                    0 <= q < i && (#[trigger] map@[q]).id == n && points_at(map@[q], x),
        decreases rooms.len() - i,
    {
        let room = &rooms[i];
        if !holds_id(own, room.id) {
            let mut e: usize = 0;
            while e < room.exits.len()
                invariant
                    i < rooms@.len(),
                    rooms@ == map@,
                    *room == map@[i as int],
                    !own@.contains(room.id),
                    e <= room.exits@.len(),
                    forall|x: RoomId, n: RoomId|
                        #[trigger] out@.contains((x, n)) <==> own@.contains(x) && !own@.contains(n) && ((exists|q: int|
                            0 <= q < i && (#[trigger] map@[q]).id == n && points_at(map@[q], x)) || (n == room.id
                            && exists|w: int| 0 <= w < e && (#[trigger] room.exits@[w]).to == x)),
                decreases room.exits.len() - e,
            {
                let to = room.exits[e].to;
                let ghost before = out@;
                if holds_id(own, to) {
                    out.push((to, room.id));
                }
                proof {
                    assert forall|x: RoomId, n: RoomId|
                        #[trigger] out@.contains((x, n)) <==> own@.contains(x) && !own@.contains(n) && ((exists|q: int|
                            0 <= q < i && (#[trigger] map@[q]).id == n && points_at(map@[q], x)) || (n == room.id
                            && exists|w: int| 0 <= w < e + 1 && (#[trigger] room.exits@[w]).to == x)) by {
                        if out@.contains((x, n)) && !before.contains((x, n)) {
                            let q = choose|q: int| 0 <= q < out@.len() && out@[q] == (x, n);
                            assert(q == before.len());
                            assert(room.exits@[e as int].to == x);
                        }
                        if before.contains((x, n)) {
                            let q = choose|q: int| 0 <= q < before.len() && before[q] == (x, n);
                            assert(out@[q] == (x, n));
                        }
                        if n == room.id && own@.contains(x) && !own@.contains(n) && room.exits@[e as int].to == x {
                            assert(out@[before.len() as int] == (x, n));
                        }
                        if n == room.id && exists|w: int| 0 <= w < e + 1 && (#[trigger] room.exits@[w]).to == x {
                            let w = choose|w: int| 0 <= w < e + 1 && (#[trigger] room.exits@[w]).to == x;
                            if w < e {
                                assert(exists|w: int| 0 <= w < e && (#[trigger] room.exits@[w]).to == x);
                            }
                        }
                    }
                }
                e = e + 1;
            }
            proof {
                assert forall|x: RoomId, n: RoomId|
                    #[trigger] out@.contains((x, n)) <==> own@.contains(x) && !own@.contains(n) && exists|q: int|
                        0 <= q < i + 1 && (#[trigger] map@[q]).id == n && points_at(map@[q], x) by {
                    if n == room.id && own@.contains(x) && !own@.contains(n) && exists|q: int|
                        0 <= q < i + 1 && (#[trigger] map@[q]).id == n && points_at(map@[q], x) {
                        let q = choose|q: int| 0 <= q < i + 1 && (#[trigger] map@[q]).id == n && points_at(map@[q], x);
                        if q == i {
                            let w = choose|w: int| 0 <= w < map@[q].exits@.len() && (#[trigger] map@[q].exits@[w]).to == x;
                            assert(room.exits@[w].to == x);
                        }
                    }
                    if n == room.id && exists|w: int| 0 <= w < room.exits@.len() && (#[trigger] room.exits@[w]).to == x {
                        assert(map@[i as int].id == n);
                        assert(points_at(map@[i as int], x));
                    }
                }
            }
        } else {
            proof {
                assert forall|x: RoomId, n: RoomId|
                    #[trigger] out@.contains((x, n)) <==> own@.contains(x) && !own@.contains(n) && exists|q: int|
                        0 <= q < i + 1 && (#[trigger] map@[q]).id == n && points_at(map@[q], x) by {
                    if own@.contains(x) && !own@.contains(n) && exists|q: int|
                        0 <= q < i + 1 && (#[trigger] map@[q]).id == n && points_at(map@[q], x) {
                        let q = choose|q: int| 0 <= q < i + 1 && (#[trigger] map@[q]).id == n && points_at(map@[q], x);
                        if q == i {
                            assert(own@.contains(room.id));
                        }
                    }
                }
            }
        }
        i = i + 1;
    }
    out
}


/// The neighbours of room `r` of the area.
fn neighbours_in(
    r: &Room,
    own: &[RoomId],
    map: &RoomMap,
    inbound: &Vec<(RoomId, RoomId)>,
) -> (out: Vec<RoomId>)
    requires
        own@.contains(r.id),
        forall|x: RoomId, n: RoomId|
            #[trigger] inbound@.contains((x, n)) <==> own@.contains(x) && entered_from(map@, own@, x, n),
    ensures
        forall|n: RoomId| #[trigger] out@.contains(n) <==> neighbour_of(map@, own@, *r, n),
{
    let mut out: Vec<RoomId> = Vec::new();
    let mut e: usize = 0;
    while e < r.exits.len()
        invariant
            e <= r.exits@.len(),
            forall|n: RoomId|
                #[trigger] out@.contains(n) <==> has_room(map@, n) && exists|w: int| 0 <= w < e && (#[trigger] r.exits@[w]).to == n,
        decreases r.exits.len() - e,
    {
        let to = r.exits[e].to;
        let ghost before = out@;
        if map.contains(to) {
            out.push(to);
        }
        proof {
            assert forall|n: RoomId|
                #[trigger] out@.contains(n) <==> has_room(map@, n) && exists|w: int| 0 <= w < e + 1 && (#[trigger] r.exits@[w]).to == n by {
                if out@.contains(n) && !before.contains(n) {
                    let q = choose|q: int| 0 <= q < out@.len() && out@[q] == n;
                    assert(q == before.len());
                    assert(r.exits@[e as int].to == n);
                }
                if before.contains(n) {
                    let q = choose|q: int| 0 <= q < before.len() && before[q] == n;
                    assert(out@[q] == n);
                }
                if has_room(map@, n) && exists|w: int| 0 <= w < e + 1 && (#[trigger] r.exits@[w]).to == n {
                    let w = choose|w: int| 0 <= w < e + 1 && (#[trigger] r.exits@[w]).to == n;
                    if w == e {
                        assert(out@[before.len() as int] == n);
                    } else {
                        assert(exists|w: int| 0 <= w < e && (#[trigger] r.exits@[w]).to == n);
                    }
                }
            }
        }
        e = e + 1;
    }
    let ghost after_exits = out@;
    let mut q: usize = 0;
    while q < inbound.len()
        invariant
            q <= inbound@.len(),
            own@.contains(r.id),
            forall|x: RoomId, n: RoomId|
                #[trigger] inbound@.contains((x, n)) <==> own@.contains(x) && entered_from(map@, own@, x, n),
            forall|n: RoomId|
                #[trigger] out@.contains(n) <==> (has_room(map@, n) && points_at(*r, n)) || exists|w: int|
                    0 <= w < q && (#[trigger] inbound@[w]) == (r.id, n),
        decreases inbound.len() - q,
    {
        let (x, n0) = inbound[q];
        let ghost before = out@;
        if x.0 == r.id.0 {
            out.push(n0);
        }
        proof {
            assert forall|n: RoomId|
                #[trigger] out@.contains(n) <==> (has_room(map@, n) && points_at(*r, n)) || exists|w: int|
                    0 <= w < q + 1 && (#[trigger] inbound@[w]) == (r.id, n) by {
                if out@.contains(n) && !before.contains(n) {
                    let k = choose|k: int| 0 <= k < out@.len() && out@[k] == n;
                    assert(k == before.len());
                    assert(inbound@[q as int] == (r.id, n));
                }
                if before.contains(n) {
                    let k = choose|k: int| 0 <= k < before.len() && before[k] == n;
                    assert(out@[k] == n);
                }
                if exists|w: int| 0 <= w < q + 1 && (#[trigger] inbound@[w]) == (r.id, n) {
                    let w = choose|w: int| 0 <= w < q + 1 && (#[trigger] inbound@[w]) == (r.id, n);
                    if w == q {
                        assert(out@[before.len() as int] == n);
                    } else {
                        assert(exists|w: int| 0 <= w < q && (#[trigger] inbound@[w]) == (r.id, n));
                    }
                }
            }
        }
        q = q + 1;
    }
    proof {
        assert forall|n: RoomId| #[trigger] out@.contains(n) <==> neighbour_of(map@, own@, *r, n) by {
            if exists|w: int| 0 <= w < inbound@.len() && (#[trigger] inbound@[w]) == (r.id, n) {
                let w = choose|w: int| 0 <= w < inbound@.len() && (#[trigger] inbound@[w]) == (r.id, n);
                assert(inbound@.contains((r.id, n)));
                let i = choose|i: int| 0 <= i < map@.len() && (#[trigger] map@[i]).id == n && points_at(map@[i], r.id);
                assert(has_room(map@, n));
            }
            if entered_from(map@, own@, r.id, n) {
                assert(inbound@.contains((r.id, n)));
                let w = choose|w: int| 0 <= w < inbound@.len() && inbound@[w] == (r.id, n);
                assert(exists|w: int| 0 <= w < inbound@.len() && (#[trigger] inbound@[w]) == (r.id, n));
            }
        }
    }
    out
}

/// The rooms to lay an area out from: its own, in order, and after them,
/// each once, the neighbours of every room the area boundary cut off from
/// all its own, so a stranded room stays attached to the building it
/// opens off. An area that is already whole is laid out from exactly its
/// own rooms.
pub fn layout_rooms<'a>(area_rooms: &[RoomId], map: &'a RoomMap) -> (out: Vec<&'a Room>)
    ensures
        out@.len() >= present(map@, area_rooms@).len(),
        forall|k: int| 0 <= k < present(map@, area_rooms@).len() ==> *out@[k] == present(map@, area_rooms@)[k],
        forall|k: int|
            present(map@, area_rooms@).len() <= k < out@.len() ==> room_of(map@, (#[trigger] out@[k]).id) == Some(*out@[k])
                && pulled_in(map@, area_rooms@, out@[k].id) && !area_rooms@.contains(out@[k].id),
        forall|k1: int, k2: int|
            present(map@, area_rooms@).len() <= k1 < out@.len() && present(map@, area_rooms@).len() <= k2 < out@.len()
                && k1 != k2 ==> (#[trigger] out@[k1]).id != (#[trigger] out@[k2]).id,
        forall|n: RoomId| #[trigger] pulled_in(map@, area_rooms@, n) ==> exists|k: int|
            present(map@, area_rooms@).len() <= k < out@.len() && (#[trigger] out@[k]).id == n,
{
    let own = area_rooms;
    let inbound = inbound_pairs(own, map);
    let mut pulled: Vec<RoomId> = Vec::new();
    let mut k: usize = 0;
    while k < own.len()
        invariant
            k <= own@.len(),
            forall|x: RoomId, n: RoomId|
                #[trigger] inbound@.contains((x, n)) <==> own@.contains(x) && entered_from(map@, own@, x, n),
            pulled@.no_duplicates(),
            forall|n: RoomId|
                #[trigger] pulled@.contains(n) <==> exists|j: int|
                    0 <= j < k && #[trigger] room_of(map@, own@[j]) is Some && stranded(map@, own@, room_of(map@, own@[j])->0)
                        && neighbour_of(map@, own@, room_of(map@, own@[j])->0, n),
        decreases own.len() - k,
    {
        let ghost before = pulled@;
        match map.room(own[k]) {
            Some(r) => {
                assert(r.id == own@[k as int]) by {
                    let i = choose|i: int| 0 <= i < map@.len() && #[trigger] map@[i].id == own@[k as int];
                }
                assert(own@.contains(r.id)) by {
                    assert(own@[k as int] == r.id);
                }
                let nbrs = neighbours_in(r, own, map, &inbound);
                let mut any_own = false;
                let mut t: usize = 0;
                while t < nbrs.len()
                    invariant
                        t <= nbrs@.len(),
                        any_own == exists|w: int| 0 <= w < t && own@.contains(#[trigger] nbrs@[w]),
                    decreases nbrs.len() - t,
                {
                    if holds_id(own, nbrs[t]) {
                        any_own = true;
                    }
                    t = t + 1;
                }
                let cut_off = nbrs.len() > 0 && !any_own;
                proof {
                    if cut_off {
                        assert(nbrs@.contains(nbrs@[0]));
                        assert(neighbour_of(map@, own@, *r, nbrs@[0]));
                        assert forall|n: RoomId| #[trigger] neighbour_of(map@, own@, *r, n) implies !own@.contains(n) by {
                            assert(nbrs@.contains(n));
                            let w = choose|w: int| 0 <= w < nbrs@.len() && nbrs@[w] == n;
                        }
                        assert(stranded(map@, own@, *r));
                    } else {
                        if stranded(map@, own@, *r) {
                            let n = choose|n: RoomId| #[trigger] neighbour_of(map@, own@, *r, n);
                            assert(nbrs@.contains(n));
                            if any_own {
                                let w = choose|w: int| 0 <= w < nbrs@.len() && own@.contains(#[trigger] nbrs@[w]);
                                assert(nbrs@.contains(nbrs@[w]));
                            }
                        }
                    }
                }
                if cut_off {
                    let mut t: usize = 0;
                    while t < nbrs.len()
                        invariant
                            t <= nbrs@.len(),
                            pulled@.no_duplicates(),
                            forall|n: RoomId|
                                #[trigger] pulled@.contains(n) <==> before.contains(n) || exists|w: int|
                                    0 <= w < t && #[trigger] nbrs@[w] == n,
                        decreases nbrs.len() - t,
                    {
                        let n = nbrs[t];
                        let ghost b2 = pulled@;
                        if !holds_id(pulled.as_slice(), n) {
                            pulled.push(n);
                        }
                        proof {
                            assert forall|m: RoomId|
                                #[trigger] pulled@.contains(m) <==> before.contains(m) || exists|w: int|
                                    0 <= w < t + 1 && #[trigger] nbrs@[w] == m by {
                                if pulled@.contains(m) && !b2.contains(m) {
                                    let q = choose|q: int| 0 <= q < pulled@.len() && pulled@[q] == m;
                                    assert(q == b2.len());
                                    assert(nbrs@[t as int] == m);
                                }
                                if b2.contains(m) {
                                    let q = choose|q: int| 0 <= q < b2.len() && b2[q] == m;
                                    assert(pulled@[q] == m);
                                }
                                if exists|w: int| 0 <= w < t + 1 && #[trigger] nbrs@[w] == m {
                                    let w = choose|w: int| 0 <= w < t + 1 && #[trigger] nbrs@[w] == m;
                                    if w == t && !b2.contains(m) {
                                        assert(pulled@[b2.len() as int] == m);
                                    } else if w < t {
                                        assert(exists|w: int| 0 <= w < t && #[trigger] nbrs@[w] == m);
                                    }
                                }
                            }
                            if !b2.contains(n) {
                                assert forall|a: int, b: int| 0 <= a < pulled@.len() && 0 <= b < pulled@.len() && a != b
                                    implies pulled@[a] != pulled@[b] by {
                                    if a == b2.len() {
                                        assert(pulled@[b] == b2[b]);
                                    } else if b == b2.len() {
                                        assert(pulled@[a] == b2[a]);
                                    }
                                }
                            }
                        }
                        t = t + 1;
                    }
                }
                proof {
                    assert(room_of(map@, own@[k as int]) == Some(*r));
                    assert forall|n: RoomId|
                        #[trigger] pulled@.contains(n) <==> exists|j: int|
                            0 <= j < k + 1 && #[trigger] room_of(map@, own@[j]) is Some && stranded(
                                map@,
                                own@,
                                room_of(map@, own@[j])->0,
                            ) && neighbour_of(map@, own@, room_of(map@, own@[j])->0, n) by {
                        if cut_off && exists|w: int| 0 <= w < nbrs@.len() && #[trigger] nbrs@[w] == n {
                            let w = choose|w: int| 0 <= w < nbrs@.len() && #[trigger] nbrs@[w] == n;
                            assert(nbrs@.contains(n));
                        }
                        if exists|j: int|
                            0 <= j < k + 1 && #[trigger] room_of(map@, own@[j]) is Some && stranded(
                                map@,
                                own@,
                                room_of(map@, own@[j])->0,
                            ) && neighbour_of(map@, own@, room_of(map@, own@[j])->0, n) {
                            let j = choose|j: int|
                                0 <= j < k + 1 && #[trigger] room_of(map@, own@[j]) is Some && stranded(
                                    map@,
                                    own@,
                                    room_of(map@, own@[j])->0,
                                ) && neighbour_of(map@, own@, room_of(map@, own@[j])->0, n);
                            if j == k {
                                assert(nbrs@.contains(n));
                                let w = choose|w: int| 0 <= w < nbrs@.len() && nbrs@[w] == n;
                                assert(exists|w: int| 0 <= w < nbrs@.len() && #[trigger] nbrs@[w] == n);
                            } else {
                                assert(before.contains(n));
                            }
                        }
                    }
                }
            },
            None => {
                proof {
                    assert forall|n: RoomId|
                        #[trigger] pulled@.contains(n) <==> exists|j: int|
                            0 <= j < k + 1 && #[trigger] room_of(map@, own@[j]) is Some && stranded(
                                map@,
                                own@,
                                room_of(map@, own@[j])->0,
                            ) && neighbour_of(map@, own@, room_of(map@, own@[j])->0, n) by {
                        if exists|j: int|
                            0 <= j < k + 1 && #[trigger] room_of(map@, own@[j]) is Some && stranded(
                                map@,
                                own@,
                                room_of(map@, own@[j])->0,
                            ) && neighbour_of(map@, own@, room_of(map@, own@[j])->0, n) {
                            let j = choose|j: int|
                                0 <= j < k + 1 && #[trigger] room_of(map@, own@[j]) is Some && stranded(
                                    map@,
                                    own@,
                                    room_of(map@, own@[j])->0,
                                ) && neighbour_of(map@, own@, room_of(map@, own@[j])->0, n);
                            assert(j != k);
                        }
                    }
                }
            },
        }
        k = k + 1;
    }
    // The area's own rooms first, in order.
    let mut out: Vec<&Room> = Vec::new();
    let mut k: usize = 0;
    while k < own.len()
        invariant
            k <= own@.len(),
            out@.len() == present(map@, own@.take(k as int)).len(),
            forall|q: int| 0 <= q < out@.len() ==> *out@[q] == present(map@, own@.take(k as int))[q],
        decreases own.len() - k,
    {
        assert(own@.take(k + 1).drop_last() =~= own@.take(k as int));
        assert(own@.take(k + 1).last() == own@[k as int]);
        match map.room(own[k]) {
            Some(r) => {
                out.push(r);
            },
            None => {},
        }
        k = k + 1;
    }
    assert(own@.take(own@.len() as int) =~= own@);
    let ghost base = out@.len();
    let all = map.rooms();
    // Then what the stranded rooms pull in.
    let mut t: usize = 0;
    while t < pulled.len()
        invariant
            t <= pulled@.len(),
            ids_unique(map@),
            base == present(map@, own@).len(),
            out@.len() == base + t,
            forall|q: int| 0 <= q < base ==> *out@[q] == present(map@, own@)[q],
            forall|q: int| 0 <= q < t ==> (#[trigger] out@[base + q]).id == pulled@[q] && room_of(map@, pulled@[q]) == Some(*out@[base + q]),
            forall|n: RoomId|
                #[trigger] pulled@.contains(n) <==> exists|j: int|
                    0 <= j < own@.len() && #[trigger] room_of(map@, own@[j]) is Some && stranded(map@, own@, room_of(map@, own@[j])->0)
                        && neighbour_of(map@, own@, room_of(map@, own@[j])->0, n),
        decreases pulled.len() - t,
    {
        let n = pulled[t];
        assert(pulled@.contains(n)) by {
            assert(pulled@[t as int] == n);
        }
        proof {
            let j = choose|j: int|
                0 <= j < own@.len() && #[trigger] room_of(map@, own@[j]) is Some && stranded(map@, own@, room_of(map@, own@[j])->0)
                    && neighbour_of(map@, own@, room_of(map@, own@[j])->0, n);
            assert(has_room(map@, n));
            let i = choose|i: int| 0 <= i < map@.len() && #[trigger] map@[i].id == n;
            crate::model::lemma_room_of_index(map@, i);
        }
        let r = map.room(n).unwrap();
        out.push(r);
        t = t + 1;
    }
    proof {
        let p = present(map@, own@);
        assert forall|k: int| p.len() <= k < out@.len() implies room_of(map@, (#[trigger] out@[k]).id) == Some(*out@[k])
            && pulled_in(map@, own@, out@[k].id) && !own@.contains(out@[k].id) by {
            let q = k - base;
            assert(out@[base + q].id == pulled@[q]);
            assert(pulled@.contains(pulled@[q]));
            let j = choose|j: int|
                0 <= j < own@.len() && #[trigger] room_of(map@, own@[j]) is Some && stranded(map@, own@, room_of(map@, own@[j])->0)
                    && neighbour_of(map@, own@, room_of(map@, own@[j])->0, pulled@[q]);
        }
        assert forall|k1: int, k2: int|
            p.len() <= k1 < out@.len() && p.len() <= k2 < out@.len() && k1 != k2 implies (#[trigger] out@[k1]).id
            != (#[trigger] out@[k2]).id by {
            assert(out@[base + (k1 - base)].id == pulled@[k1 - base]);
            assert(out@[base + (k2 - base)].id == pulled@[k2 - base]);
        }
        assert forall|n: RoomId| #[trigger] pulled_in(map@, own@, n) implies exists|k: int|
            p.len() <= k < out@.len() && (#[trigger] out@[k]).id == n by {
            assert(pulled@.contains(n));
            let q = choose|q: int| 0 <= q < pulled@.len() && pulled@[q] == n;
            assert(out@[base + q].id == n);
        }
    }
    out
}

// ---------------------------------------------------------------------
// The official layout areas
// ---------------------------------------------------------------------

/// Each piece's characters.
pub open spec fn views(v: Seq<Vec<char>>) -> Seq<Seq<char>> {
    v.map_values(|x: Vec<char>| x@)
}

/// Where the first column called `name` stands.
pub open spec fn column_of(cols: Seq<Seq<char>>, name: Seq<char>) -> Option<int>
    decreases cols.len(),
{
    if cols.len() == 0 {
        None
    } else {
        match column_of(cols.drop_last(), name) {
            Some(i) => Some(i),
            None => if cols.last() == name {
                Some(cols.len() - 1)
            } else {
                None
            },
        }
    }
}

/// A column found among the first `m` stays the first one.
proof fn lemma_column_of_prefix(cols: Seq<Seq<char>>, name: Seq<char>, m: int)
    requires
        0 <= m <= cols.len(),
        column_of(cols.take(m), name) is Some,
    ensures
        column_of(cols, name) == column_of(cols.take(m), name),
    decreases cols.len() - m,
{
    if m == cols.len() {
        assert(cols.take(m) =~= cols);
    } else {
        assert(cols.take(m + 1).drop_last() =~= cols.take(m));
        lemma_column_of_prefix(cols, name, m + 1);
    }
}

/// Where the column called `name` stands among `cols`.
fn column_at(cols: &Vec<Vec<char>>, name: &str) -> (r: Option<usize>)
    ensures
        match r {
            Some(i) => column_of(views(cols@), name@) == Some(i as int),
            None => column_of(views(cols@), name@) is None,
        },
{
    let want = chars_of(name);
    let ghost cs = views(cols@);
    let mut i: usize = 0;
    while i < cols.len()
        invariant
            i <= cols@.len(),
            cs == views(cols@),
            want@ == name@,
            column_of(cs.take(i as int), name@) is None,
        decreases cols.len() - i,
    {
        assert(cs.take(i + 1).drop_last() =~= cs.take(i as int));
        assert(cs.take(i + 1).last() == cols@[i as int]@);
        if same_chars(&cols[i], &want) {
            proof {
                lemma_column_of_prefix(cs, name@, i + 1);
            }
            return Some(i);
        }
        i = i + 1;
    }
    assert(cs.take(i as int) =~= cs);
    None
}

/// The rooms a `room_ids` field names, read as `u32` the way `str::parse`
/// reads them, that this map has, in order.
pub open spec fn listed_ids(ws: Seq<Seq<char>>, rooms: Seq<Room>) -> Seq<RoomId>
    decreases ws.len(),
{
    if ws.len() == 0 {
        Seq::empty()
    } else {
        let before = listed_ids(ws.drop_last(), rooms);
        match unsigned_value(ws.last()) {
            Some(v) => if v <= u32::MAX && has_room(rooms, RoomId(v as u32)) {
                before.push(RoomId(v as u32))
            } else {
                before
            },
            None => before,
        }
    }
}

/// The rooms the words name that `map` has.
fn ids_in(ws: &Vec<Vec<char>>, map: &RoomMap) -> (out: Vec<RoomId>)
    ensures
        out@ == listed_ids(views(ws@), map@),
{
    let ghost vs = views(ws@);
    let mut out: Vec<RoomId> = Vec::new();
    let mut i: usize = 0;
    while i < ws.len()
        invariant
            i <= ws@.len(),
            vs == views(ws@),
            out@ == listed_ids(vs.take(i as int), map@),
        decreases ws.len() - i,
    {
        assert(vs.take(i + 1).drop_last() =~= vs.take(i as int));
        assert(vs.take(i + 1).last() == ws@[i as int]@);
        match parse_u32_chars(&ws[i]) {
            Some(v) => {
                if map.contains(RoomId(v)) {
                    out.push(RoomId(v));
                }
            },
            None => {},
        }
        i = i + 1;
    }
    assert(vs.take(i as int) =~= vs);
    out
}

/// One row as an official area, when it is an `official layout` row that
/// names at least one room of the map: its name and those rooms. `at`
/// holds where the name, source and room columns stand.
pub open spec fn official_row(line: Seq<char>, at: (int, int, int), rooms: Seq<Room>) -> Option<
    (Seq<char>, Seq<RoomId>),
> {
    let f = split_on(line, '\t');
    if at.0 < f.len() && at.1 < f.len() && at.2 < f.len() && f[at.1] == "official layout"@ {
        let ids = listed_ids(words_of(f[at.2]), rooms);
        if ids.len() > 0 {
            Some((f[at.0], ids))
        } else {
            None
        }
    } else {
        None
    }
}

/// The official areas the rows describe, in row order.
pub open spec fn official_rows(ls: Seq<Seq<char>>, at: (int, int, int), rooms: Seq<Room>) -> Seq<
    (Seq<char>, Seq<RoomId>),
>
    decreases ls.len(),
{
    if ls.len() == 0 {
        Seq::empty()
    } else {
        match official_row(ls.last(), at, rooms) {
            Some(e) => official_rows(ls.drop_last(), at, rooms).push(e),
            None => official_rows(ls.drop_last(), at, rooms),
        }
    }
}

/// Where the header line puts the `area`, `source` and `room_ids`
/// columns, when it has all three.
pub open spec fn header_columns(header: Seq<char>) -> Option<(int, int, int)> {
    let cols = split_on(header, '\t');
    match (column_of(cols, "area"@), column_of(cols, "source"@), column_of(cols, "room_ids"@)) {
        (Some(n), Some(s), Some(r)) => Some((n, s, r)),
        _ => None,
    }
}

/// The official areas a table of areas describes for a map of `rooms`:
/// nothing without a header naming the three columns, else one entry per
/// later row that [`official_row`] accepts.
pub open spec fn official_entries(tsv: Seq<char>, rooms: Seq<Room>) -> Seq<(Seq<char>, Seq<RoomId>)> {
    let ls = lines_of(tsv);
    if ls.len() == 0 {
        Seq::empty()
    } else {
        match header_columns(ls[0]) {
            Some(at) => official_rows(ls.drop_first(), at, rooms),
            None => Seq::empty(),
        }
    }
}

/// An area's name and rooms.
pub open spec fn entry_of(a: Area) -> (Seq<char>, Seq<RoomId>) {
    (a.name@, a.rooms@)
}

/// Two sequences holding the same items hold the same images of them.
proof fn lemma_map_permutation<A, B>(a: Seq<A>, b: Seq<A>, f: spec_fn(A) -> B)
    requires
        a.to_multiset() == b.to_multiset(),
    ensures
        a.map_values(f).to_multiset() == b.map_values(f).to_multiset(),
    decreases a.len(),
{
    broadcast use vstd::seq_lib::group_to_multiset_ensures, vstd::multiset::group_multiset_axioms;

    if a.len() == 0 {
        vstd::seq_lib::to_multiset_len(a);
        vstd::seq_lib::to_multiset_len(b);
        assert(b.len() == 0);
        assert(a.map_values(f) =~= Seq::<B>::empty());
        assert(b.map_values(f) =~= Seq::<B>::empty());
    } else {
        let x = a.last();
        let d = a.drop_last();
        assert(a =~= d.push(x));
        vstd::seq_lib::to_multiset_build(d, x);
        assert(b.to_multiset().count(x) > 0);
        assert(b.contains(x));
        let i = choose|i: int| 0 <= i < b.len() && b[i] == x;
        let b2 = b.remove(i);
        vstd::seq_lib::to_multiset_remove(b, i);
        assert(d.to_multiset() =~= b2.to_multiset());
        lemma_map_permutation(d, b2, f);
        assert(a.map_values(f) =~= d.map_values(f).push(f(x)));
        vstd::seq_lib::to_multiset_build(d.map_values(f), f(x));
        assert(b.map_values(f).remove(i) =~= b2.map_values(f));
        vstd::seq_lib::to_multiset_remove(b.map_values(f), i);
        assert(b.map_values(f)[i] == f(x));
        assert(b.map_values(f).to_multiset() =~= b2.map_values(f).to_multiset().insert(f(x)));
    }
}

/// The official layout areas of the table `tsv` for `map`, in text order
/// of their names: each row whose `source` is `official layout`, with the
/// rooms its `room_ids` name that the map has; a row naming none of them
/// is dropped.
pub fn official_areas(tsv: &str, map: &RoomMap) -> (out: Vec<Area>)
    ensures
        out@.map_values(|a: Area| entry_of(a)).to_multiset() == official_entries(tsv@, map@).to_multiset(),
        forall|a: int| 0 <= a < out@.len() ==> (#[trigger] out@[a]).kind == AreaKind::Official,
        forall|a: int, b: int| 0 <= a < b < out@.len() ==> !text_lt((#[trigger] out@[b]).name@, (#[trigger] out@[a]).name@),
{
    let text = chars_of(tsv);
    let spans = line_spans(&text);
    let ghost ls = lines_of(text@);
    if spans.len() == 0 {
        let out: Vec<Area> = Vec::new();
        assert(out@.map_values(|a: Area| entry_of(a)) =~= Seq::empty());
        return out;
    }
    let header = split_range(&text, spans[0].0, spans[0].1, '\t');
    proof {
        assert(views(header@) =~= split_on(ls[0], '\t'));
        reveal_strlit("area");
        reveal_strlit("source");
        reveal_strlit("room_ids");
        reveal_strlit("official layout");
    }
    let (n, s, r) = match (column_at(&header, "area"), column_at(&header, "source"), column_at(&header, "room_ids")) {
        (Some(n), Some(s), Some(r)) => (n, s, r),
        _ => {
            let out: Vec<Area> = Vec::new();
            assert(out@.map_values(|a: Area| entry_of(a)) =~= Seq::empty());
            return out;
        },
    };
    let ghost at = (n as int, s as int, r as int);
    assert(header_columns(ls[0]) == Some(at));
    let ghost rest = ls.drop_first();
    let official = chars_of("official layout");
    let mut rows: Vec<Area> = Vec::new();
    let mut i: usize = 1;
    while i < spans.len()
        invariant
            1 <= i <= spans@.len(),
            spans@.len() == ls.len(),
            ls == lines_of(text@),
            rest == ls.drop_first(),
            official@ == "official layout"@,
            forall|k: int|
                0 <= k < spans@.len() ==> (#[trigger] spans@[k]).0 <= spans@[k].1 <= text@.len() && text@.subrange(
                    spans@[k].0 as int,
                    spans@[k].1 as int,
                ) == ls[k],
            at == (n as int, s as int, r as int),
            rows@.map_values(|a: Area| entry_of(a)) == official_rows(rest.take(i - 1), at, map@),
            forall|a: int| 0 <= a < rows@.len() ==> (#[trigger] rows@[a]).kind == AreaKind::Official,
        decreases spans.len() - i,
    {
        let ghost line = ls[i as int];
        assert(rest.take(i as int).drop_last() =~= rest.take(i - 1));
        assert(rest.take(i as int).last() == line);
        let fields = split_range(&text, spans[i].0, spans[i].1, '\t');
        assert(views(fields@) =~= split_on(line, '\t'));
        let ghost before = rows@;
        if n < fields.len() && s < fields.len() && r < fields.len() && same_chars(&fields[s], &official) {
            let ws = words(&fields[r]);
            assert(views(ws@) =~= words_of(fields@[r as int]@));
            let ids = ids_in(&ws, map);
            if ids.len() > 0 {
                let name = string_of(&fields[n]);
                rows.push(Area { name, kind: AreaKind::Official, rooms: ids });
                assert(rows@.map_values(|a: Area| entry_of(a)) =~= before.map_values(|a: Area| entry_of(a)).push(
                    entry_of(rows@[before.len() as int]),
                ));
            }
        }
        i = i + 1;
    }
    assert(rest.take(i - 1) =~= rest);
    let ghost unsorted = rows@;
    let out = sort_by_name(rows);
    proof {
        lemma_map_permutation(out@, unsorted, |a: Area| entry_of(a));
        assert forall|a: int| 0 <= a < out@.len() implies (#[trigger] out@[a]).kind == AreaKind::Official by {
            vstd::seq_lib::to_multiset_contains(out@, out@[a]);
            vstd::seq_lib::to_multiset_contains(unsorted, out@[a]);
            assert(out@.contains(out@[a]));
        }
    }
    out
}

// ---------------------------------------------------------------------
// All the lists
// ---------------------------------------------------------------------

/// Every room of the areas, area after area.
pub open spec fn claimed_ids(areas: Seq<Area>) -> Seq<RoomId>
    decreases areas.len(),
{
    if areas.len() == 0 {
        Seq::empty()
    } else {
        claimed_ids(areas.drop_last()) + areas.last().rooms@
    }
}

/// A room of any of the areas is among their rooms.
proof fn lemma_claimed_ids(areas: Seq<Area>, a: int, x: RoomId)
    requires
        0 <= a < areas.len(),
        areas[a].rooms@.contains(x),
    ensures
        claimed_ids(areas).contains(x),
    decreases areas.len(),
{
    let d = areas.drop_last();
    let c = claimed_ids(d);
    let r = areas.last().rooms@;
    if a < d.len() {
        assert(d[a] == areas[a]);
        lemma_claimed_ids(d, a, x);
        let k = choose|k: int| 0 <= k < c.len() && c[k] == x;
        assert((c + r)[k] == x);
    } else {
        let k = choose|k: int| 0 <= k < r.len() && r[k] == x;
        assert((c + r)[c.len() + k] == x);
    }
}

/// The rooms of the areas, area after area.
fn rooms_of_areas(areas: &Vec<Area>) -> (out: Vec<RoomId>)
    ensures
        out@ == claimed_ids(areas@),
{
    let mut out: Vec<RoomId> = Vec::new();
    let mut a: usize = 0;
    while a < areas.len()
        invariant
            a <= areas@.len(),
            out@ == claimed_ids(areas@.take(a as int)),
        decreases areas.len() - a,
    {
        assert(areas@.take(a + 1).drop_last() =~= areas@.take(a as int));
        assert(areas@.take(a + 1).last() == areas@[a as int]);
        let ghost start = out@;
        let rooms = &areas[a].rooms;
        let mut j: usize = 0;
        while j < rooms.len()
            invariant
                j <= rooms@.len(),
                out@ == start + rooms@.take(j as int),
            decreases rooms.len() - j,
        {
            out.push(rooms[j]);
            assert(start + rooms@.take(j + 1) =~= (start + rooms@.take(j as int)).push(rooms@[j as int]));
            j = j + 1;
        }
        assert(rooms@.take(j as int) =~= rooms@);
        a = a + 1;
    }
    assert(areas@.take(a as int) =~= areas@);
    out
}

/// The area lists, each in text order of its names.
pub struct Areas {
    pub official: Vec<Area>,
    pub region: Vec<Area>,
    pub location: Vec<Area>,
    pub derived: Vec<Area>,
    pub plates: Vec<Area>,
}

impl Areas {
    /// The lists for `map`, with the official areas read from the table
    /// `official_tsv` and the plates of `store`.
    ///
    /// The official list and the location list never share a room: a room
    /// an official area claims is not listed again under its location,
    /// and every room of the map that no official area claims is listed
    /// there. The region list holds every room of the map.
    pub fn build(map: &RoomMap, store: &MapOverrides, official_tsv: &str) -> (r: Areas)
        ensures
            r.official@.map_values(|a: Area| entry_of(a)).to_multiset() == official_entries(
                official_tsv@,
                map@,
            ).to_multiset(),
            forall|a: int| 0 <= a < r.official@.len() ==> (#[trigger] r.official@[a]).kind == AreaKind::Official,
            forall|a: int, b: int|
                0 <= a < b < r.official@.len() ==> !text_lt(
                    (#[trigger] r.official@[b]).name@,
                    (#[trigger] r.official@[a]).name@,
                ),
            grouped(r.region@, ids_of(map@), region_keys(map@), AreaKind::Region, "(no region)"@),
            grouped(
                r.location@,
                ids_of(unclaimed(map@, claimed_ids(r.official@))),
                location_keys(unclaimed(map@, claimed_ids(r.official@))),
                AreaKind::Location,
                "(no location)"@,
            ),
            forall|a: int| 0 <= a < r.derived@.len() ==> (#[trigger] r.derived@[a]).kind == AreaKind::Derived,
            forall|a: int, b: int|
                0 <= a < b < r.derived@.len() ==> !text_lt(
                    (#[trigger] r.derived@[b]).name@,
                    (#[trigger] r.derived@[a]).name@,
                ),
            forall|a: int| 0 <= a < r.plates@.len() ==> (#[trigger] r.plates@[a]).kind == AreaKind::Plates,
            // No room is in both the official list and the location list.
            forall|o: int, l: int, x: RoomId|
                0 <= o < r.official@.len() && 0 <= l < r.location@.len() && #[trigger] r.official@[o].rooms@.contains(x)
                    ==> !(#[trigger] r.location@[l].rooms@.contains(x)),
            // Every room is in the official list or the location list.
            forall|i: int|
                0 <= i < map@.len() ==> lists_room(r.official@, #[trigger] map@[i].id) || lists_room(
                    r.location@,
                    map@[i].id,
                ),
            // Every room is in the region list.
            forall|i: int| 0 <= i < map@.len() ==> lists_room(r.region@, #[trigger] map@[i].id),
    {
        let official = official_areas(official_tsv, map);
        let claimed = rooms_of_areas(&official);
        let region = region_areas(map);
        let location = location_areas(map, claimed.as_slice());
        let derived = derived_areas(map);
        let plates = plate_areas(map, store);
        proof {
            assert forall|o: int, l: int, x: RoomId|
                0 <= o < official@.len() && 0 <= l < location@.len() && #[trigger] official@[o].rooms@.contains(x)
                    implies !(#[trigger] location@[l].rooms@.contains(x)) by {
                lemma_claimed_ids(official@, o, x);
            }
            assert forall|i: int| 0 <= i < map@.len() implies lists_room(official@, #[trigger] map@[i].id)
                || lists_room(location@, map@[i].id) by {
                let x = map@[i].id;
                if claimed@.contains(x) {
                    lemma_claimed_within(official@, x);
                }
            }
        }
        Areas { official, region, location, derived, plates }
    }

    /// The list of one kind.
    pub fn list(&self, kind: AreaKind) -> (r: &[Area])
        ensures
            r@ == match kind {
                AreaKind::Official => self.official@,
                AreaKind::Region => self.region@,
                AreaKind::Location => self.location@,
                AreaKind::Derived => self.derived@,
                AreaKind::Plates => self.plates@,
            },
    {
        match kind {
            AreaKind::Official => self.official.as_slice(),
            AreaKind::Region => self.region.as_slice(),
            AreaKind::Location => self.location.as_slice(),
            AreaKind::Derived => self.derived.as_slice(),
            AreaKind::Plates => self.plates.as_slice(),
        }
    }
}

/// A room among the areas' rooms is in one of the areas.
proof fn lemma_claimed_within(areas: Seq<Area>, x: RoomId)
    requires
        claimed_ids(areas).contains(x),
    ensures
        lists_room(areas, x),
    decreases areas.len(),
{
    let d = areas.drop_last();
    let c = claimed_ids(d);
    let r = areas.last().rooms@;
    let k = choose|k: int| 0 <= k < (c + r).len() && (c + r)[k] == x;
    if k < c.len() {
        assert(c[k] == x);
        lemma_claimed_within(d, x);
        let a = choose|a: int| 0 <= a < d.len() && (#[trigger] d[a]).rooms@.contains(x);
        assert(areas[a] == d[a]);
    } else {
        assert(r[k - c.len()] == x);
        assert(areas[areas.len() - 1].rooms@.contains(x));
    }
}

} // verus!
