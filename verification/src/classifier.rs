//! Which components are interiors, where their doorways are, which
//! interiors make one building, and what a building is called.
//!
//! Indoor rooms print "Obvious exits", outdoor rooms "Obvious paths"; a
//! strict majority decides. Without one, an `out` leaving the component,
//! or rooms with neither climate nor terrain, mark a building; and a
//! component reachable only through interiors is an interior too, unless
//! its own rooms are decisively outdoors.

use vstd::prelude::*;
use vstd::hash_map::HashMapWithView;

use crate::derived::{coarser, join_sets, reps, titled_names, titles_of};
use crate::regions::occurrences;
use crate::group::Group;
use crate::model::{Crossing, Room, RoomId, RoomMap, room_of};
use crate::regions::{Sense, room_sense, sense_of};
use crate::text::{lower_trim, lowercase_of, same_text, trimmed};

verus! {

broadcast use vstd::std_specs::hash::group_hash_axioms;

/// A doorway: an exit from an outdoor room into an interior component.
#[derive(Debug, Clone, Copy, PartialEq, Eq, Structural)]
pub struct Entrance {
    pub outdoor_room_id: RoomId,
    pub interior_room_id: RoomId,
}

/// Each group sits at its own index.
pub open spec fn indexed(groups: Seq<Group>) -> bool {
    forall|g: int| 0 <= g < groups.len() ==> #[trigger] groups[g].index == g
}

/// The last of the first `m` groups holding room `id`.
pub open spec fn comp_upto(groups: Seq<Group>, id: RoomId, m: int) -> Option<int>
    decreases m,
{
    if m <= 0 {
        None
    } else if groups[m - 1].room_ids@.contains(id) {
        Some(m - 1)
    } else {
        comp_upto(groups, id, m - 1)
    }
}

/// The component a room belongs to: the last group holding it.
pub open spec fn comp(groups: Seq<Group>, id: RoomId) -> Option<int> {
    comp_upto(groups, id, groups.len() as int)
}

/// Which group each room id belongs to.
fn component_index(groups: &[Group]) -> (m: HashMapWithView<u32, usize>)
    ensures
        forall|id: RoomId| #[trigger] m@.contains_key(id.0) <==> comp(groups@, id) is Some,
        forall|id: RoomId| m@.contains_key(id.0) ==> #[trigger] comp(groups@, id) == Some(m@[id.0] as int),
{
    let mut m: HashMapWithView<u32, usize> = HashMapWithView::new();
    let mut g: usize = 0;
    while g < groups.len()
        invariant
            g <= groups@.len(),
            forall|id: RoomId| #[trigger] m@.contains_key(id.0) <==> comp_upto(groups@, id, g as int) is Some,
            forall|id: RoomId| m@.contains_key(id.0) ==> #[trigger] comp_upto(groups@, id, g as int) == Some(
                m@[id.0] as int,
            ),
        decreases groups.len() - g,
    {
        let ids = &groups[g].room_ids;
        let mut k: usize = 0;
        while k < ids.len()
            invariant
                g < groups@.len(),
                ids@ == groups@[g as int].room_ids@,
                k <= ids@.len(),
                forall|id: RoomId| #[trigger] m@.contains_key(id.0) <==> (ids@.take(k as int).contains(id)
                    || comp_upto(groups@, id, g as int) is Some),
                forall|id: RoomId|
                    m@.contains_key(id.0) ==> #[trigger] m@[id.0] as int == if ids@.take(k as int).contains(id) {
                        g as int
                    } else {
                        comp_upto(groups@, id, g as int)->0
                    },
            decreases ids.len() - k,
        {
            let id = ids[k];
            m.insert(id.0, g);
            proof {
                let t1 = ids@.take(k + 1);
                let t0 = ids@.take(k as int);
                assert(t1 =~= t0.push(id));
                assert forall|x: RoomId| t1.contains(x) == (t0.contains(x) || x == id) by {
                    if t1.contains(x) && x != id {
                        let w = choose|w: int| 0 <= w < t1.len() && t1[w] == x;
                        assert(t0[w] == x);
                    }
                    if t0.contains(x) {
                        let w = choose|w: int| 0 <= w < t0.len() && t0[w] == x;
                        assert(t1[w] == x);
                    }
                    if x == id {
                        assert(t1[k as int] == x);
                    }
                }
                assert forall|x: RoomId, y: RoomId| x.0 == y.0 implies x == y by {}
            }
            k = k + 1;
        }
        proof {
            assert(ids@.take(ids@.len() as int) =~= ids@);
        }
        g = g + 1;
    }
    m
}

/// How many of these rooms of the map read as `s`.
pub open spec fn sense_count(map: Seq<Room>, ids: Seq<RoomId>, s: Sense) -> nat
    decreases ids.len(),
{
    if ids.len() == 0 {
        0
    } else {
        sense_count(map, ids.drop_last(), s) + match room_of(map, ids.last()) {
            Some(r) => if sense_of(r) == s {
                1nat
            } else {
                0nat
            },
            None => 0nat,
        }
    }
}

/// How many of these rooms of the map have neither climate nor terrain.
pub open spec fn weatherless_count(map: Seq<Room>, ids: Seq<RoomId>) -> nat
    decreases ids.len(),
{
    if ids.len() == 0 {
        0
    } else {
        weatherless_count(map, ids.drop_last()) + match room_of(map, ids.last()) {
            Some(r) => if weatherless(r) {
                1nat
            } else {
                0nat
            },
            None => 0nat,
        }
    }
}

/// A room whose climate and terrain are both "none".
pub open spec fn weatherless(r: Room) -> bool {
    &&& r.climate is Some
    &&& r.climate->0@ == "none"@
    &&& r.terrain is Some
    &&& r.terrain->0@ == "none"@
}

/// An exit whose command, trimmed and lowercased, is `out`.
pub open spec fn is_out(x: crate::model::Exit) -> bool {
    &&& x.crossing is Command
    &&& lowercase_of(trimmed(x.crossing->Command_0@)) == "out"@
}

/// Some room of group `gi` has an `out` that leaves the component.
pub open spec fn leaves_by_out(groups: Seq<Group>, map: Seq<Room>, gi: int) -> bool {
    exists|k: int, e: int|
        0 <= k < groups[gi].room_ids@.len() && #[trigger] room_of(map, groups[gi].room_ids@[k]) is Some && 0 <= e
            < room_of(map, groups[gi].room_ids@[k])->0.exits@.len() && is_out(
            #[trigger] room_of(map, groups[gi].room_ids@[k])->0.exits@[e],
        ) && comp(groups, room_of(map, groups[gi].room_ids@[k])->0.exits@[e].to) != Some(gi)
}

/// Whether group `gi` is an interior on its own evidence: a strict
/// majority of indoor over outdoor rooms; failing one, an `out` leaving
/// it, or every room weatherless.
pub open spec fn interior_component(groups: Seq<Group>, map: Seq<Room>, gi: int) -> bool {
    let ids = groups[gi].room_ids@;
    let indoor = sense_count(map, ids, Sense::Indoor);
    let outdoor = sense_count(map, ids, Sense::Outdoor);
    if indoor != outdoor && indoor + outdoor > 0 {
        indoor > outdoor
    } else {
        leaves_by_out(groups, map, gi) || (weatherless_count(map, ids) > 0 && weatherless_count(map, ids)
            == ids.len())
    }
}


/// Every one of the rooms is in the map and has neither climate nor
/// terrain exactly when all of them count as weatherless.
proof fn lemma_weatherless_all(map: Seq<Room>, ids: Seq<RoomId>)
    ensures
        weatherless_count(map, ids) <= ids.len(),
        weatherless_count(map, ids) == ids.len() <==> forall|k: int|
            0 <= k < ids.len() ==> (#[trigger] room_of(map, ids[k])) is Some && weatherless(room_of(map, ids[k])->0),
    decreases ids.len(),
{
    if ids.len() > 0 {
        let d = ids.drop_last();
        lemma_weatherless_all(map, d);
        if weatherless_count(map, ids) == ids.len() {
            assert forall|k: int| 0 <= k < ids.len() implies (#[trigger] room_of(map, ids[k])) is Some && weatherless(
                room_of(map, ids[k])->0,
            ) by {
                if k < ids.len() - 1 {
                    assert(d[k] == ids[k]);
                    assert(room_of(map, d[k]) is Some);
                }
            }
        }
        if forall|k: int|
            0 <= k < ids.len() ==> (#[trigger] room_of(map, ids[k])) is Some && weatherless(room_of(map, ids[k])->0) {
            assert forall|k: int| 0 <= k < d.len() implies (#[trigger] room_of(map, d[k])) is Some && weatherless(
                room_of(map, d[k])->0,
            ) by {
                assert(d[k] == ids[k]);
                assert(room_of(map, ids[k]) is Some);
            }
            assert(room_of(map, ids[ids.len() - 1]) is Some);
        }
    }
}

/// A component whose rooms' paths settle nothing, and that no `out`
/// leaves, is an interior exactly when it has rooms and every one of them
/// is in the map with neither climate nor terrain: one room with weather
/// makes it not an interior.
pub proof fn lemma_weatherless_interior(groups: Seq<Group>, map: Seq<Room>, gi: int)
    requires
        0 <= gi < groups.len(),
        !(sense_count(map, groups[gi].room_ids@, Sense::Indoor) != sense_count(map, groups[gi].room_ids@, Sense::Outdoor)
            && sense_count(map, groups[gi].room_ids@, Sense::Indoor) + sense_count(
            map,
            groups[gi].room_ids@,
            Sense::Outdoor,
        ) > 0),
        !leaves_by_out(groups, map, gi),
    ensures
        interior_component(groups, map, gi) <==> (groups[gi].room_ids@.len() > 0 && forall|k: int|
            0 <= k < groups[gi].room_ids@.len() ==> (#[trigger] room_of(map, groups[gi].room_ids@[k])) is Some
                && weatherless(room_of(map, groups[gi].room_ids@[k])->0)),
{
    lemma_weatherless_all(map, groups[gi].room_ids@);
}

/// When its rooms' paths read more one way than the other, a component
/// is an interior exactly when more of them read indoors than outdoors,
/// whatever its exits and weather.
pub proof fn lemma_paths_decide(groups: Seq<Group>, map: Seq<Room>, gi: int)
    requires
        0 <= gi < groups.len(),
        sense_count(map, groups[gi].room_ids@, Sense::Indoor) != sense_count(map, groups[gi].room_ids@, Sense::Outdoor),
        sense_count(map, groups[gi].room_ids@, Sense::Indoor) + sense_count(map, groups[gi].room_ids@, Sense::Outdoor) > 0,
    ensures
        interior_component(groups, map, gi) <==> sense_count(map, groups[gi].room_ids@, Sense::Indoor) > sense_count(
            map,
            groups[gi].room_ids@,
            Sense::Outdoor,
        ),
{
}

/// With nothing in the paths to go by, an `out` leading out of the
/// component makes it an interior.
pub proof fn lemma_out_makes_an_interior(groups: Seq<Group>, map: Seq<Room>, gi: int)
    requires
        0 <= gi < groups.len(),
        !(sense_count(map, groups[gi].room_ids@, Sense::Indoor) != sense_count(map, groups[gi].room_ids@, Sense::Outdoor)
            && sense_count(map, groups[gi].room_ids@, Sense::Indoor) + sense_count(
            map,
            groups[gi].room_ids@,
            Sense::Outdoor,
        ) > 0),
        leaves_by_out(groups, map, gi),
    ensures
        interior_component(groups, map, gi),
{
}

/// Whether the command of an exit, trimmed and lowercased, is `out`.
fn is_out_exec(x: &crate::model::Exit) -> (b: bool)
    ensures
        b == is_out(*x),
{
    match &x.crossing {
        Crossing::Command(c) => {
            let l = lower_trim(c.as_str());
            same_text(l.as_str(), "out")
        },
        _ => false,
    }
}

/// Some `out` of this room leaves group `gi`.
fn room_leaves_by_out(
    room: &Room,
    gi: usize,
    m: &HashMapWithView<u32, usize>,
    groups: &[Group],
) -> (b: bool)
    requires
        forall|id: RoomId| #[trigger] m@.contains_key(id.0) <==> comp(groups@, id) is Some,
        forall|id: RoomId| m@.contains_key(id.0) ==> #[trigger] comp(groups@, id) == Some(m@[id.0] as int),
    ensures
        b == exists|e: int|
            0 <= e < room.exits@.len() && is_out(#[trigger] room.exits@[e]) && comp(groups@, room.exits@[e].to)
                != Some(gi as int),
{
    let mut e: usize = 0;
    while e < room.exits.len()
        invariant
            e <= room.exits@.len(),
            forall|id: RoomId| #[trigger] m@.contains_key(id.0) <==> comp(groups@, id) is Some,
            forall|id: RoomId| m@.contains_key(id.0) ==> #[trigger] comp(groups@, id) == Some(m@[id.0] as int),
            forall|q: int|
                0 <= q < e ==> !(is_out(#[trigger] room.exits@[q]) && comp(groups@, room.exits@[q].to) != Some(
                    gi as int,
                )),
        decreases room.exits.len() - e,
    {
        let x = &room.exits[e];
        if is_out_exec(x) {
            let stays = match m.get(&x.to.0) {
                Some(t) => *t == gi,
                None => false,
            };
            if !stays {
                return true;
            }
        }
        e = e + 1;
    }
    false
}

/// Whether a room has neither climate nor terrain.
fn weatherless_exec(room: &Room) -> (b: bool)
    ensures
        b == weatherless(*room),
{
    let c = match &room.climate {
        Some(c) => same_text(c.as_str(), "none"),
        None => false,
    };
    let t = match &room.terrain {
        Some(t) => same_text(t.as_str(), "none"),
        None => false,
    };
    c && t
}

/// Whether group `gi` is an interior on its own evidence.
fn is_interior_component(
    groups: &[Group],
    gi: usize,
    m: &HashMapWithView<u32, usize>,
    map: &RoomMap,
) -> (b: bool)
    requires
        gi < groups@.len(),
        forall|id: RoomId| #[trigger] m@.contains_key(id.0) <==> comp(groups@, id) is Some,
        forall|id: RoomId| m@.contains_key(id.0) ==> #[trigger] comp(groups@, id) == Some(m@[id.0] as int),
    ensures
        b == interior_component(groups@, map@, gi as int),
{
    let ids = &groups[gi].room_ids;
    let mut indoor: usize = 0;
    let mut outdoor: usize = 0;
    let mut k: usize = 0;
    while k < ids.len()
        invariant
            k <= ids@.len(),
            ids@ == groups@[gi as int].room_ids@,
            indoor == sense_count(map@, ids@.take(k as int), Sense::Indoor),
            outdoor == sense_count(map@, ids@.take(k as int), Sense::Outdoor),
            indoor <= k,
            outdoor <= k,
        decreases ids.len() - k,
    {
        proof {
            assert(ids@.take(k + 1).drop_last() =~= ids@.take(k as int));
            assert(ids@.take(k + 1).last() == ids@[k as int]);
        }
        match map.room(ids[k]) {
            Some(room) => {
                let s = room_sense(room);
                if s == Sense::Indoor {
                    indoor = indoor + 1;
                } else if s == Sense::Outdoor {
                    outdoor = outdoor + 1;
                }
            },
            None => {},
        }
        k = k + 1;
    }
    proof {
        assert(ids@.take(ids@.len() as int) =~= ids@);
    }
    if indoor != outdoor && (indoor > 0 || outdoor > 0) {
        return indoor > outdoor;
    }
    // No usable paths data: structural fallbacks.
    let mut weatherless: usize = 0;
    let mut k: usize = 0;
    while k < ids.len()
        invariant
            k <= ids@.len(),
            ids@ == groups@[gi as int].room_ids@,
            gi < groups@.len(),
            forall|id: RoomId| #[trigger] m@.contains_key(id.0) <==> comp(groups@, id) is Some,
            forall|id: RoomId| m@.contains_key(id.0) ==> #[trigger] comp(groups@, id) == Some(m@[id.0] as int),
            weatherless == weatherless_count(map@, ids@.take(k as int)),
            weatherless <= k,
            indoor == sense_count(map@, ids@, Sense::Indoor),
            outdoor == sense_count(map@, ids@, Sense::Outdoor),
            !(indoor != outdoor && (indoor > 0 || outdoor > 0)),
            forall|q: int, e: int|
                0 <= q < k && #[trigger] room_of(map@, ids@[q]) is Some && 0 <= e < room_of(map@, ids@[q])->0.exits@.len()
                    ==> !(is_out(#[trigger] room_of(map@, ids@[q])->0.exits@[e]) && comp(
                    groups@,
                    room_of(map@, ids@[q])->0.exits@[e].to,
                ) != Some(gi as int)),
        decreases ids.len() - k,
    {
        proof {
            assert(ids@.take(k + 1).drop_last() =~= ids@.take(k as int));
            assert(ids@.take(k + 1).last() == ids@[k as int]);
        }
        match map.room(ids[k]) {
            Some(room) => {
                if room_leaves_by_out(room, gi, m, groups) {
                    proof {
                        let e = choose|e: int|
                            0 <= e < room.exits@.len() && is_out(#[trigger] room.exits@[e]) && comp(
                                groups@,
                                room.exits@[e].to,
                            ) != Some(gi as int);
                        assert(room_of(map@, ids@[k as int])->0 == *room);
                        assert(room_of(map@, groups@[gi as int].room_ids@[k as int]) is Some);
                        assert(is_out(room_of(map@, groups@[gi as int].room_ids@[k as int])->0.exits@[e]));
                    }
                    return true;
                }
                if weatherless_exec(room) {
                    weatherless = weatherless + 1;
                }
            },
            None => {},
        }
        k = k + 1;
    }
    proof {
        assert(ids@.take(ids@.len() as int) =~= ids@);
        assert(!leaves_by_out(groups@, map@, gi as int)) by {
            if leaves_by_out(groups@, map@, gi as int) {
                let (q, e) = choose|q: int, e: int|
                    0 <= q < groups@[gi as int].room_ids@.len() && #[trigger] room_of(
                        map@,
                        groups@[gi as int].room_ids@[q],
                    ) is Some && 0 <= e < room_of(map@, groups@[gi as int].room_ids@[q])->0.exits@.len()
                        && is_out(#[trigger] room_of(map@, groups@[gi as int].room_ids@[q])->0.exits@[e]) && comp(
                        groups@,
                        room_of(map@, groups@[gi as int].room_ids@[q])->0.exits@[e].to,
                    ) != Some(gi as int);
                assert(room_of(map@, ids@[q]) is Some);
            }
        }
    }
    weatherless > 0 && weatherless == ids.len()
}


// ---------------------------------------------------------------------
// Propagation
// ---------------------------------------------------------------------

/// Among the first `m` of these exits, one leads into group `t`.
pub open spec fn exit_into(groups: Seq<Group>, exits: Seq<crate::model::Exit>, t: int, m: int) -> bool {
    exists|w: int| 0 <= w < m && w < exits.len() && comp(groups, #[trigger] exits[w].to) == Some(t)
}

/// Among the first `k` of these rooms of the map, one has an exit into
/// group `t`.
pub open spec fn rooms_into(groups: Seq<Group>, map: Seq<Room>, ids: Seq<RoomId>, t: int, k: int) -> bool {
    exists|q: int|
        0 <= q < k && q < ids.len() && #[trigger] room_of(map, ids[q]) is Some && exit_into(
            groups,
            room_of(map, ids[q])->0.exits@,
            t,
            room_of(map, ids[q])->0.exits@.len() as int,
        )
}

/// Some exit of a room of group `gi` leads into group `t`, another one.
pub open spec fn neighbour(groups: Seq<Group>, map: Seq<Room>, gi: int, t: int) -> bool {
    t != gi && rooms_into(groups, map, groups[gi].room_ids@, t, groups[gi].room_ids@.len() as int)
}

/// More of the group's rooms read outdoors than indoors.
pub open spec fn decisively_outdoor(groups: Seq<Group>, map: Seq<Room>, gi: int) -> bool {
    sense_count(map, groups[gi].room_ids@, Sense::Outdoor) > sense_count(
        map,
        groups[gi].room_ids@,
        Sense::Indoor,
    )
}

/// Group `gi` has a neighbour, every one of which `flags` marks, with a
/// smaller rank; and its own rooms are not decisively outdoors.
pub open spec fn walled_in_below(
    groups: Seq<Group>,
    map: Seq<Room>,
    gi: int,
    flags: Seq<bool>,
    rank: Seq<nat>,
) -> bool {
    &&& !decisively_outdoor(groups, map, gi)
    &&& exists|t: int| #[trigger] neighbour(groups, map, gi, t)
    &&& forall|t: int| #[trigger] neighbour(groups, map, gi, t) ==> 0 <= t < flags.len() && flags[t] && rank[t] < rank[gi]
}

/// Group `gi` is not decisively outdoors and every neighbour of it, of
/// which it has at least one, is marked.
pub open spec fn walled_in(groups: Seq<Group>, map: Seq<Room>, gi: int, flags: Seq<bool>) -> bool {
    &&& !decisively_outdoor(groups, map, gi)
    &&& exists|t: int| #[trigger] neighbour(groups, map, gi, t)
    &&& forall|t: int| #[trigger] neighbour(groups, map, gi, t) ==> 0 <= t < flags.len() && flags[t]
}

/// `flags` marks exactly the interiors: every group that is one on its
/// own evidence, and, to a fixed point, every group walled in by them;
/// nothing else (each marked group is justified by neighbours marked
/// before it).
pub open spec fn interiors(groups: Seq<Group>, map: Seq<Room>, flags: Seq<bool>) -> bool {
    &&& flags.len() == groups.len()
    &&& forall|g: int| 0 <= g < groups.len() && interior_component(groups, map, g) ==> #[trigger] flags[g]
    &&& forall|g: int| 0 <= g < groups.len() && !#[trigger] flags[g] ==> !walled_in(groups, map, g, flags)
    &&& exists|rank: Seq<nat>|
        rank.len() == groups.len() && forall|g: int|
            0 <= g < groups.len() && #[trigger] flags[g] ==> interior_component(groups, map, g) || walled_in_below(
                groups,
                map,
                g,
                flags,
                rank,
            )
}

/// Whether more of group `gi`'s rooms read outdoors than indoors.
fn decisive_outdoor_exec(groups: &[Group], gi: usize, map: &RoomMap) -> (b: bool)
    requires
        gi < groups@.len(),
    ensures
        b == decisively_outdoor(groups@, map@, gi as int),
{
    let ids = &groups[gi].room_ids;
    let mut indoor: usize = 0;
    let mut outdoor: usize = 0;
    let mut k: usize = 0;
    while k < ids.len()
        invariant
            k <= ids@.len(),
            ids@ == groups@[gi as int].room_ids@,
            indoor == sense_count(map@, ids@.take(k as int), Sense::Indoor),
            outdoor == sense_count(map@, ids@.take(k as int), Sense::Outdoor),
            indoor <= k,
            outdoor <= k,
        decreases ids.len() - k,
    {
        proof {
            assert(ids@.take(k + 1).drop_last() =~= ids@.take(k as int));
            assert(ids@.take(k + 1).last() == ids@[k as int]);
        }
        match map.room(ids[k]) {
            Some(room) => {
                let s = room_sense(room);
                if s == Sense::Indoor {
                    indoor = indoor + 1;
                } else if s == Sense::Outdoor {
                    outdoor = outdoor + 1;
                }
            },
            None => {},
        }
        k = k + 1;
    }
    proof {
        assert(ids@.take(ids@.len() as int) =~= ids@);
    }
    outdoor > indoor
}

/// The groups group `gi`'s exits lead into.
fn neighbours_exec(
    groups: &[Group],
    gi: usize,
    m: &HashMapWithView<u32, usize>,
    map: &RoomMap,
) -> (out: Vec<usize>)
    requires
        gi < groups@.len(),
        forall|id: RoomId| #[trigger] m@.contains_key(id.0) <==> comp(groups@, id) is Some,
        forall|id: RoomId| m@.contains_key(id.0) ==> #[trigger] comp(groups@, id) == Some(m@[id.0] as int),
    ensures
        forall|q: int| 0 <= q < out@.len() ==> #[trigger] out@[q] < groups@.len(),
        forall|t: usize| (#[trigger] out@.contains(t)) <==> neighbour(groups@, map@, gi as int, t as int),
        forall|t: int| #[trigger] neighbour(groups@, map@, gi as int, t) ==> 0 <= t < groups@.len(),
{
    let ids = &groups[gi].room_ids;
    let mut out: Vec<usize> = Vec::new();
    let mut k: usize = 0;
    while k < ids.len()
        invariant
            k <= ids@.len(),
            gi < groups@.len(),
            ids@ == groups@[gi as int].room_ids@,
            forall|id: RoomId| #[trigger] m@.contains_key(id.0) <==> comp(groups@, id) is Some,
            forall|id: RoomId| m@.contains_key(id.0) ==> #[trigger] comp(groups@, id) == Some(m@[id.0] as int),
            forall|q: int| 0 <= q < out@.len() ==> #[trigger] out@[q] < groups@.len() && out@[q] != gi,
            forall|t: usize|
                (#[trigger] out@.contains(t)) <==> (t != gi && rooms_into(groups@, map@, ids@, t as int, k as int)),
        decreases ids.len() - k,
    {
        proof {
            assert forall|t: int| #[trigger] rooms_into(groups@, map@, ids@, t, k + 1) == (rooms_into(
                groups@,
                map@,
                ids@,
                t,
                k as int,
            ) || (room_of(map@, ids@[k as int]) is Some && exit_into(
                groups@,
                room_of(map@, ids@[k as int])->0.exits@,
                t,
                room_of(map@, ids@[k as int])->0.exits@.len() as int,
            ))) by {
                if rooms_into(groups@, map@, ids@, t, k + 1) && !rooms_into(groups@, map@, ids@, t, k as int) {
                    let q = choose|q: int|
                        0 <= q < k + 1 && q < ids@.len() && #[trigger] room_of(map@, ids@[q]) is Some && exit_into(
                            groups@,
                            room_of(map@, ids@[q])->0.exits@,
                            t,
                            room_of(map@, ids@[q])->0.exits@.len() as int,
                        );
                    assert(q == k);
                }
            }
        }
        match map.room(ids[k]) {
            Some(room) => {
                assert(room_of(map@, ids@[k as int]) == Some(*room));
                let mut e: usize = 0;
                while e < room.exits.len()
                    invariant
                        k < ids@.len(),
                        gi < groups@.len(),
                        ids@ == groups@[gi as int].room_ids@,
                        room_of(map@, ids@[k as int]) == Some(*room),
                        e <= room.exits@.len(),
                        forall|id: RoomId| #[trigger] m@.contains_key(id.0) <==> comp(groups@, id) is Some,
                        forall|id: RoomId| m@.contains_key(id.0) ==> #[trigger] comp(groups@, id) == Some(m@[id.0] as int),
                        forall|q: int| 0 <= q < out@.len() ==> #[trigger] out@[q] < groups@.len() && out@[q] != gi,
                        forall|t: usize|
                            (#[trigger] out@.contains(t)) <==> (t != gi && (rooms_into(
                                groups@,
                                map@,
                                ids@,
                                t as int,
                                k as int,
                            ) || exit_into(groups@, room.exits@, t as int, e as int))),
                    decreases room.exits.len() - e,
                {
                    let ghost before = out@;
                    proof {
                        assert forall|t: int| #[trigger] exit_into(groups@, room.exits@, t, e + 1) == (exit_into(
                            groups@,
                            room.exits@,
                            t,
                            e as int,
                        ) || comp(groups@, room.exits@[e as int].to) == Some(t)) by {
                            if exit_into(groups@, room.exits@, t, e + 1) && !exit_into(groups@, room.exits@, t, e as int) {
                                let w = choose|w: int|
                                    0 <= w < e + 1 && w < room.exits@.len() && comp(groups@, #[trigger] room.exits@[w].to) == Some(t);
                                assert(w == e);
                            }
                        }
                    }
                    match m.get(&room.exits[e].to.0) {
                        Some(t) => {
                            let t = *t;
                            proof {
                                lemma_comp_bound(groups@, room.exits@[e as int].to, groups@.len() as int);
                            }
                            if t != gi {
                                out.push(t);
                            }
                            proof {
                                assert forall|x: usize| (#[trigger] out@.contains(x)) <==> (x != gi && (rooms_into(
                                    groups@,
                                    map@,
                                    ids@,
                                    x as int,
                                    k as int,
                                ) || exit_into(groups@, room.exits@, x as int, e + 1))) by {
                                    if x == t && t != gi {
                                        assert(out@[before.len() as int] == t);
                                    }
                                    if out@.contains(x) && !before.contains(x) {
                                        let q = choose|q: int| 0 <= q < out@.len() && out@[q] == x;
                                        assert(q == before.len());
                                    }
                                    if before.contains(x) {
                                        let q = choose|q: int| 0 <= q < before.len() && before[q] == x;
                                        assert(out@[q] == x);
                                    }
                                }
                            }
                        },
                        None => {
                            assert(comp(groups@, room.exits@[e as int].to) is None);
                        },
                    }
                    e = e + 1;
                }
            },
            None => {},
        }
        k = k + 1;
    }
    proof {
        assert forall|t: int| #[trigger] neighbour(groups@, map@, gi as int, t) implies 0 <= t < groups@.len() by {
            let q = choose|q: int|
                0 <= q < ids@.len() && q < ids@.len() && #[trigger] room_of(map@, ids@[q]) is Some && exit_into(
                    groups@,
                    room_of(map@, ids@[q])->0.exits@,
                    t,
                    room_of(map@, ids@[q])->0.exits@.len() as int,
                );
            let ex = room_of(map@, ids@[q])->0.exits@;
            let w = choose|w: int| 0 <= w < ex.len() && w < ex.len() && comp(groups@, #[trigger] ex[w].to) == Some(t);
            lemma_comp_bound(groups@, ex[w].to, groups@.len() as int);
        }
    }
    out
}

proof fn lemma_comp_bound(groups: Seq<Group>, id: RoomId, m: int)
    requires
        0 <= m <= groups.len(),
    ensures
        comp_upto(groups, id, m) matches Some(t) ==> 0 <= t < m,
    decreases m,
{
    if m > 0 {
        lemma_comp_bound(groups, id, m - 1);
    }
}


/// How many groups `flags` leaves unmarked.
spec fn unmarked(flags: Seq<bool>) -> nat
    decreases flags.len(),
{
    if flags.len() == 0 {
        0
    } else {
        unmarked(flags.drop_last()) + if flags.last() {
            0nat
        } else {
            1nat
        }
    }
}

proof fn lemma_unmarked_mark(flags: Seq<bool>, g: int)
    requires
        0 <= g < flags.len(),
        !flags[g],
    ensures
        unmarked(flags.update(g, true)) + 1 == unmarked(flags),
    decreases flags.len(),
{
    let w = flags.update(g, true);
    if g == flags.len() - 1 {
        assert(w.drop_last() =~= flags.drop_last());
    } else {
        assert(w.drop_last() =~= flags.drop_last().update(g, true));
        lemma_unmarked_mark(flags.drop_last(), g);
    }
}

/// The interiors: each group that is one on its own evidence, then, to a
/// fixed point, each group every one of whose neighbours is an interior,
/// unless its own rooms are decisively outdoors.
fn interior_flags(groups: &[Group], m: &HashMapWithView<u32, usize>, map: &RoomMap) -> (flags: Vec<bool>)
    requires
        forall|id: RoomId| #[trigger] m@.contains_key(id.0) <==> comp(groups@, id) is Some,
        forall|id: RoomId| m@.contains_key(id.0) ==> #[trigger] comp(groups@, id) == Some(m@[id.0] as int),
    ensures
        interiors(groups@, map@, flags@),
{
    let n = groups.len();
    let mut flags: Vec<bool> = Vec::new();
    let mut decisive: Vec<bool> = Vec::new();
    let mut nbrs: Vec<Vec<usize>> = Vec::new();
    let mut g: usize = 0;
    while g < n
        invariant
            g <= n,
            n == groups@.len(),
            forall|id: RoomId| #[trigger] m@.contains_key(id.0) <==> comp(groups@, id) is Some,
            forall|id: RoomId| m@.contains_key(id.0) ==> #[trigger] comp(groups@, id) == Some(m@[id.0] as int),
            flags@.len() == g,
            decisive@.len() == g,
            nbrs@.len() == g,
            forall|q: int| 0 <= q < g ==> #[trigger] flags@[q] == interior_component(groups@, map@, q),
            forall|q: int| 0 <= q < g ==> #[trigger] decisive@[q] == decisively_outdoor(groups@, map@, q),
            forall|q: int, k: int| 0 <= q < g && 0 <= k < nbrs@[q]@.len() ==> #[trigger] nbrs@[q]@[k] < n,
            forall|q: int, t: usize| 0 <= q < g ==> ((#[trigger] nbrs@[q]@.contains(t)) <==> neighbour(groups@, map@, q, t as int)),
            forall|q: int, t: int| 0 <= q < g && #[trigger] neighbour(groups@, map@, q, t) ==> 0 <= t < n,
        decreases n - g,
    {
        flags.push(is_interior_component(groups, g, m, map));
        decisive.push(decisive_outdoor_exec(groups, g, map));
        nbrs.push(neighbours_exec(groups, g, m, map));
        g = g + 1;
    }
    let ghost mut rank: Seq<nat> = Seq::new(n as nat, |q: int| 0nat);
    let ghost mut clock: nat = 1;
    loop
        invariant
            n == groups@.len(),
            flags@.len() == n,
            decisive@.len() == n,
            nbrs@.len() == n,
            rank.len() == n,
            forall|q: int| 0 <= q < n ==> #[trigger] decisive@[q] == decisively_outdoor(groups@, map@, q),
            forall|q: int, k: int| 0 <= q < n && 0 <= k < nbrs@[q]@.len() ==> #[trigger] nbrs@[q]@[k] < n,
            forall|q: int, t: usize| 0 <= q < n ==> ((#[trigger] nbrs@[q]@.contains(t)) <==> neighbour(groups@, map@, q, t as int)),
            forall|q: int, t: int| 0 <= q < n && #[trigger] neighbour(groups@, map@, q, t) ==> 0 <= t < n,
            forall|q: int| 0 <= q < n && interior_component(groups@, map@, q) ==> #[trigger] flags@[q],
            forall|q: int| 0 <= q < n ==> #[trigger] rank[q] < clock,
            forall|q: int|
                0 <= q < n && #[trigger] flags@[q] ==> interior_component(groups@, map@, q) || walled_in_below(
                    groups@,
                    map@,
                    q,
                    flags@,
                    rank,
                ),
        ensures
            flags@.len() == n,
            rank.len() == n,
            forall|q: int| 0 <= q < n && interior_component(groups@, map@, q) ==> #[trigger] flags@[q],
            forall|q: int|
                0 <= q < n && #[trigger] flags@[q] ==> interior_component(groups@, map@, q) || walled_in_below(
                    groups@,
                    map@,
                    q,
                    flags@,
                    rank,
                ),
            forall|q: int| 0 <= q < n && !#[trigger] flags@[q] ==> !walled_in(groups@, map@, q, flags@),
        decreases unmarked(flags@),
    {
        let ghost pass_start = flags@;
        let mut changed = false;
        let mut g: usize = 0;
        while g < n
            invariant
                g <= n,
                n == groups@.len(),
                flags@.len() == n,
                decisive@.len() == n,
                nbrs@.len() == n,
                rank.len() == n,
                forall|q: int| 0 <= q < n ==> #[trigger] decisive@[q] == decisively_outdoor(groups@, map@, q),
                forall|q: int, k: int| 0 <= q < n && 0 <= k < nbrs@[q]@.len() ==> #[trigger] nbrs@[q]@[k] < n,
                forall|q: int, t: usize| 0 <= q < n ==> ((#[trigger] nbrs@[q]@.contains(t)) <==> neighbour(groups@, map@, q, t as int)),
                forall|q: int, t: int| 0 <= q < n && #[trigger] neighbour(groups@, map@, q, t) ==> 0 <= t < n,
                forall|q: int| 0 <= q < n && interior_component(groups@, map@, q) ==> #[trigger] flags@[q],
                forall|q: int| 0 <= q < n ==> #[trigger] rank[q] < clock,
                forall|q: int|
                    0 <= q < n && #[trigger] flags@[q] ==> interior_component(groups@, map@, q) || walled_in_below(
                        groups@,
                        map@,
                        q,
                        flags@,
                        rank,
                    ),
                changed ==> unmarked(flags@) < unmarked(pass_start),
                !changed ==> flags@ == pass_start,
                !changed ==> forall|q: int| 0 <= q < g && !#[trigger] flags@[q] ==> !walled_in(groups@, map@, q, flags@),
            decreases n - g,
        {
            if flags[g] || decisive[g] || nbrs[g].len() == 0 {
                proof {
                    if !changed && !flags@[g as int] && nbrs@[g as int]@.len() == 0 {
                        if walled_in(groups@, map@, g as int, flags@) {
                            let t = choose|t: int| #[trigger] neighbour(groups@, map@, g as int, t);
                            assert(nbrs@[g as int]@.contains(t as usize));
                        }
                    }
                }
                g = g + 1;
                continue;
            }
            let row = &nbrs[g];
            let mut all = true;
            let mut k: usize = 0;
            while k < row.len()
                invariant
                    k <= row@.len(),
                    row@ == nbrs@[g as int]@,
                    g < n,
                    flags@.len() == n,
                    forall|q: int, k: int| 0 <= q < n && 0 <= k < nbrs@[q]@.len() ==> #[trigger] nbrs@[q]@[k] < n,
                    all == forall|q: int| 0 <= q < k ==> #[trigger] flags@[row@[q] as int],
                decreases row.len() - k,
            {
                if !flags[row[k]] {
                    all = false;
                }
                k = k + 1;
            }
            if all {
                let ghost before = flags@;
                let ghost before_rank = rank;
                proof {
                    lemma_unmarked_mark(flags@, g as int);
                    assert(row@[0] < n);
                    assert(row@.contains(row@[0]));
                    assert(neighbour(groups@, map@, g as int, row@[0] as int));
                    assert forall|t: int| #[trigger] neighbour(groups@, map@, g as int, t) implies 0 <= t < n
                        && before[t] && before_rank[t] < clock by {
                        assert(nbrs@[g as int]@.contains(t as usize));
                        let q = choose|q: int| 0 <= q < row@.len() && row@[q] == t as usize;
                    }
                }
                flags.set(g, true);
                proof {
                    rank = rank.update(g as int, clock);
                    clock = clock + 1;
                    assert forall|q: int|
                        0 <= q < n && #[trigger] flags@[q] implies interior_component(groups@, map@, q) || walled_in_below(
                            groups@,
                            map@,
                            q,
                            flags@,
                            rank,
                        ) by {
                        if q != g && !interior_component(groups@, map@, q) {
                            assert(before[q]);
                            assert(walled_in_below(groups@, map@, q, before, before_rank));
                            assert forall|t: int| #[trigger] neighbour(groups@, map@, q, t) implies 0 <= t < flags@.len()
                                && flags@[t] && rank[t] < rank[q] by {
                                assert(before[t]);
                                assert(t != g);
                            }
                        }
                    }
                }
                changed = true;
            } else {
                proof {
                    if !changed {
                        let q = choose|q: int| 0 <= q < row@.len() && !#[trigger] flags@[row@[q] as int];
                        assert(nbrs@[g as int]@.contains(row@[q]));
                        assert(neighbour(groups@, map@, g as int, row@[q] as int));
                    }
                }
            }
            g = g + 1;
        }
        if !changed {
            break;
        }
    }
    proof {
        assert(rank.len() == groups@.len());
        assert(forall|q: int|
            0 <= q < groups@.len() && #[trigger] flags@[q] ==> interior_component(groups@, map@, q) || walled_in_below(
                groups@,
                map@,
                q,
                flags@,
                rank,
            ));
    }
    flags
}


// ---------------------------------------------------------------------
// Doorways
// ---------------------------------------------------------------------

/// The doorways these exits of room `from` make into group `t`, if it is
/// marked.
pub open spec fn doors_in_exits(
    groups: Seq<Group>,
    flags: Seq<bool>,
    from: RoomId,
    exits: Seq<crate::model::Exit>,
    t: int,
) -> Seq<Entrance>
    decreases exits.len(),
{
    if exits.len() == 0 {
        Seq::empty()
    } else {
        let rest = doors_in_exits(groups, flags, from, exits.drop_last(), t);
        let x = exits.last();
        if comp(groups, x.to) == Some(t) && 0 <= t < flags.len() && flags[t] {
            rest.push(Entrance { outdoor_room_id: from, interior_room_id: x.to })
        } else {
            rest
        }
    }
}

/// The doorways these rooms of the map make into group `t`.
pub open spec fn doors_in_rooms(
    groups: Seq<Group>,
    map: Seq<Room>,
    flags: Seq<bool>,
    ids: Seq<RoomId>,
    t: int,
) -> Seq<Entrance>
    decreases ids.len(),
{
    if ids.len() == 0 {
        Seq::empty()
    } else {
        doors_in_rooms(groups, map, flags, ids.drop_last(), t) + match room_of(map, ids.last()) {
            Some(r) => doors_in_exits(groups, flags, ids.last(), r.exits@, t),
            None => Seq::empty(),
        }
    }
}

/// The doorways into group `t` from the unmarked groups among the first
/// `m`, in the order the groups, their rooms and their exits come.
pub open spec fn doors_upto(groups: Seq<Group>, map: Seq<Room>, flags: Seq<bool>, t: int, m: int) -> Seq<
    Entrance,
>
    decreases m,
{
    if m <= 0 {
        Seq::empty()
    } else {
        doors_upto(groups, map, flags, t, m - 1) + if flags[m - 1] {
            Seq::empty()
        } else {
            doors_in_rooms(groups, map, flags, groups[m - 1].room_ids@, t)
        }
    }
}

/// Every doorway into group `t`: each exit from a room of a group that is
/// not marked into a room of `t`, which is.
pub open spec fn doors(groups: Seq<Group>, map: Seq<Room>, flags: Seq<bool>, t: int) -> Seq<Entrance> {
    doors_upto(groups, map, flags, t, groups.len() as int)
}

/// Doorways, per group, and the outdoor rooms that host one: each once,
/// in the order found.
fn compute_entrances(
    groups: &[Group],
    map: &RoomMap,
    flags: &Vec<bool>,
    m: &HashMapWithView<u32, usize>,
) -> (out: (Vec<Vec<Entrance>>, Vec<RoomId>))
    requires
        flags@.len() == groups@.len(),
        forall|id: RoomId| #[trigger] m@.contains_key(id.0) <==> comp(groups@, id) is Some,
        forall|id: RoomId| m@.contains_key(id.0) ==> #[trigger] comp(groups@, id) == Some(m@[id.0] as int),
    ensures
        out.0@.len() == groups@.len(),
        forall|t: int| 0 <= t < groups@.len() ==> (#[trigger] out.0@[t])@ == doors(groups@, map@, flags@, t),
        out.1@.no_duplicates(),
        forall|x: RoomId|
            #[trigger] out.1@.contains(x) <==> exists|t: int, q: int|
                0 <= t < groups@.len() && 0 <= q < out.0@[t]@.len() && (#[trigger] out.0@[t]@[q]).outdoor_room_id == x,
{
    let n = groups.len();
    let mut entrances: Vec<Vec<Entrance>> = Vec::new();
    let mut t: usize = 0;
    while t < n
        invariant
            t <= n,
            entrances@.len() == t,
            forall|q: int| 0 <= q < t ==> (#[trigger] entrances@[q])@.len() == 0,
        decreases n - t,
    {
        entrances.push(Vec::new());
        t = t + 1;
    }
    let mut hosts: Vec<RoomId> = Vec::new();
    let mut g: usize = 0;
    while g < n
        invariant
            g <= n,
            n == groups@.len(),
            flags@.len() == n,
            forall|id: RoomId| #[trigger] m@.contains_key(id.0) <==> comp(groups@, id) is Some,
            forall|id: RoomId| m@.contains_key(id.0) ==> #[trigger] comp(groups@, id) == Some(m@[id.0] as int),
            entrances@.len() == n,
            forall|t: int| 0 <= t < n ==> (#[trigger] entrances@[t])@ == doors_upto(groups@, map@, flags@, t, g as int),
            hosts@.no_duplicates(),
            forall|x: RoomId|
                #[trigger] hosts@.contains(x) <==> exists|t: int, q: int|
                    0 <= t < n && 0 <= q < entrances@[t]@.len() && (#[trigger] entrances@[t]@[q]).outdoor_room_id == x,
        decreases n - g,
    {
        if !flags[g] {
            let ids = &groups[g].room_ids;
            let mut k: usize = 0;
            while k < ids.len()
                invariant
                    g < n,
                    n == groups@.len(),
                    flags@.len() == n,
                    !flags@[g as int],
                    ids@ == groups@[g as int].room_ids@,
                    k <= ids@.len(),
                    forall|id: RoomId| #[trigger] m@.contains_key(id.0) <==> comp(groups@, id) is Some,
                    forall|id: RoomId| m@.contains_key(id.0) ==> #[trigger] comp(groups@, id) == Some(m@[id.0] as int),
                    entrances@.len() == n,
                    forall|t: int|
                        0 <= t < n ==> (#[trigger] entrances@[t])@ == doors_upto(groups@, map@, flags@, t, g as int)
                            + doors_in_rooms(groups@, map@, flags@, ids@.take(k as int), t),
                    hosts@.no_duplicates(),
                    forall|x: RoomId|
                        #[trigger] hosts@.contains(x) <==> exists|t: int, q: int|
                            0 <= t < n && 0 <= q < entrances@[t]@.len() && (#[trigger] entrances@[t]@[q]).outdoor_room_id == x,
                decreases ids.len() - k,
            {
                let id = ids[k];
                proof {
                    assert(ids@.take(k + 1).drop_last() =~= ids@.take(k as int));
                    assert(ids@.take(k + 1).last() == id);
                }
                match map.room(id) {
                    Some(room) => {
                        let mut e: usize = 0;
                        while e < room.exits.len()
                            invariant
                                g < n,
                                n == groups@.len(),
                                flags@.len() == n,
                                k < ids@.len(),
                                ids@[k as int] == id,
                                e <= room.exits@.len(),
                                forall|id: RoomId| #[trigger] m@.contains_key(id.0) <==> comp(groups@, id) is Some,
                                forall|id: RoomId| m@.contains_key(id.0) ==> #[trigger] comp(groups@, id) == Some(m@[id.0] as int),
                                entrances@.len() == n,
                                forall|t: int|
                                    0 <= t < n ==> (#[trigger] entrances@[t])@ == doors_upto(groups@, map@, flags@, t, g as int)
                                        + doors_in_rooms(groups@, map@, flags@, ids@.take(k as int), t) + doors_in_exits(
                                        groups@,
                                        flags@,
                                        id,
                                        room.exits@.take(e as int),
                                        t,
                                    ),
                                hosts@.no_duplicates(),
                                forall|x: RoomId|
                                    #[trigger] hosts@.contains(x) <==> exists|t: int, q: int|
                                        0 <= t < n && 0 <= q < entrances@[t]@.len() && (#[trigger] entrances@[t]@[q]).outdoor_room_id == x,
                            decreases room.exits.len() - e,
                        {
                            let to = room.exits[e].to;
                            proof {
                                assert(room.exits@.take(e + 1).drop_last() =~= room.exits@.take(e as int));
                                assert(room.exits@.take(e + 1).last() == room.exits@[e as int]);
                            }
                            match m.get(&to.0) {
                                Some(t) => {
                                    let t = *t;
                                    proof {
                                        lemma_comp_bound(groups@, to, groups@.len() as int);
                                    }
                                    if flags[t] {
                                        let ghost before = entrances@;
                                        let ghost before_hosts = hosts@;
                                        let ent = Entrance { outdoor_room_id: id, interior_room_id: to };
                                        entrances[t].push(ent);
                                        let known = contains_id(&hosts, id);
                                        if !known {
                                            hosts.push(id);
                                        }
                                        proof {
                                            assert forall|w: int|
                                                0 <= w < n implies (#[trigger] entrances@[w])@ == doors_upto(groups@, map@, flags@, w, g as int)
                                                    + doors_in_rooms(groups@, map@, flags@, ids@.take(k as int), w) + doors_in_exits(
                                                    groups@,
                                                    flags@,
                                                    id,
                                                    room.exits@.take(e + 1),
                                                    w,
                                                ) by {
                                                if w != t {
                                                    assert(entrances@[w] == before[w]);
                                                }
                                            }
                                            assert(entrances@[t as int]@[before[t as int]@.len() as int] == ent);
                                            assert forall|x: RoomId|
                                                #[trigger] hosts@.contains(x) <==> exists|w: int, q: int|
                                                    0 <= w < n && 0 <= q < entrances@[w]@.len() && (#[trigger] entrances@[w]@[q]).outdoor_room_id
                                                        == x by {
                                                if hosts@.contains(x) {
                                                    if x == id {
                                                        assert(entrances@[t as int]@[before[t as int]@.len() as int].outdoor_room_id == x);
                                                    } else {
                                                        let q0 = choose|q0: int| 0 <= q0 < hosts@.len() && hosts@[q0] == x;
                                                        if !known {
                                                            assert(q0 < before_hosts.len());
                                                        }
                                                        assert(before_hosts[q0] == x);
                                                        assert(before_hosts.contains(x));
                                                        let (w, q) = choose|w: int, q: int|
                                                            0 <= w < n && 0 <= q < before[w]@.len() && (#[trigger] before[w]@[q]).outdoor_room_id == x;
                                                        if w == t {
                                                            assert(entrances@[w]@[q] == before[w]@[q]);
                                                        } else {
                                                            assert(entrances@[w] == before[w]);
                                                        }
                                                    }
                                                }
                                                if exists|w: int, q: int|
                                                    0 <= w < n && 0 <= q < entrances@[w]@.len() && (#[trigger] entrances@[w]@[q]).outdoor_room_id == x {
                                                    let (w, q) = choose|w: int, q: int|
                                                        0 <= w < n && 0 <= q < entrances@[w]@.len() && (#[trigger] entrances@[w]@[q]).outdoor_room_id == x;
                                                    if w == t && q == before[t as int]@.len() {
                                                        if known {
                                                            let q0 = choose|q0: int| 0 <= q0 < hosts@.len() && hosts@[q0] == id;
                                                            assert(hosts@.contains(x));
                                                        } else {
                                                            assert(hosts@[before_hosts.len() as int] == x);
                                                        }
                                                    } else {
                                                        if w == t {
                                                            assert(before[w]@[q] == entrances@[w]@[q]);
                                                        } else {
                                                            assert(entrances@[w] == before[w]);
                                                        }
                                                        assert(before_hosts.contains(x));
                                                        let q0 = choose|q0: int| 0 <= q0 < before_hosts.len() && before_hosts[q0] == x;
                                                        assert(hosts@[q0] == x);
                                                    }
                                                }
                                            }
                                            if !known {
                                                assert forall|a: int, b: int| 0 <= a < hosts@.len() && 0 <= b < hosts@.len() && a != b implies hosts@[a] != hosts@[b] by {
                                                    if a == before_hosts.len() {
                                                        assert(!before_hosts.contains(id));
                                                        assert(hosts@[b] == before_hosts[b]);
                                                    } else if b == before_hosts.len() {
                                                        assert(!before_hosts.contains(id));
                                                        assert(hosts@[a] == before_hosts[a]);
                                                    }
                                                }
                                            }
                                        }
                                    } else {
                                        proof {
                                            assert forall|w: int|
                                                0 <= w < n implies (#[trigger] entrances@[w])@ == doors_upto(groups@, map@, flags@, w, g as int)
                                                    + doors_in_rooms(groups@, map@, flags@, ids@.take(k as int), w) + doors_in_exits(
                                                    groups@,
                                                    flags@,
                                                    id,
                                                    room.exits@.take(e + 1),
                                                    w,
                                                ) by {}
                                        }
                                    }
                                },
                                None => {
                                    proof {
                                        assert forall|w: int|
                                            0 <= w < n implies (#[trigger] entrances@[w])@ == doors_upto(groups@, map@, flags@, w, g as int)
                                                + doors_in_rooms(groups@, map@, flags@, ids@.take(k as int), w) + doors_in_exits(
                                                groups@,
                                                flags@,
                                                id,
                                                room.exits@.take(e + 1),
                                                w,
                                            ) by {}
                                    }
                                },
                            }
                            e = e + 1;
                        }
                        proof {
                            assert(room.exits@.take(room.exits@.len() as int) =~= room.exits@);
                            assert forall|w: int|
                                0 <= w < n implies (#[trigger] entrances@[w])@ == doors_upto(groups@, map@, flags@, w, g as int)
                                    + doors_in_rooms(groups@, map@, flags@, ids@.take(k + 1), w) by {
                                assert(doors_upto(groups@, map@, flags@, w, g as int) + doors_in_rooms(
                                    groups@,
                                    map@,
                                    flags@,
                                    ids@.take(k as int),
                                    w,
                                ) + doors_in_exits(groups@, flags@, id, room.exits@, w) =~= doors_upto(
                                    groups@,
                                    map@,
                                    flags@,
                                    w,
                                    g as int,
                                ) + doors_in_rooms(groups@, map@, flags@, ids@.take(k + 1), w));
                            }
                        }
                    },
                    None => {
                        proof {
                            assert forall|w: int|
                                0 <= w < n implies (#[trigger] entrances@[w])@ == doors_upto(groups@, map@, flags@, w, g as int)
                                    + doors_in_rooms(groups@, map@, flags@, ids@.take(k + 1), w) by {
                                assert(doors_in_rooms(groups@, map@, flags@, ids@.take(k + 1), w) =~= doors_in_rooms(
                                    groups@,
                                    map@,
                                    flags@,
                                    ids@.take(k as int),
                                    w,
                                ) + Seq::<Entrance>::empty());
                            }
                        }
                    },
                }
                k = k + 1;
            }
            proof {
                assert(ids@.take(ids@.len() as int) =~= ids@);
            }
        }
        proof {
            assert forall|w: int| 0 <= w < n implies (#[trigger] entrances@[w])@ == doors_upto(groups@, map@, flags@, w, g + 1) by {
                if flags@[g as int] {
                    assert(doors_upto(groups@, map@, flags@, w, g + 1) =~= doors_upto(groups@, map@, flags@, w, g as int));
                }
            }
        }
        g = g + 1;
    }
    (entrances, hosts)
}

/// Whether the list holds this id.
fn contains_id(list: &Vec<RoomId>, id: RoomId) -> (b: bool)
    ensures
        b == list@.contains(id),
{
    let mut k: usize = 0;
    while k < list.len()
        invariant
            k <= list@.len(),
            forall|q: int| 0 <= q < k ==> list@[q] != id,
        decreases list.len() - k,
    {
        if list[k].0 == id.0 {
            assert(list@[k as int] == id);
            return true;
        }
        k = k + 1;
    }
    false
}


// ---------------------------------------------------------------------
// Classification
// ---------------------------------------------------------------------

/// Which groups are interiors, and their doorways. Group `g` is the
/// `g`-th of the slice classified.
#[derive(Debug, Clone, PartialEq, Eq)]
pub struct Classification {
    /// One flag per group: whether it is an interior.
    pub interior_groups: Vec<bool>,
    /// Per group, the doorways into it: empty for a group that is not an
    /// interior.
    pub entrances: Vec<Vec<Entrance>>,
    /// Outdoor rooms that host a doorway, each once, in the order found.
    pub entrance_room_ids: Vec<RoomId>,
}

/// The doorway lists and hosts match the interior flags.
pub open spec fn doorways_match(groups: Seq<Group>, map: Seq<Room>, c: Classification) -> bool {
    &&& c.entrances@.len() == groups.len()
    &&& forall|t: int| 0 <= t < groups.len() ==> (#[trigger] c.entrances@[t])@ == doors(groups, map, c.interior_groups@, t)
    &&& c.entrance_room_ids@.no_duplicates()
    &&& forall|x: RoomId|
        #[trigger] c.entrance_room_ids@.contains(x) <==> exists|t: int, q: int|
            0 <= t < groups.len() && 0 <= q < c.entrances@[t]@.len() && (#[trigger] c.entrances@[t]@[q]).outdoor_room_id == x
}

/// Classifies every group as interior or not, and finds the doorways
/// into the interiors.
pub fn classify(groups: &[Group], map: &RoomMap) -> (c: Classification)
    ensures
        interiors(groups@, map@, c.interior_groups@),
        doorways_match(groups@, map@, c),
{
    let m = component_index(groups);
    let flags = interior_flags(groups, &m, map);
    let (entrances, hosts) = compute_entrances(groups, map, &flags, &m);
    Classification { interior_groups: flags, entrances, entrance_room_ids: hosts }
}

impl Classification {
    /// Recomputes the doorways from the current interior flags, for a
    /// caller that has moved groups between sheets.
    pub fn recompute_entrances(&mut self, groups: &[Group], map: &RoomMap)
        requires
            old(self).interior_groups@.len() == groups@.len(),
        ensures
            final(self).interior_groups == old(self).interior_groups,
            doorways_match(groups@, map@, *final(self)),
    {
        let m = component_index(groups);
        let (entrances, hosts) = compute_entrances(groups, map, &self.interior_groups, &m);
        self.entrances = entrances;
        self.entrance_room_ids = hosts;
    }
}

// ---------------------------------------------------------------------
// Buildings
// ---------------------------------------------------------------------

/// A component this large is a zone, not a room of somebody's building:
/// it gets its own cluster and never welds its neighbours.
pub const ZONE_COMPONENT_ROOMS: usize = 50;

/// Group `g` is zone-sized.
pub open spec fn zone(groups: Seq<Group>, g: int) -> bool {
    groups[g].room_ids@.len() > ZONE_COMPONENT_ROOMS
}

/// The last marked group among the first `m` holding room `id`.
pub open spec fn comp_in_upto(groups: Seq<Group>, flags: Seq<bool>, id: RoomId, m: int) -> Option<int>
    decreases m,
{
    if m <= 0 {
        None
    } else if flags[m - 1] && groups[m - 1].room_ids@.contains(id) {
        Some(m - 1)
    } else {
        comp_in_upto(groups, flags, id, m - 1)
    }
}

/// The marked group a room belongs to.
pub open spec fn comp_in(groups: Seq<Group>, flags: Seq<bool>, id: RoomId) -> Option<int> {
    comp_in_upto(groups, flags, id, groups.len() as int)
}

/// Among the first `m` of these exits, one leads into marked group `t`.
pub open spec fn exit_into_in(
    groups: Seq<Group>,
    flags: Seq<bool>,
    exits: Seq<crate::model::Exit>,
    t: int,
    m: int,
) -> bool {
    exists|w: int| 0 <= w < m && w < exits.len() && comp_in(groups, flags, #[trigger] exits[w].to) == Some(t)
}

/// Among the first `k` rooms of group `a`, one has an exit into marked
/// group `t`.
pub open spec fn rooms_into_in(groups: Seq<Group>, map: Seq<Room>, flags: Seq<bool>, a: int, t: int, k: int) -> bool {
    exists|q: int|
        0 <= q < k && q < groups[a].room_ids@.len() && #[trigger] room_of(map, groups[a].room_ids@[q]) is Some
            && exit_into_in(
            groups,
            flags,
            room_of(map, groups[a].room_ids@[q])->0.exits@,
            t,
            room_of(map, groups[a].room_ids@[q])->0.exits@.len() as int,
        )
}

/// Interior group `b` is a wing of interior group `a`: an exit of `a`'s
/// leads into it, and neither is zone-sized.
pub open spec fn wing(groups: Seq<Group>, map: Seq<Room>, flags: Seq<bool>, a: int, b: int) -> bool {
    &&& 0 <= a < groups.len()
    &&& 0 <= b < groups.len()
    &&& a != b
    &&& flags[a]
    &&& flags[b]
    &&& !zone(groups, a)
    &&& !zone(groups, b)
    &&& rooms_into_in(groups, map, flags, a, b, groups[a].room_ids@.len() as int)
}

/// Consecutive groups of the path are wings of each other, one way or
/// the other.
pub open spec fn chain(groups: Seq<Group>, map: Seq<Room>, flags: Seq<bool>, p: Seq<int>) -> bool {
    forall|k: int|
        0 <= k < p.len() - 1 ==> wing(groups, map, flags, #[trigger] p[k], p[k + 1]) || wing(
            groups,
            map,
            flags,
            p[k + 1],
            p[k],
        )
}

/// Interior groups `a` and `b` are one walkable building.
pub open spec fn joined(groups: Seq<Group>, map: Seq<Room>, flags: Seq<bool>, a: int, b: int) -> bool {
    exists|p: Seq<int>| p.len() > 0 && p[0] == a && p.last() == b && #[trigger] chain(groups, map, flags, p)
}

proof fn lemma_joined_refl(groups: Seq<Group>, map: Seq<Room>, flags: Seq<bool>, a: int)
    ensures
        joined(groups, map, flags, a, a),
{
    let p = seq![a];
    assert(chain(groups, map, flags, p));
}

proof fn lemma_joined_wing(groups: Seq<Group>, map: Seq<Room>, flags: Seq<bool>, a: int, b: int)
    requires
        wing(groups, map, flags, a, b),
    ensures
        joined(groups, map, flags, a, b),
        joined(groups, map, flags, b, a),
{
    let p = seq![a, b];
    assert(chain(groups, map, flags, p)) by {
        assert forall|k: int| 0 <= k < p.len() - 1 implies wing(groups, map, flags, #[trigger] p[k], p[k + 1]) || wing(
            groups,
            map,
            flags,
            p[k + 1],
            p[k],
        ) by {
            assert(k == 0);
        }
    }
    let q = seq![b, a];
    assert(chain(groups, map, flags, q)) by {
        assert forall|k: int| 0 <= k < q.len() - 1 implies wing(groups, map, flags, #[trigger] q[k], q[k + 1]) || wing(
            groups,
            map,
            flags,
            q[k + 1],
            q[k],
        ) by {
            assert(k == 0);
        }
    }
}

proof fn lemma_joined_sym(groups: Seq<Group>, map: Seq<Room>, flags: Seq<bool>, a: int, b: int)
    requires
        joined(groups, map, flags, a, b),
    ensures
        joined(groups, map, flags, b, a),
{
    let p = choose|p: Seq<int>| p.len() > 0 && p[0] == a && p.last() == b && #[trigger] chain(groups, map, flags, p);
    let r = p.reverse();
    assert(chain(groups, map, flags, r)) by {
        assert forall|k: int| 0 <= k < r.len() - 1 implies wing(groups, map, flags, #[trigger] r[k], r[k + 1]) || wing(
            groups,
            map,
            flags,
            r[k + 1],
            r[k],
        ) by {
            let j = p.len() - 2 - k;
            assert(r[k] == p[j + 1]);
            assert(r[k + 1] == p[j]);
            assert(wing(groups, map, flags, p[j], p[j + 1]) || wing(groups, map, flags, p[j + 1], p[j]));
        }
    }
    assert(r[0] == b);
    assert(r.last() == a);
}

proof fn lemma_joined_trans(groups: Seq<Group>, map: Seq<Room>, flags: Seq<bool>, a: int, b: int, c: int)
    requires
        joined(groups, map, flags, a, b),
        joined(groups, map, flags, b, c),
    ensures
        joined(groups, map, flags, a, c),
{
    let p = choose|p: Seq<int>| p.len() > 0 && p[0] == a && p.last() == b && #[trigger] chain(groups, map, flags, p);
    let q = choose|q: Seq<int>| q.len() > 0 && q[0] == b && q.last() == c && #[trigger] chain(groups, map, flags, q);
    let r = p + q.drop_first();
    assert(chain(groups, map, flags, r)) by {
        assert forall|k: int| 0 <= k < r.len() - 1 implies wing(groups, map, flags, #[trigger] r[k], r[k + 1]) || wing(
            groups,
            map,
            flags,
            r[k + 1],
            r[k],
        ) by {
            if k < p.len() - 1 {
                assert(r[k] == p[k] && r[k + 1] == p[k + 1]);
                assert(wing(groups, map, flags, p[k], p[k + 1]) || wing(groups, map, flags, p[k + 1], p[k]));
            } else {
                let j = k - (p.len() - 1);
                assert(r[k] == q[j]);
                assert(r[k + 1] == q[j + 1]);
                assert(wing(groups, map, flags, q[j], q[j + 1]) || wing(groups, map, flags, q[j + 1], q[j]));
            }
        }
    }
    assert(r[0] == a);
    if q.len() == 1 {
        assert(r.last() == p.last());
    } else {
        assert(r.last() == q.last());
    }
}


/// Which marked group each room id belongs to.
fn interior_index(groups: &[Group], flags: &Vec<bool>) -> (m: HashMapWithView<u32, usize>)
    requires
        flags@.len() == groups@.len(),
    ensures
        forall|id: RoomId| #[trigger] m@.contains_key(id.0) <==> comp_in(groups@, flags@, id) is Some,
        forall|id: RoomId| m@.contains_key(id.0) ==> #[trigger] comp_in(groups@, flags@, id) == Some(m@[id.0] as int),
{
    let mut m: HashMapWithView<u32, usize> = HashMapWithView::new();
    let mut g: usize = 0;
    while g < groups.len()
        invariant
            g <= groups@.len(),
            flags@.len() == groups@.len(),
            forall|id: RoomId| #[trigger] m@.contains_key(id.0) <==> comp_in_upto(groups@, flags@, id, g as int) is Some,
            forall|id: RoomId| m@.contains_key(id.0) ==> #[trigger] comp_in_upto(groups@, flags@, id, g as int) == Some(
                m@[id.0] as int,
            ),
        decreases groups.len() - g,
    {
        if flags[g] {
            let ids = &groups[g].room_ids;
            let mut k: usize = 0;
            while k < ids.len()
                invariant
                    g < groups@.len(),
                    flags@.len() == groups@.len(),
                    flags@[g as int],
                    ids@ == groups@[g as int].room_ids@,
                    k <= ids@.len(),
                    forall|id: RoomId| #[trigger] m@.contains_key(id.0) <==> (ids@.take(k as int).contains(id)
                        || comp_in_upto(groups@, flags@, id, g as int) is Some),
                    forall|id: RoomId|
                        m@.contains_key(id.0) ==> #[trigger] m@[id.0] as int == if ids@.take(k as int).contains(id) {
                            g as int
                        } else {
                            comp_in_upto(groups@, flags@, id, g as int)->0
                        },
                decreases ids.len() - k,
            {
                let id = ids[k];
                m.insert(id.0, g);
                proof {
                    let t1 = ids@.take(k + 1);
                    let t0 = ids@.take(k as int);
                    assert(t1 =~= t0.push(id));
                    assert forall|x: RoomId| t1.contains(x) == (t0.contains(x) || x == id) by {
                        if t1.contains(x) && x != id {
                            let w = choose|w: int| 0 <= w < t1.len() && t1[w] == x;
                            assert(t0[w] == x);
                        }
                        if t0.contains(x) {
                            let w = choose|w: int| 0 <= w < t0.len() && t0[w] == x;
                            assert(t1[w] == x);
                        }
                        if x == id {
                            assert(t1[k as int] == x);
                        }
                    }
                    assert forall|x: RoomId, y: RoomId| x.0 == y.0 implies x == y by {}
                }
                k = k + 1;
            }
            proof {
                assert(ids@.take(ids@.len() as int) =~= ids@);
            }
        }
        g = g + 1;
    }
    m
}

proof fn lemma_comp_in_bound(groups: Seq<Group>, flags: Seq<bool>, id: RoomId, m: int)
    requires
        0 <= m <= groups.len(),
        flags.len() == groups.len(),
    ensures
        comp_in_upto(groups, flags, id, m) matches Some(t) ==> 0 <= t < m && flags[t],
    decreases m,
{
    if m > 0 {
        lemma_comp_in_bound(groups, flags, id, m - 1);
    }
}

/// Cluster labels so far: each marked group names a marked group no
/// later than itself, which names itself; groups that share a label are
/// one building; unmarked groups name themselves.
spec fn labels_ok(groups: Seq<Group>, map: Seq<Room>, flags: Seq<bool>, lab: Seq<usize>) -> bool {
    &&& lab.len() == groups.len()
    &&& flags.len() == groups.len()
    &&& reps(lab)
    &&& forall|q: int| 0 <= q < lab.len() && !flags[q] ==> #[trigger] lab[q] == q
    &&& forall|q: int| 0 <= q < lab.len() && flags[q] ==> #[trigger] lab[q] <= q && flags[lab[q] as int]
    &&& forall|x: int, y: int|
        0 <= x < lab.len() && 0 <= y < lab.len() && flags[x] && flags[y] && #[trigger] lab[x] == #[trigger] lab[y]
            ==> joined(groups, map, flags, x, y)
}

/// Joins the clusters of group `a` and its wing `o`.
fn link_wing(
    lab: &mut Vec<usize>,
    groups: &[Group],
    map: &RoomMap,
    interior: &Vec<bool>,
    a: usize,
    o: usize,
)
    requires
        labels_ok(groups@, map@, interior@, old(lab)@),
        wing(groups@, map@, interior@, a as int, o as int),
    ensures
        labels_ok(groups@, map@, interior@, final(lab)@),
        coarser(old(lab)@, final(lab)@),
        final(lab)@[a as int] == final(lab)@[o as int],
{
    let ghost before = lab@;
    proof {
        lemma_joined_wing(groups@, map@, interior@, a as int, o as int);
    }
    join_sets(lab, a, o);
    proof {
        let n = groups@.len();
        assert forall|q: int| 0 <= q < n && !interior@[q] implies #[trigger] lab@[q] == q by {
            if lab@[q] != before[q] {
                assert(before[q] == q);
                assert(lab@[q] == before[a as int] || lab@[q] == before[o as int]);
                assert(interior@[before[a as int] as int] && interior@[before[o as int] as int]);
            }
        }
        assert forall|q: int| 0 <= q < n && interior@[q] implies #[trigger] lab@[q] <= q && interior@[lab@[q] as int] by {
            if lab@[q] != before[q] {
                assert(interior@[before[a as int] as int] && interior@[before[o as int] as int]);
            }
        }
        assert forall|x: int, y: int|
            0 <= x < n && 0 <= y < n && interior@[x] && interior@[y] && #[trigger] lab@[x] == #[trigger] lab@[y]
                implies joined(groups@, map@, interior@, x, y) by {
            if before[x] == before[y] {
            } else if before[x] == before[a as int] && before[y] == before[o as int] {
                lemma_joined_trans(groups@, map@, interior@, x, a as int, o as int);
                lemma_joined_trans(groups@, map@, interior@, x, o as int, y);
            } else {
                assert(before[x] == before[o as int] && before[y] == before[a as int]);
                lemma_joined_trans(groups@, map@, interior@, x, o as int, a as int);
                lemma_joined_trans(groups@, map@, interior@, x, a as int, y);
            }
        }
    }
}

/// Joins group `a` with each wing its room's exits lead into.
fn link_room(
    lab: &mut Vec<usize>,
    groups: &[Group],
    map: &RoomMap,
    interior: &Vec<bool>,
    idx: &HashMapWithView<u32, usize>,
    a: usize,
    k: usize,
    room: &Room,
)
    requires
        labels_ok(groups@, map@, interior@, old(lab)@),
        a < groups@.len(),
        interior@[a as int],
        !zone(groups@, a as int),
        k < groups@[a as int].room_ids@.len(),
        room_of(map@, groups@[a as int].room_ids@[k as int]) == Some(*room),
        forall|id: RoomId| #[trigger] idx@.contains_key(id.0) <==> comp_in(groups@, interior@, id) is Some,
        forall|id: RoomId| idx@.contains_key(id.0) ==> #[trigger] comp_in(groups@, interior@, id) == Some(idx@[id.0] as int),
    ensures
        labels_ok(groups@, map@, interior@, final(lab)@),
        coarser(old(lab)@, final(lab)@),
        forall|y: int|
            0 <= y < groups@.len() && y != a && interior@[y] && !zone(groups@, y) && #[trigger] exit_into_in(
                groups@,
                interior@,
                room.exits@,
                y,
                room.exits@.len() as int,
            ) ==> final(lab)@[a as int] == final(lab)@[y],
{
    let ghost start = lab@;
    let n = groups.len();
    let mut e: usize = 0;
    while e < room.exits.len()
        invariant
            n == groups@.len(),
            a < n,
            interior@[a as int],
            !zone(groups@, a as int),
            k < groups@[a as int].room_ids@.len(),
            room_of(map@, groups@[a as int].room_ids@[k as int]) == Some(*room),
            forall|id: RoomId| #[trigger] idx@.contains_key(id.0) <==> comp_in(groups@, interior@, id) is Some,
            forall|id: RoomId| idx@.contains_key(id.0) ==> #[trigger] comp_in(groups@, interior@, id) == Some(idx@[id.0] as int),
            e <= room.exits@.len(),
            labels_ok(groups@, map@, interior@, lab@),
            start.len() == n,
            coarser(start, lab@),
            forall|y: int|
                0 <= y < n && y != a && interior@[y] && !zone(groups@, y) && #[trigger] exit_into_in(
                    groups@,
                    interior@,
                    room.exits@,
                    y,
                    e as int,
                ) ==> lab@[a as int] == lab@[y],
        decreases room.exits.len() - e,
    {
        proof {
            assert forall|y: int| #[trigger] exit_into_in(groups@, interior@, room.exits@, y, e + 1) == (exit_into_in(
                groups@,
                interior@,
                room.exits@,
                y,
                e as int,
            ) || comp_in(groups@, interior@, room.exits@[e as int].to) == Some(y)) by {
                if exit_into_in(groups@, interior@, room.exits@, y, e + 1) && !exit_into_in(
                    groups@,
                    interior@,
                    room.exits@,
                    y,
                    e as int,
                ) {
                    let w = choose|w: int|
                        0 <= w < e + 1 && w < room.exits@.len() && comp_in(groups@, interior@, #[trigger] room.exits@[w].to)
                            == Some(y);
                    assert(w == e);
                }
            }
        }
        let ghost before = lab@;
        assert(coarser(start, before));
        match idx.get(&room.exits[e].to.0) {
            Some(o) => {
                let o = *o;
                proof {
                    lemma_comp_in_bound(groups@, interior@, room.exits@[e as int].to, n as int);
                }
                if o != a && groups[o].room_ids.len() <= ZONE_COMPONENT_ROOMS {
                    proof {
                        assert(exit_into_in(groups@, interior@, room.exits@, o as int, e + 1));
                        assert(room_of(map@, groups@[a as int].room_ids@[k as int]) is Some);
                        assert(rooms_into_in(
                            groups@,
                            map@,
                            interior@,
                            a as int,
                            o as int,
                            groups@[a as int].room_ids@.len() as int,
                        ));
                    }
                    link_wing(lab, groups, map, interior, a, o);
                }
            },
            None => {},
        }
        proof {
            assert forall|x: int, y: int|
                0 <= x < start.len() && 0 <= y < start.len() && #[trigger] start[x] == #[trigger] start[y]
                    implies lab@[x] == lab@[y] by {
                assert(before[x] == before[y]);
            }
            assert forall|y: int|
                0 <= y < n && y != a && interior@[y] && !zone(groups@, y) && #[trigger] exit_into_in(
                    groups@,
                    interior@,
                    room.exits@,
                    y,
                    e + 1,
                ) implies lab@[a as int] == lab@[y] by {
                if exit_into_in(groups@, interior@, room.exits@, y, e as int) {
                    assert(before[a as int] == before[y]);
                }
            }
        }
        e = e + 1;
    }
}

/// Interior clusters: interior groups connected by any exit between their
/// rooms are one walkable building, "go arch" as surely as "north". Only
/// edges into a zone-sized component separate. Each interior group gets
/// its cluster's id, the smallest group index in it; other groups get
/// none.
pub fn interior_clusters(groups: &[Group], interior: &Vec<bool>, map: &RoomMap) -> (out: Vec<Option<usize>>)
    requires
        interior@.len() == groups@.len(),
    ensures
        out@.len() == groups@.len(),
        forall|g: int| 0 <= g < groups@.len() ==> ((#[trigger] out@[g]) is Some <==> interior@[g]),
        forall|g: int|
            0 <= g < groups@.len() && #[trigger] interior@[g] ==> out@[g]->0 <= g && interior@[out@[g]->0 as int]
                && out@[out@[g]->0 as int] == out@[g],
        forall|a: int, b: int| #[trigger] wing(groups@, map@, interior@, a, b) ==> out@[a] == out@[b],
        forall|a: int, b: int|
            0 <= a < groups@.len() && 0 <= b < groups@.len() && interior@[a] && interior@[b] && #[trigger] out@[a]
                == #[trigger] out@[b] ==> joined(groups@, map@, interior@, a, b),
{
    let n = groups.len();
    let idx = interior_index(groups, interior);
    let mut lab: Vec<usize> = Vec::new();
    let mut g: usize = 0;
    while g < n
        invariant
            g <= n,
            lab@.len() == g,
            forall|q: int| 0 <= q < g ==> #[trigger] lab@[q] == q,
        decreases n - g,
    {
        lab.push(g);
        g = g + 1;
    }
    proof {
        assert forall|x: int, y: int|
            0 <= x < n && 0 <= y < n && interior@[x] && interior@[y] && #[trigger] lab@[x] == #[trigger] lab@[y]
                implies joined(groups@, map@, interior@, x, y) by {
            lemma_joined_refl(groups@, map@, interior@, x);
        }
    }
    let mut a: usize = 0;
    while a < n
        invariant
            a <= n,
            n == groups@.len(),
            interior@.len() == n,
            forall|id: RoomId| #[trigger] idx@.contains_key(id.0) <==> comp_in(groups@, interior@, id) is Some,
            forall|id: RoomId| idx@.contains_key(id.0) ==> #[trigger] comp_in(groups@, interior@, id) == Some(idx@[id.0] as int),
            labels_ok(groups@, map@, interior@, lab@),
            forall|x: int, y: int| 0 <= x < a && #[trigger] wing(groups@, map@, interior@, x, y) ==> lab@[x] == lab@[y],
        decreases n - a,
    {
        if interior[a] && groups[a].room_ids.len() <= ZONE_COMPONENT_ROOMS {
            let ids = &groups[a].room_ids;
            let mut k: usize = 0;
            while k < ids.len()
                invariant
                    a < n,
                    n == groups@.len(),
                    interior@.len() == n,
                    interior@[a as int],
                    !zone(groups@, a as int),
                    ids@ == groups@[a as int].room_ids@,
                    k <= ids@.len(),
                    forall|id: RoomId| #[trigger] idx@.contains_key(id.0) <==> comp_in(groups@, interior@, id) is Some,
                    forall|id: RoomId| idx@.contains_key(id.0) ==> #[trigger] comp_in(groups@, interior@, id) == Some(idx@[id.0] as int),
                    labels_ok(groups@, map@, interior@, lab@),
                    forall|x: int, y: int| 0 <= x < a && #[trigger] wing(groups@, map@, interior@, x, y) ==> lab@[x] == lab@[y],
                    forall|y: int|
                        0 <= y < n && y != a && interior@[y] && !zone(groups@, y) && #[trigger] rooms_into_in(
                            groups@,
                            map@,
                            interior@,
                            a as int,
                            y,
                            k as int,
                        ) ==> lab@[a as int] == lab@[y],
                decreases ids.len() - k,
            {
                proof {
                    assert forall|y: int| #[trigger] rooms_into_in(groups@, map@, interior@, a as int, y, k + 1) == (
                    rooms_into_in(groups@, map@, interior@, a as int, y, k as int) || (room_of(map@, ids@[k as int]) is Some
                        && exit_into_in(
                        groups@,
                        interior@,
                        room_of(map@, ids@[k as int])->0.exits@,
                        y,
                        room_of(map@, ids@[k as int])->0.exits@.len() as int,
                    ))) by {
                        if rooms_into_in(groups@, map@, interior@, a as int, y, k + 1) && !rooms_into_in(
                            groups@,
                            map@,
                            interior@,
                            a as int,
                            y,
                            k as int,
                        ) {
                            let q = choose|q: int|
                                0 <= q < k + 1 && q < groups@[a as int].room_ids@.len() && #[trigger] room_of(
                                    map@,
                                    groups@[a as int].room_ids@[q],
                                ) is Some && exit_into_in(
                                    groups@,
                                    interior@,
                                    room_of(map@, groups@[a as int].room_ids@[q])->0.exits@,
                                    y,
                                    room_of(map@, groups@[a as int].room_ids@[q])->0.exits@.len() as int,
                                );
                            assert(q == k);
                        }
                    }
                }
                let ghost before = lab@;
                match map.room(ids[k]) {
                    Some(room) => {
                        link_room(&mut lab, groups, map, interior, &idx, a, k, room);
                        proof {
                            assert forall|x: int, y: int| 0 <= x < a && #[trigger] wing(groups@, map@, interior@, x, y)
                                implies lab@[x] == lab@[y] by {
                                assert(before[x] == before[y]);
                            }
                            assert forall|y: int|
                                0 <= y < n && y != a && interior@[y] && !zone(groups@, y) && #[trigger] rooms_into_in(
                                    groups@,
                                    map@,
                                    interior@,
                                    a as int,
                                    y,
                                    k + 1,
                                ) implies lab@[a as int] == lab@[y] by {
                                if rooms_into_in(groups@, map@, interior@, a as int, y, k as int) {
                                    assert(before[a as int] == before[y]);
                                } else {
                                    assert(exit_into_in(groups@, interior@, room.exits@, y, room.exits@.len() as int));
                                }
                            }
                        }
                    },
                    None => {},
                }
                k = k + 1;
            }
            proof {
                assert forall|x: int, y: int| 0 <= x < a + 1 && #[trigger] wing(groups@, map@, interior@, x, y)
                    implies lab@[x] == lab@[y] by {
                    if x == a {
                        assert(rooms_into_in(groups@, map@, interior@, a as int, y, ids@.len() as int));
                    }
                }
            }
        }
        a = a + 1;
    }
    let mut out: Vec<Option<usize>> = Vec::new();
    let mut g: usize = 0;
    while g < n
        invariant
            g <= n,
            n == groups@.len(),
            interior@.len() == n,
            lab@.len() == n,
            out@.len() == g,
            forall|q: int| 0 <= q < g ==> #[trigger] out@[q] == if interior@[q] {
                Some(lab@[q])
            } else {
                None
            },
        decreases n - g,
    {
        if interior[g] {
            out.push(Some(lab[g]));
        } else {
            out.push(None);
        }
        g = g + 1;
    }
    proof {
        assert forall|g: int|
            0 <= g < n && #[trigger] interior@[g] implies out@[g]->0 <= g && interior@[out@[g]->0 as int]
                && out@[out@[g]->0 as int] == out@[g] by {
            let r = lab@[g] as int;
            assert(lab@[r] == lab@[g]);
        }
        assert forall|a: int, b: int| #[trigger] wing(groups@, map@, interior@, a, b) implies out@[a] == out@[b] by {}
    }
    out
}


// ---------------------------------------------------------------------
// Building names
// ---------------------------------------------------------------------

/// `n` is the most common of the names, the one seen first among equals.
pub open spec fn first_commonest(names: Seq<Seq<char>>, n: Seq<char>) -> bool {
    exists|i: int|
        0 <= i < names.len() && names[i] == n && forall|j: int|
            0 <= j < names.len() ==> occurrences(names, #[trigger] names[j]) <= occurrences(names, n) && (j < i
                ==> occurrences(names, names[j]) < occurrences(names, n))
}

/// How many of the names equal the one at `i`.
fn occurrences_at(names: &Vec<String>, i: usize) -> (c: usize)
    requires
        i < names@.len(),
    ensures
        c == occurrences(names@.map_values(|s: String| s@), names@[i as int]@),
{
    let ghost all = names@.map_values(|s: String| s@);
    let mut c: usize = 0;
    let mut k: usize = 0;
    while k < names.len()
        invariant
            k <= names@.len(),
            i < names@.len(),
            all == names@.map_values(|s: String| s@),
            c == occurrences(all.take(k as int), all[i as int]),
            c <= k,
        decreases names.len() - k,
    {
        assert(all.take(k + 1).drop_last() =~= all.take(k as int));
        if same_text(names[k].as_str(), names[i].as_str()) {
            c = c + 1;
        }
        k = k + 1;
    }
    assert(all.take(names@.len() as int) =~= all);
    c
}

/// "[Manor House, Foyer]" -> "Manor House": the most common bracketed
/// prefix among the group's room titles, the first seen among equals.
pub fn building_name(group: &Group, map: &RoomMap) -> (r: Option<String>)
    ensures
        r is None <==> titled_names(map@, group.room_ids@, false).len() == 0,
        r matches Some(n) ==> first_commonest(titled_names(map@, group.room_ids@, false), n@),
{
    let names = titles_of(map, &group.room_ids, false);
    let ghost all = names@.map_values(|s: String| s@);
    if names.len() == 0 {
        return None;
    }
    let mut best: usize = 0;
    let mut best_count: usize = occurrences_at(&names, 0);
    let mut i: usize = 1;
    while i < names.len()
        invariant
            all == names@.map_values(|s: String| s@),
            1 <= i <= names@.len(),
            best < i,
            best_count == occurrences(all, all[best as int]),
            forall|j: int| 0 <= j < i ==> occurrences(all, #[trigger] all[j]) <= best_count,
            forall|j: int| 0 <= j < best ==> occurrences(all, #[trigger] all[j]) < best_count,
        decreases names.len() - i,
    {
        let c = occurrences_at(&names, i);
        if c > best_count {
            best = i;
            best_count = c;
        }
        i = i + 1;
    }
    proof {
        assert(all[best as int] == names@[best as int]@);
        assert forall|j: int|
            0 <= j < all.len() implies occurrences(all, #[trigger] all[j]) <= occurrences(all, names@[best as int]@) && (j < best
                ==> occurrences(all, all[j]) < occurrences(all, names@[best as int]@)) by {}
    }
    Some(names[best].clone())
}

} // verus!
