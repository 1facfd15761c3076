//! The layout pipeline over one selection of rooms: menus and removed
//! rooms dropped, the compass read and corrected, the components placed
//! and classified, then the outdoor components packed on one sheet and
//! the interior buildings shelved and named. It runs in two steps, because the seats
//! the hand-drawn map images give the outdoor pass are computed between
//! them, from the positions the first step finds.

use vstd::prelude::*;

use crate::classifier::{Classification, building_name, classify, doorways_match, interior_clusters, interiors};
use crate::derived::titled_names;
use crate::derived::{is_place, lemma_real_rooms_unique, real_rooms};
use crate::direction::{DirectionMap, EdgeOverride, apply_edges, resolve_rooms};
use crate::geometry::{Cell, PackMethod, TOWN_SCALE};
use crate::group::Group;
use crate::model::{Room, RoomMap, ids_unique};
use crate::packer::{aligned, cells_within, listed, sheet_limit, spans_within};
use crate::packing::{fitted, outdoor_method, pack_groups, packed_ok, placed_cells, same_shape, sheet_room};
use crate::shelf::{pack_interior_shelf, shelved};
use crate::positioner::{cells_of, layout_fits, placed_group, position_rooms, rooms_once};
use crate::regions::is_real_room;

verus! {

/// The indices below `n` whose flag is `want`, in order.
pub open spec fn indices_where(flags: Seq<bool>, want: bool, n: int) -> Seq<usize>
    decreases n,
{
    if n <= 0 {
        Seq::empty()
    } else {
        let r = indices_where(flags, want, n - 1);
        if flags[n - 1] == want {
            r.push((n - 1) as usize)
        } else {
            r
        }
    }
}

/// Every index below `n`, in order.
pub open spec fn all_indices(n: int) -> Seq<usize> {
    Seq::new(n as nat, |i: int| i as usize)
}

/// The outdoor list for interior flags `flags`: the groups that are not
/// interiors, or every group when all of them are.
pub open spec fn outdoor_of(flags: Seq<bool>) -> Seq<usize> {
    if indices_where(flags, false, flags.len() as int).len() == 0 {
        all_indices(flags.len() as int)
    } else {
        indices_where(flags, false, flags.len() as int)
    }
}

/// The interiors list for interior flags `flags`: the interiors, or none
/// when every group is one.
pub open spec fn interiors_of(flags: Seq<bool>) -> Seq<usize> {
    if indices_where(flags, false, flags.len() as int).len() == 0 {
        Seq::empty()
    } else {
        indices_where(flags, true, flags.len() as int)
    }
}

/// The first step's result: the selection's real rooms, their corrected
/// compass, the placed and classified components, and which of them the
/// outdoor sheet packs and which are interiors.
pub struct Prepared {
    pub map: RoomMap,
    pub dirs: DirectionMap,
    pub groups: Vec<Group>,
    pub classification: Classification,
    pub outdoor: Vec<usize>,
    pub interiors: Vec<usize>,
}

/// What the first step promises of its result, for the rooms `rooms`
/// given and the corrections `edges`.
pub open spec fn prepared_from(p: Prepared, rooms: Seq<Room>, edges: Seq<EdgeOverride>) -> bool {
    let places = real_rooms(rooms);
    &&& p.map@ == places
    &&& p.dirs@ == apply_edges(resolve_rooms(places, places), places, edges)
    &&& forall|g: int| 0 <= g < p.groups@.len() ==> placed_group(#[trigger] p.groups@[g], g, places, p.dirs@)
    &&& rooms_once(p.groups@)
    &&& interiors(p.groups@, places, p.classification.interior_groups@)
    &&& doorways_match(p.groups@, places, p.classification)
    &&& p.classification.interior_groups@.len() == p.groups@.len()
    &&& p.outdoor@ == outdoor_of(p.classification.interior_groups@)
    &&& p.interiors@ == interiors_of(p.classification.interior_groups@)
}

/// The rooms that are places, in order, handed over.
fn keep_real(rooms: Vec<Room>) -> (out: Vec<Room>)
    ensures
        out@ == real_rooms(rooms@),
{
    let ghost orig = rooms@;
    let n = rooms.len();
    let mut rooms = rooms;
    let mut rev: Vec<Room> = Vec::new();
    while rooms.len() > 0
        invariant
            rooms@.len() + rev@.len() == n,
            n == orig.len(),
            forall|q: int| 0 <= q < rooms@.len() ==> #[trigger] rooms@[q] == orig[q],
            forall|q: int| 0 <= q < rev@.len() ==> #[trigger] rev@[q] == orig[n - 1 - q],
        decreases rooms.len(),
    {
        let r = rooms.pop().unwrap();
        rev.push(r);
    }
    let mut out: Vec<Room> = Vec::new();
    let mut k: usize = 0;
    while rev.len() > 0
        invariant
            rev@.len() + k == n,
            n == orig.len(),
            forall|q: int| 0 <= q < rev@.len() ==> #[trigger] rev@[q] == orig[n - 1 - q],
            out@ == real_rooms(orig.take(k as int)),
        decreases rev.len(),
    {
        let r = rev.pop().unwrap();
        assert(r == orig[k as int]);
        assert(orig.take(k + 1).drop_last() =~= orig.take(k as int));
        assert(orig.take(k + 1).last() == orig[k as int]);
        if is_real_room(&r) {
            out.push(r);
        }
        k = k + 1;
    }
    assert(orig.take(k as int) =~= orig);
    out
}

/// The indices of the flags equal to `want`, in order.
fn indices_with(flags: &Vec<bool>, want: bool) -> (out: Vec<usize>)
    ensures
        out@ == indices_where(flags@, want, flags@.len() as int),
{
    let mut out: Vec<usize> = Vec::new();
    let mut g: usize = 0;
    while g < flags.len()
        invariant
            g <= flags@.len(),
            out@ == indices_where(flags@, want, g as int),
        decreases flags.len() - g,
    {
        if flags[g] == want {
            out.push(g);
        }
        g = g + 1;
    }
    out
}

/// Every index below `n`, in order.
fn every_index(n: usize) -> (out: Vec<usize>)
    ensures
        out@ == all_indices(n as int),
{
    let mut out: Vec<usize> = Vec::new();
    let mut g: usize = 0;
    while g < n
        invariant
            g <= n,
            out@ == all_indices(g as int),
        decreases n - g,
    {
        out.push(g);
        assert(out@ =~= all_indices(g + 1));
        g = g + 1;
    }
    out
}

/// The first step of the pipeline over a selection of rooms: drops the
/// rooms that are no places, reads every exit's compass and applies the
/// curated corrections before positioning, places the components, and
/// classifies them. The outdoor sheet takes every group that is not an
/// interior, or every group when all of them are. `None` exactly when the
/// places rooms are too many for the positioner's `i32` grid.
pub fn prepare_layout(map: RoomMap, edges: &Vec<EdgeOverride>) -> (r: Option<Prepared>)
    ensures
        r is None <==> !layout_fits(real_rooms(map@)),
        r matches Some(p) ==> prepared_from(p, map@, edges@),
{
    let ghost whole = map@;
    let rooms = map.into_rooms();
    let places = keep_real(rooms);
    proof {
        lemma_real_rooms_unique(whole);
    }
    let real_map = match RoomMap::from_rooms(places) {
        Some(m) => m,
        None => {
            return None;
        },
    };
    let mut dirs = DirectionMap::build(&real_map);
    dirs.apply_edge_overrides(&real_map, edges.as_slice());
    if !fits_grid(&real_map) {
        return None;
    }
    let groups = position_rooms(&real_map, &dirs);
    let classification = classify(groups.as_slice(), &real_map);
    let outside = indices_with(&classification.interior_groups, false);
    let (outdoor, interiors) = if outside.len() == 0 {
        (every_index(groups.len()), Vec::new())
    } else {
        (outside, indices_with(&classification.interior_groups, true))
    };
    assert(interiors@ == interiors_of(classification.interior_groups@));
    Some(Prepared { map: real_map, dirs, groups, classification, outdoor, interiors })
}

/// Whether the positioner's grid holds these rooms: 128 cells per room
/// and exit slot within an `i32`.
fn fits_grid(map: &RoomMap) -> (b: bool)
    ensures
        b == layout_fits(map@),
{
    let rooms = map.rooms();
    let mut cap: usize = 0;
    let mut i: usize = 0;
    while i < rooms.len()
        invariant
            i <= rooms@.len(),
            rooms@ == map@,
            cap == crate::positioner::exits_cap(rooms@.take(i as int)),
        decreases rooms.len() - i,
    {
        assert(rooms@.take(i + 1).drop_last() =~= rooms@.take(i as int));
        assert(rooms@.take(i + 1).last() == rooms@[i as int]);
        if rooms[i].exits.len() > cap {
            cap = rooms[i].exits.len();
        }
        i = i + 1;
    }
    assert(rooms@.take(i as int) =~= rooms@);
    let n = rooms.len() as u128;
    let c = cap as u128;
    if n == 0 {
        proof {
            let k = crate::positioner::exits_cap(map@) + 1;
            assert(128 * map@.len() == 0);
            assert(0 * k == 0) by (nonlinear_arith);
        }
        return true;
    }
    if n > 0x100_0000 || c > 0x100_0000 {
        proof {
            assert(128 * n * (c + 1) > i32::MAX) by (nonlinear_arith)
                requires
                    n > 0x100_0000 || c > 0x100_0000,
                    n >= 1,
            ;
        }
        return false;
    }
    assert(128 * n * (c + 1) <= 128 * 0x100_0000 * 0x100_0001) by (nonlinear_arith)
        requires
            n <= 0x100_0000,
            c <= 0x100_0000,
    ;
    128 * n * (c + 1) <= 0x7fff_ffff
}

proof fn lemma_indices_where(flags: Seq<bool>, want: bool, n: int)
    requires
        0 <= n <= flags.len(),
        flags.len() <= usize::MAX,
    ensures
        forall|k: int|
            0 <= k < indices_where(flags, want, n).len() ==> #[trigger] indices_where(flags, want, n)[k] < n && flags[
                indices_where(flags, want, n)[k] as int
            ] == want,
        forall|g: int| 0 <= g < n && flags[g] == want ==> #[trigger] indices_where(flags, want, n).contains(g as usize),
        forall|a: int, b: int|
            0 <= a < b < indices_where(flags, want, n).len() ==> #[trigger] indices_where(flags, want, n)[a]
                < #[trigger] indices_where(flags, want, n)[b],
    decreases n,
{
    if n > 0 {
        lemma_indices_where(flags, want, n - 1);
        let r = indices_where(flags, want, n - 1);
        if flags[n - 1] == want {
            let t = r.push((n - 1) as usize);
            assert forall|g: int| 0 <= g < n && flags[g] == want implies #[trigger] t.contains(g as usize) by {
                if g == n - 1 {
                    assert(t[r.len() as int] == (n - 1) as usize);
                } else {
                    assert(r.contains(g as usize));
                    let q = choose|q: int| 0 <= q < r.len() && r[q] == g as usize;
                    assert(t[q] == r[q]);
                }
            }
        }
    }
}

/// A layout: every component with its position, the outdoor ones packed
/// on one sheet and the interior buildings named, with the split and the
/// corrections and scale it was built with.
pub struct Layout {
    pub groups: Vec<Group>,
    pub outdoor: Vec<usize>,
    pub interiors: Vec<usize>,
    pub classification: Classification,
    pub edges: Vec<EdgeOverride>,
    pub town_scale: i32,
}

/// What the first step leaves for the second: placed components of the
/// selection, and the outdoor and interior lists of its flags.
pub open spec fn prepared_ok(p: Prepared) -> bool {
    &&& forall|g: int| 0 <= g < p.groups@.len() ==> placed_group(#[trigger] p.groups@[g], g, p.map@, p.dirs@)
    &&& p.classification.interior_groups@.len() == p.groups@.len()
    &&& p.outdoor@ == outdoor_of(p.classification.interior_groups@)
    &&& p.interiors@ == interiors_of(p.classification.interior_groups@)
}

/// The first step's result is fit for the second.
pub proof fn lemma_prepared_ok(p: Prepared, rooms: Seq<Room>, edges: Seq<EdgeOverride>)
    requires
        prepared_from(p, rooms, edges),
    ensures
        prepared_ok(p),
{
}

/// Every component's own cells, and every seat, within `sheet_room` of
/// zero for this many components.
pub open spec fn fits_sheet(groups: Seq<Group>, seats: Seq<(usize, Cell)>) -> bool {
    &&& spans_within(groups, sheet_room(groups.len() as int))
    &&& forall|i: int|
        0 <= i < seats.len() ==> -sheet_room(groups.len() as int) <= (#[trigger] seats[i]).1.x <= sheet_room(
            groups.len() as int,
        ) && -sheet_room(groups.len() as int) <= seats[i].1.y <= sheet_room(groups.len() as int)
}

fn within_room(c: Cell, room: i64) -> (b: bool)
    requires
        -0x1000_0000 <= room <= 0x1000_0000,
    ensures
        b == (-room <= c.x <= room && -room <= c.y <= room),
{
    -room <= c.x as i64 && c.x as i64 <= room && -room <= c.y as i64 && c.y as i64 <= room
}

/// Whether the groups and seats fit the sheet.
fn check_sheet(groups: &Vec<Group>, seats: &Vec<(usize, Cell)>) -> (b: bool)
    ensures
        b == fits_sheet(groups@, seats@),
{
    let n = groups.len() as u128;
    let room128 = 0x1000_0000u128 / (2 * (n + 2));
    assert(room128 <= 0x1000_0000);
    let room: i64 = room128 as i64 - 32;
    assert(-0x1000_0000 <= room <= 0x1000_0000);
    assert(room as int == sheet_room(groups@.len() as int));
    let mut g: usize = 0;
    while g < groups.len()
        invariant
            g <= groups@.len(),
            room as int == sheet_room(groups@.len() as int),
            -0x1000_0000 <= room <= 0x1000_0000,
            forall|q: int| 0 <= q < g ==> cells_within(cells_of((#[trigger] groups@[q]).positions@), room as int),
        decreases groups.len() - g,
    {
        let ps = &groups[g].positions;
        let mut k: usize = 0;
        while k < ps.len()
            invariant
                k <= ps@.len(),
                g < groups@.len(),
                room as int == sheet_room(groups@.len() as int),
                -0x1000_0000 <= room <= 0x1000_0000,
                ps@ == groups@[g as int].positions@,
                forall|q: int| 0 <= q < k ==> -room <= (#[trigger] cells_of(ps@)[q]).x <= room && -room <= cells_of(ps@)[q].y <= room,
            decreases ps.len() - k,
        {
            if !within_room(ps[k].1, room) {
                assert(!cells_within(cells_of(groups@[g as int].positions@), room as int)) by {
                    assert(cells_of(ps@)[k as int] == ps@[k as int].1);
                }
                assert(spans_within(groups@, room as int) ==> cells_within(cells_of(groups@[g as int].positions@), room as int));
                assert(!spans_within(groups@, room as int));
                return false;
            }
            assert(cells_of(ps@)[k as int] == ps@[k as int].1);
            k = k + 1;
        }
        g = g + 1;
    }
    let mut i: usize = 0;
    while i < seats.len()
        invariant
            i <= seats@.len(),
            room as int == sheet_room(groups@.len() as int),
            -0x1000_0000 <= room <= 0x1000_0000,
            spans_within(groups@, room as int),
            forall|q: int| 0 <= q < i ==> -room <= (#[trigger] seats@[q]).1.x <= room && -room <= seats@[q].1.y <= room,
        decreases seats.len() - i,
    {
        if !within_room(seats[i].1, room) {
            return false;
        }
        i = i + 1;
    }
    true
}

/// What the second step promises of its layout `l`, for the first step's
/// result `p`, the seats, the corrections and the town scale asked for.
pub open spec fn finished(p: Prepared, seats: Seq<(usize, Cell)>, edges: Seq<EdgeOverride>, town_scale: i32, l: Layout) -> bool {
            &&& fits_sheet(p.groups@, seats)
            &&& l.outdoor@ == p.outdoor@
            &&& l.interiors@ == p.interiors@
            &&& l.classification == p.classification
            &&& l.edges@ == edges
            &&& l.town_scale == if town_scale < 1 { 1 } else { town_scale }
            &&& l.groups@.len() == p.groups@.len()
            &&& forall|g: int|
                0 <= g < l.groups@.len() ==> (#[trigger] l.groups@[g]).room_ids == p.groups@[g].room_ids
                    && l.groups@[g].positions == p.groups@[g].positions && l.groups@[g].index == g
                    && l.groups@[g].violations == p.groups@[g].violations
            &&& forall|g: int|
                0 <= g < l.groups@.len() && listed(p.outdoor@, g) ==> (#[trigger] l.groups@[g]).base_offset is Some
                    && (l.groups@[g].packing matches Some(m) && outdoor_method(m)) && l.groups@[g].name is None
            &&& forall|g: int| 0 <= g < l.groups@.len() && listed(p.interiors@, g) ==> shelved(#[trigger] l.groups@[g])
            &&& forall|g: int, h: int, a: int, b: int|
                0 <= g < l.groups@.len() && 0 <= h < l.groups@.len() && g != h && listed(p.interiors@, g) && listed(
                    p.interiors@,
                    h,
                ) && 0 <= a < l.groups@[g].positions@.len() && 0 <= b < l.groups@[h].positions@.len()
                    ==> #[trigger] placed_cells(l.groups@[g])[a] != #[trigger] placed_cells(l.groups@[h])[b]
            &&& forall|g: int|
                0 <= g < l.groups@.len() && listed(p.interiors@, g) ==> ((#[trigger] l.groups@[g]).name is None
                    <==> titled_names(p.map@, l.groups@[g].room_ids@, false).len() == 0) && (l.groups@[g].name matches Some(
                    n,
                ) ==> crate::classifier::first_commonest(titled_names(p.map@, l.groups@[g].room_ids@, false), n@))
            &&& forall|g: int, h: int, a: int, b: int|
                0 <= g < l.groups@.len() && 0 <= h < l.groups@.len() && g != h && listed(p.outdoor@, g) && listed(
                    p.outdoor@,
                    h,
                ) && fitted(l.groups@[g].packing) && fitted(l.groups@[h].packing) && 0 <= a < placed_cells(
                    l.groups@[g],
                ).len() && 0 <= b < placed_cells(l.groups@[h]).len() ==> #[trigger] placed_cells(l.groups@[g])[a]
                    != #[trigger] placed_cells(l.groups@[h])[b]
}

/// The second step: the outdoor components packed on one sheet, seated
/// first at `seats`, the offsets the hand-drawn images give; then the
/// interior buildings, clustered, laid on the interiors sheet (see
/// `pack_interior_shelf`), after the outdoor pass because the doorways'
/// outdoor cells order the shelf; then every interior named after its
/// commonest room title. `None` when a component's cells, or a seat, lie
/// too far out for the sheet to hold them all, or the shelf would reach
/// past the sheet.
pub fn finish_layout(p: Prepared, seats: &Vec<(usize, Cell)>, edges: &Vec<EdgeOverride>, town_scale: i32) -> (r: Option<
    Layout,
>)
    requires
        prepared_ok(p),
    ensures
        !fits_sheet(p.groups@, seats@) ==> r is None,
        r matches Some(l) ==> finished(p, seats@, edges@, town_scale, l),
{
    if !check_sheet(&p.groups, seats) {
        return None;
    }
    let ghost flags = p.classification.interior_groups@;
    let ghost n = p.groups@.len() as int;
    proof {
        assert(flags.len() == p.classification.interior_groups.len());
        lemma_indices_where(flags, false, n);
        lemma_indices_where(flags, true, n);
        assert forall|i: int| 0 <= i < p.outdoor@.len() implies #[trigger] p.outdoor@[i] < p.groups@.len()
            && p.groups@[p.outdoor@[i] as int].positions@.len() > 0 by {
            assert(placed_group(p.groups@[p.outdoor@[i] as int], p.outdoor@[i] as int, p.map@, p.dirs@));
        }
        assert forall|g: int| 0 <= g < p.groups@.len() implies (#[trigger] p.groups@[g]).positions@.len()
            == p.groups@[g].room_ids@.len() && forall|k: int|
            0 <= k < p.groups@[g].positions@.len() ==> (#[trigger] p.groups@[g].positions@[k]).0 == p.groups@[g].room_ids@[k] by {
            assert(placed_group(p.groups@[g], g, p.map@, p.dirs@));
        }
    }
    let Prepared { map, dirs, groups, classification, outdoor, interiors } = p;
    let mut groups = groups;
    let ghost g0 = groups@;
    pack_groups(&mut groups, &outdoor, &map, &dirs, seats);
    let ghost gp = groups@;
    proof {
        assert(flags.len() == gp.len());
    }
    let clusters = interior_clusters(&groups, &classification.interior_groups, &map);
    proof {
        assert forall|g: int| 0 <= g < clusters@.len() implies (#[trigger] clusters@[g] matches Some(c) ==> c
            < clusters@.len()) by {
            if clusters@[g] is Some {
                assert(flags[g]);
            }
        }
    }
    if !pack_interior_shelf(&mut groups, &interiors, &clusters, &map, &classification, &outdoor) {
        return None;
    }
    let ghost g1 = groups@;
    assert(g1.len() == groups.len());
    proof {
        assert forall|g: int| 0 <= g < g1.len() && listed(outdoor@, g) implies !listed(interiors@, g) by {
            let q = choose|q: int| 0 <= q < outdoor@.len() && #[trigger] outdoor@[q] as int == g;
            if listed(interiors@, g) {
                let q2 = choose|q2: int| 0 <= q2 < interiors@.len() && #[trigger] interiors@[q2] as int == g;
                if indices_where(flags, false, n).len() == 0 {
                    assert(interiors@.len() == 0);
                } else {
                    assert(flags[g] == false);
                    assert(flags[g] == true);
                }
            }
        }
    }
    let mut i: usize = 0;
    while i < interiors.len()
        invariant
            i <= interiors@.len(),
            groups@.len() == g1.len(),
            interiors@ == interiors_of(flags),
            outdoor@ == outdoor_of(flags),
            flags.len() == n,
            n == g1.len(),
            g1.len() <= usize::MAX,
            forall|k: int|
                0 <= k < indices_where(flags, true, n).len() ==> #[trigger] indices_where(flags, true, n)[k] < n && flags[
                    indices_where(flags, true, n)[k] as int
                ] == true,
            forall|a: int, b: int|
                0 <= a < b < indices_where(flags, true, n).len() ==> #[trigger] indices_where(flags, true, n)[a]
                    < #[trigger] indices_where(flags, true, n)[b],
            forall|g: int|
                0 <= g < g1.len() ==> (#[trigger] groups@[g]).room_ids == g1[g].room_ids && groups@[g].positions
                    == g1[g].positions && groups@[g].index == g1[g].index && groups@[g].violations == g1[g].violations
                    && groups@[g].base_offset == g1[g].base_offset && groups@[g].packing == g1[g].packing,
            forall|g: int| 0 <= g < g1.len() && !interiors@.take(i as int).contains(g as usize) ==> #[trigger] groups@[g].name == g1[g].name,
            forall|g: int|
                0 <= g < g1.len() && interiors@.take(i as int).contains(g as usize) ==> ((#[trigger] groups@[g]).name is None
                    <==> titled_names(map@, groups@[g].room_ids@, false).len() == 0) && (groups@[g].name matches Some(
                    nm,
                ) ==> crate::classifier::first_commonest(titled_names(map@, groups@[g].room_ids@, false), nm@)),
        decreases interiors.len() - i,
    {
        let idx = interiors[i];
        assert(interiors@.len() > 0);
        assert(interiors@ == indices_where(flags, true, n));
        let name = building_name(&groups[idx], &map);
        let ghost before = groups@;
        groups[idx].name = name;
        proof {
            assert(interiors@.take(i + 1) =~= interiors@.take(i as int).push(idx));
            assert(!interiors@.take(i as int).contains(idx)) by {
                if interiors@.take(i as int).contains(idx) {
                    let q = choose|q: int| 0 <= q < i && #[trigger] interiors@.take(i as int)[q] == idx;
                    assert(interiors@[q] < interiors@[i as int]);
                }
            }
            assert(interiors@.take(i + 1)[i as int] == idx);
            assert forall|g: int| 0 <= g < g1.len() && !interiors@.take(i + 1).contains(g as usize) implies #[trigger] groups@[g].name == g1[g].name by {
                assert((g as usize) as int == g);
                assert(g != idx);
                assert(groups@[g] == before[g]);
                if interiors@.take(i as int).contains(g as usize) {
                    let q = choose|q: int| 0 <= q < i && #[trigger] interiors@.take(i as int)[q] == g as usize;
                    assert(interiors@.take(i + 1)[q] == g as usize);
                }
            }
            assert forall|g: int|
                0 <= g < g1.len() && interiors@.take(i + 1).contains(g as usize) implies ((#[trigger] groups@[g]).name is None
                    <==> titled_names(map@, groups@[g].room_ids@, false).len() == 0) && (groups@[g].name matches Some(
                    nm,
                ) ==> crate::classifier::first_commonest(titled_names(map@, groups@[g].room_ids@, false), nm@)) by {
                assert((g as usize) as int == g);
                if g != idx {
                    assert(groups@[g] == before[g]);
                    let q = choose|q: int| 0 <= q < i + 1 && #[trigger] interiors@.take(i + 1)[q] == g as usize;
                    assert(q != i);
                    assert(interiors@.take(i as int)[q] == g as usize);
                }
            }
        }
        i = i + 1;
    }
    let scale = if town_scale < 1 { 1 } else { town_scale };
    proof {
        assert(interiors@.take(i as int) =~= interiors@);
        assert forall|g: int| 0 <= g < g1.len() && listed(outdoor@, g) implies !interiors@.contains(g as usize) by {
            let q = choose|q: int| 0 <= q < outdoor@.len() && #[trigger] outdoor@[q] as int == g;
            if indices_where(flags, false, n).len() == 0 {
                assert(interiors@.len() == 0);
            } else {
                assert(flags[g] == false);
                if interiors@.contains(g as usize) {
                    let q2 = choose|q2: int| 0 <= q2 < interiors@.len() && #[trigger] interiors@[q2] == g as usize;
                }
            }
        }
        assert forall|g: int| 0 <= g < g1.len() && listed(interiors@, g) implies interiors@.contains(g as usize) by {
            let q = choose|q: int| 0 <= q < interiors@.len() && #[trigger] interiors@[q] as int == g;
        }
        assert forall|g: int| 0 <= g < g1.len() implies (#[trigger] g0[g]).name is None && g0[g].index == g by {
            assert(placed_group(g0[g], g, map@, dirs@));
        }
    }
    proof {
        assert forall|g: int, h: int, a: int, b: int|
            0 <= g < groups@.len() && 0 <= h < groups@.len() && g != h && listed(interiors@, g) && listed(interiors@, h)
                && 0 <= a < groups@[g].positions@.len() && 0 <= b < groups@[h].positions@.len() implies #[trigger] placed_cells(
            groups@[g],
        )[a] != #[trigger] placed_cells(groups@[h])[b] by {
            assert(groups@[g].positions == g1[g].positions && groups@[g].base_offset == g1[g].base_offset);
            assert(groups@[h].positions == g1[h].positions && groups@[h].base_offset == g1[h].base_offset);
            assert(placed_cells(groups@[g]) == placed_cells(g1[g]));
            assert(placed_cells(groups@[h]) == placed_cells(g1[h]));
        }
    }
    Some(Layout { groups, outdoor, interiors, classification, edges: edges.clone(), town_scale: scale })
}


/// The knobs a layout is built with.
pub struct LayoutParams {
    /// Sheet cells per outdoor solver cell; raised to 1 when below.
    pub town_scale: i32,
}

impl Default for LayoutParams {
    fn default() -> (p: LayoutParams)
        ensures
            p.town_scale == TOWN_SCALE,
    {
        LayoutParams { town_scale: TOWN_SCALE }
    }
}

/// The whole pipeline over a selection, with the curated corrections and
/// the knobs: both steps, with no image seats. (The rooms this library
/// holds carry no image coordinates; a caller that has them computes the
/// seats between `prepare_layout` and `finish_layout` itself.) `None`
/// when the selection is too large for the grid or the sheet.
pub fn generate_layout_tuned(map: RoomMap, edges: &Vec<EdgeOverride>, params: LayoutParams) -> (r: Option<Layout>)
    ensures
        !layout_fits(real_rooms(map@)) ==> r is None,
        r matches Some(l) ==> exists|p: Prepared|
            prepared_from(p, map@, edges@) && #[trigger] finished(p, Seq::empty(), edges@, params.town_scale, l),
{
    let ghost whole = map@;
    let p = match prepare_layout(map, edges) {
        Some(p) => p,
        None => {
            return None;
        },
    };
    let ghost gp = p;
    proof {
        assert(prepared_ok(p)) by {
            lemma_prepared_ok(p, whole, edges@);
        }
    }
    let seats: Vec<(usize, Cell)> = Vec::new();
    let r = finish_layout(p, &seats, edges, params.town_scale);
    proof {
        assert(seats@ =~= Seq::<(usize, Cell)>::empty());
        if r is Some {
            assert(prepared_from(gp, whole, edges@) && finished(gp, Seq::empty(), edges@, params.town_scale, r->0));
        }
    }
    r
}

/// The pipeline with the default knobs.
pub fn generate_layout_with(map: RoomMap, edges: &Vec<EdgeOverride>) -> (r: Option<Layout>)
    ensures
        !layout_fits(real_rooms(map@)) ==> r is None,
        r matches Some(l) ==> exists|p: Prepared|
            prepared_from(p, map@, edges@) && #[trigger] finished(p, Seq::empty(), edges@, TOWN_SCALE, l),
{
    generate_layout_tuned(map, edges, LayoutParams::default())
}

/// The pipeline with no corrections and the default knobs.
pub fn generate_layout(map: RoomMap) -> (r: Option<Layout>)
    ensures
        !layout_fits(real_rooms(map@)) ==> r is None,
        r matches Some(l) ==> exists|p: Prepared|
            prepared_from(p, map@, Seq::empty()) && #[trigger] finished(p, Seq::empty(), Seq::empty(), TOWN_SCALE, l),
{
    let edges: Vec<EdgeOverride> = Vec::new();
    let r = generate_layout_with(map, &edges);
    assert(edges@ =~= Seq::<EdgeOverride>::empty());
    r
}

/// The pipeline with no corrections and the default knobs, as fixtures
/// run it: the same as `generate_layout`.
pub fn generate_layout_reference(map: RoomMap) -> (r: Option<Layout>)
    ensures
        !layout_fits(real_rooms(map@)) ==> r is None,
        r matches Some(l) ==> exists|p: Prepared|
            prepared_from(p, map@, Seq::empty()) && #[trigger] finished(p, Seq::empty(), Seq::empty(), TOWN_SCALE, l),
{
    generate_layout(map)
}

} // verus!
