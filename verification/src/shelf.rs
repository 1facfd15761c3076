//! The interiors sheet. Each walkable building is merged into one floor
//! plan, its member components placed beside the rooms their passages
//! lead to; buildings that open onto the town hang beside their street
//! rooms in one frame laid at the outdoor sheet's own shape, scaled up,
//! and the rest are shelved in rows below it, in the order their doorways
//! sit in the town.

use vstd::prelude::*;
use vstd::hash_map::HashMapWithView;

use crate::geometry::{Cell, PackMethod, TOWN_SCALE, anchor_at, anchor_index, chebyshev_of, echo_floor};
use crate::group::{Group, max_x_of, max_y_of, min_x_of, min_y_of};
use crate::model::{RoomId, RoomMap};
use crate::packer::{Sheet, cells_within, find_free_offset, fits_at, listed, sheet_limit, shifted, spans_within, uid_delta};
use crate::packing::{count_true, lemma_count_le, lemma_count_none, lemma_count_set, placed_cells};
use crate::positioner::cells_of;
use crate::regions::is_passage;

verus! {

broadcast use vstd::std_specs::hash::group_hash_axioms;

/// Whether member index `m` stands for the echo of a street room.
pub open spec fn is_echo(m: usize) -> bool {
    m as int > echo_floor()
}

/// A member is a component of the map, or the echo of one of the
/// `anchors` street rooms.
pub open spec fn member_ok(groups: Seq<Group>, m: usize, anchors: int) -> bool {
    if is_echo(m) {
        (usize::MAX - m) < anchors
    } else {
        (m as int) < groups.len()
    }
}

/// A member's cells in its own frame: an echo is a single cell.
pub open spec fn member_cells(groups: Seq<Group>, m: usize) -> Seq<Cell> {
    if is_echo(m) {
        seq![Cell { x: 0, y: 0 }]
    } else {
        cells_of(groups[m as int].positions@)
    }
}

/// How far from its own origin each member of an `n`-member merge may
/// reach, so that the whole merged frame stays on the sheet.
pub open spec fn merge_room(n: int) -> int {
    sheet_limit() / (4 * (n + 8)) - 64
}

/// The cell lies within `b` of zero.
pub open spec fn within(c: Cell, b: int) -> bool {
    -b <= c.x <= b && -b <= c.y <= b
}

/// A street room's cell on the interiors sheet: its outdoor cell, scaled.
pub open spec fn scaled(c: Cell) -> Cell {
    Cell { x: (c.x * TOWN_SCALE) as i32, y: (c.y * TOWN_SCALE) as i32 }
}

/// The cells moved by `off`.
pub open spec fn moved(cells: Seq<Cell>, off: Cell) -> Seq<Cell> {
    Seq::new(cells.len(), |k: int| shifted(cells[k], off))
}

/// A passage between two members of one merge: from room `room` of this
/// member, at `here` in its frame, to room `other_room` of member
/// `other`, at `there` in that member's frame.
#[derive(Debug, Clone, Copy)]
struct Passage {
    other: usize,
    room: RoomId,
    other_room: RoomId,
    uid_delta: u64,
    here: Cell,
    there: Cell,
}

spec fn passage_ok(p: Passage, j: int, n: int, r: int) -> bool {
    &&& p.other < n
    &&& p.other != j
    &&& within(p.here, r)
    &&& within(p.there, r)
}

spec fn passages_ok(edges: Seq<Vec<Passage>>, n: int, r: int) -> bool {
    &&& edges.len() == n
    &&& forall|j: int, q: int| 0 <= j < n && 0 <= q < edges[j]@.len() ==> passage_ok(#[trigger] edges[j]@[q], j, n, r)
}

/// A member's rooms with their places in its frame: an echo is its street
/// room at the origin.
fn member_rooms(groups: &Vec<Group>, m: usize, anchors: &Vec<RoomId>) -> (rooms: Vec<(RoomId, Cell)>)
    requires
        member_ok(groups@, m, anchors@.len() as int),
    ensures
        is_echo(m) ==> rooms@ == seq![(anchors@[usize::MAX - m], Cell { x: 0, y: 0 })],
        !is_echo(m) ==> rooms@ == groups@[m as int].positions@,
{
    match anchor_at(m) {
        Some(i) => {
            let mut v: Vec<(RoomId, Cell)> = Vec::new();
            v.push((anchors[i], Cell { x: 0, y: 0 }));
            assert(v@ =~= seq![(anchors@[usize::MAX - m], Cell { x: 0, y: 0 })]);
            v
        },
        None => {
            let ps = &groups[m].positions;
            let mut v: Vec<(RoomId, Cell)> = Vec::new();
            let mut k: usize = 0;
            while k < ps.len()
                invariant
                    k <= ps@.len(),
                    v@ == ps@.take(k as int),
                decreases ps.len() - k,
            {
                v.push(ps[k]);
                assert(ps@.take(k + 1) =~= ps@.take(k as int).push(ps@[k as int]));
                k = k + 1;
            }
            assert(ps@.take(k as int) =~= ps@);
            v
        },
    }
}

/// A member's cells, in order.
fn member_cell_list(groups: &Vec<Group>, m: usize, anchors: &Vec<RoomId>) -> (cells: Vec<Cell>)
    requires
        member_ok(groups@, m, anchors@.len() as int),
    ensures
        cells@ == member_cells(groups@, m),
{
    let rooms = member_rooms(groups, m, anchors);
    let mut cells: Vec<Cell> = Vec::new();
    let mut k: usize = 0;
    while k < rooms.len()
        invariant
            k <= rooms@.len(),
            cells@ == rooms@.take(k as int).map_values(|e: (RoomId, Cell)| e.1),
        decreases rooms.len() - k,
    {
        cells.push(rooms[k].1);
        assert(rooms@.take(k + 1).map_values(|e: (RoomId, Cell)| e.1) =~= rooms@.take(k as int).map_values(
            |e: (RoomId, Cell)| e.1,
        ).push(rooms@[k as int].1));
        k = k + 1;
    }
    assert(rooms@.take(k as int) =~= rooms@);
    assert(cells@ =~= member_cells(groups@, m));
    cells
}

/// Each member room's member and its place in that member's frame.
fn room_index(groups: &Vec<Group>, members: &Vec<usize>, anchors: &Vec<RoomId>, Ghost(r): Ghost<int>) -> (idx:
    HashMapWithView<u32, (usize, Cell)>)
    requires
        0 <= r,
        forall|j: int| 0 <= j < members@.len() ==> member_ok(groups@, #[trigger] members@[j], anchors@.len() as int),
        spans_within(groups@, r),
    ensures
        forall|key: u32| #[trigger] idx@.contains_key(key) ==> idx@[key].0 < members@.len() && within(idx@[key].1, r),
{
    let mut idx: HashMapWithView<u32, (usize, Cell)> = HashMapWithView::new();
    let mut j: usize = 0;
    while j < members.len()
        invariant
            j <= members@.len(),
            0 <= r,
            forall|q: int| 0 <= q < members@.len() ==> member_ok(groups@, #[trigger] members@[q], anchors@.len() as int),
            spans_within(groups@, r),
            forall|key: u32| #[trigger] idx@.contains_key(key) ==> idx@[key].0 < members@.len() && within(idx@[key].1, r),
        decreases members.len() - j,
    {
        let m = members[j];
        let rooms = member_rooms(groups, m, anchors);
        let mut k: usize = 0;
        while k < rooms.len()
            invariant
                k <= rooms@.len(),
                j < members@.len(),
                m == members@[j as int],
                member_ok(groups@, m, anchors@.len() as int),
                0 <= r,
                spans_within(groups@, r),
                is_echo(m) ==> rooms@ == seq![(anchors@[usize::MAX - m], Cell { x: 0, y: 0 })],
                !is_echo(m) ==> rooms@ == groups@[m as int].positions@,
                forall|key: u32| #[trigger] idx@.contains_key(key) ==> idx@[key].0 < members@.len() && within(idx@[key].1, r),
            decreases rooms.len() - k,
        {
            proof {
                if !is_echo(m) {
                    assert(cells_within(cells_of(groups@[m as int].positions@), r));
                    assert(cells_of(groups@[m as int].positions@)[k as int] == rooms@[k as int].1);
                }
            }
            idx.insert(rooms[k].0.0, (j, rooms[k].1));
            k = k + 1;
        }
        j = j + 1;
    }
    idx
}

/// A copy of the list.
fn copy_passages(list: &Vec<Passage>) -> (out: Vec<Passage>)
    ensures
        out@ == list@,
{
    let mut out: Vec<Passage> = Vec::new();
    let mut q: usize = 0;
    while q < list.len()
        invariant
            q <= list@.len(),
            out@ == list@.take(q as int),
        decreases list.len() - q,
    {
        out.push(list[q]);
        assert(list@.take(q + 1) =~= list@.take(q as int).push(list@[q as int]));
        q = q + 1;
    }
    assert(list@.take(q as int) =~= list@);
    out
}

/// Whether the list already holds a passage to `other` from `room`.
fn has_passage(list: &Vec<Passage>, other: usize, room: RoomId) -> (b: bool)
    ensures
        b == exists|q: int| 0 <= q < list@.len() && (#[trigger] list@[q]).other == other && list@[q].room == room,
{
    let mut q: usize = 0;
    while q < list.len()
        invariant
            q <= list@.len(),
            forall|t: int| 0 <= t < q ==> !((#[trigger] list@[t]).other == other && list@[t].room == room),
        decreases list.len() - q,
    {
        if list[q].other == other && list[q].room.0 == room.0 {
            return true;
        }
        q = q + 1;
    }
    false
}

/// The passages between the members themselves, each known from both
/// ends, so a one-way door still seats whichever side is placed second.
fn passages_within(
    groups: &Vec<Group>,
    members: &Vec<usize>,
    map: &RoomMap,
    anchors: &Vec<RoomId>,
    Ghost(r): Ghost<int>,
) -> (edges: Vec<Vec<Passage>>)
    requires
        0 <= r,
        forall|j: int| 0 <= j < members@.len() ==> member_ok(groups@, #[trigger] members@[j], anchors@.len() as int),
        spans_within(groups@, r),
    ensures
        passages_ok(edges@, members@.len() as int, r),
{
    let n = members.len();
    let idx = room_index(groups, members, anchors, Ghost(r));
    let mut edges: Vec<Vec<Passage>> = Vec::new();
    let mut j: usize = 0;
    while j < n
        invariant
            j <= n,
            n == members@.len(),
            0 <= r,
            forall|q: int| 0 <= q < members@.len() ==> member_ok(groups@, #[trigger] members@[q], anchors@.len() as int),
            spans_within(groups@, r),
            forall|key: u32| #[trigger] idx@.contains_key(key) ==> idx@[key].0 < n && within(idx@[key].1, r),
            edges@.len() == j,
            forall|a: int, q: int| 0 <= a < j && 0 <= q < edges@[a]@.len() ==> passage_ok(#[trigger] edges@[a]@[q], a, n as int, r),
        decreases n - j,
    {
        let m = members[j];
        let rooms = member_rooms(groups, m, anchors);
        let mut list: Vec<Passage> = Vec::new();
        let mut k: usize = 0;
        while k < rooms.len()
            invariant
                k <= rooms@.len(),
                j < n,
                n == members@.len(),
                m == members@[j as int],
                member_ok(groups@, m, anchors@.len() as int),
                0 <= r,
                spans_within(groups@, r),
                is_echo(m) ==> rooms@ == seq![(anchors@[usize::MAX - m], Cell { x: 0, y: 0 })],
                !is_echo(m) ==> rooms@ == groups@[m as int].positions@,
                forall|key: u32| #[trigger] idx@.contains_key(key) ==> idx@[key].0 < n && within(idx@[key].1, r),
                forall|q: int| 0 <= q < list@.len() ==> passage_ok(#[trigger] list@[q], j as int, n as int, r),
            decreases rooms.len() - k,
        {
            let (room_id, here) = rooms[k];
            proof {
                if !is_echo(m) {
                    assert(cells_within(cells_of(groups@[m as int].positions@), r));
                    assert(cells_of(groups@[m as int].positions@)[k as int] == rooms@[k as int].1);
                }
            }
            match map.room(room_id) {
                Some(room) => {
                    let mut e: usize = 0;
                    while e < room.exits.len()
                        invariant
                            e <= room.exits@.len(),
                            j < n,
                            0 <= r,
                            within(here, r),
                            forall|key: u32| #[trigger] idx@.contains_key(key) ==> idx@[key].0 < n && within(idx@[key].1, r),
                            forall|q: int| 0 <= q < list@.len() ==> passage_ok(#[trigger] list@[q], j as int, n as int, r),
                        decreases room.exits.len() - e,
                    {
                        let exit = &room.exits[e];
                        if is_passage(exit) {
                            let target = exit.to;
                            match idx.get(&target.0) {
                                Some(found) => {
                                    let (other, there) = *found;
                                    if other != j {
                                        let d = uid_delta(Some(room), map.room(target));
                                        list.push(
                                            Passage { other, room: room_id, other_room: target, uid_delta: d, here, there },
                                        );
                                    }
                                },
                                None => {},
                            }
                        }
                        e = e + 1;
                    }
                },
                None => {},
            }
            k = k + 1;
        }
        edges.push(list);
        j = j + 1;
    }
    // Every passage from the other end too.
    let mut a: usize = 0;
    while a < n
        invariant
            a <= n,
            n == members@.len(),
            0 <= r,
            passages_ok(edges@, n as int, r),
        decreases n - a,
    {
        let count = edges[a].len();
        let mut q: usize = 0;
        while q < count
            invariant
                q <= count,
                a < n,
                0 <= r,
                passages_ok(edges@, n as int, r),
                count <= edges@[a as int]@.len(),
            decreases count - q,
        {
            let p = edges[a][q];
            assert(passage_ok(edges@[a as int]@[q as int], a as int, n as int, r));
            let b = p.other;
            let back = Passage { other: a, room: p.other_room, other_room: p.room, uid_delta: p.uid_delta, here: p.there, there: p.here };
            if !has_passage(&edges[b], a, back.room) {
                let ghost before = edges@;
                let mut list = copy_passages(&edges[b]);
                list.push(back);
                edges.set(b, list);
                proof {
                    assert(count <= edges@[a as int]@.len());
                    assert forall|x: int, t: int| 0 <= x < n && 0 <= t < edges@[x]@.len() implies passage_ok(
                        #[trigger] edges@[x]@[t],
                        x,
                        n as int,
                        r,
                    ) by {
                        if x == b as int {
                            if t < before[x]@.len() {
                                assert(edges@[x]@[t] == before[x]@[t]);
                            }
                        } else {
                            assert(edges@[x] == before[x]);
                        }
                    }
                }
            }
            q = q + 1;
        }
        a = a + 1;
    }
    edges
}


/// Every placed member's cells, moved by its offset, are on the sheet.
spec fn holds_all(sheet: Seq<Cell>, cells: Seq<Vec<Cell>>, placed: Seq<bool>, offs: Seq<Cell>) -> bool {
    forall|j: int, k: int|
        0 <= j < placed.len() && placed[j] && 0 <= k < cells[j]@.len() ==> sheet.contains(
            #[trigger] shifted(cells[j]@[k], offs[j]),
        )
}

/// No two placed members share a cell, unless both are echoes.
spec fn apart(cells: Seq<Vec<Cell>>, placed: Seq<bool>, offs: Seq<Cell>, members: Seq<usize>) -> bool {
    forall|a: int, b: int, p: int, q: int|
        0 <= a < placed.len() && 0 <= b < placed.len() && a != b && placed[a] && placed[b] && !(is_echo(members[a])
            && is_echo(members[b])) && 0 <= p < cells[a]@.len() && 0 <= q < cells[b]@.len() ==> #[trigger] shifted(
            cells[a]@[p],
            offs[a],
        ) != #[trigger] shifted(cells[b]@[q], offs[b])
}

/// The sheet's cells lie within `lim + r`, the placed offsets within `lim`.
spec fn bounded(sheet: Seq<Cell>, placed: Seq<bool>, offs: Seq<Cell>, lim: int, r: int) -> bool {
    &&& forall|k: int| 0 <= k < sheet.len() ==> within(#[trigger] sheet[k], lim + r)
    &&& forall|j: int| 0 <= j < placed.len() && #[trigger] placed[j] ==> within(offs[j], lim)
}

/// Every entry set means the count is the length, and back.
proof fn lemma_count_full(s: Seq<bool>)
    ensures
        count_true(s) == s.len() ==> forall|i: int| 0 <= i < s.len() ==> s[i],
    decreases s.len(),
{
    if s.len() > 0 {
        lemma_count_full(s.drop_last());
        lemma_count_le(s.drop_last());
        if count_true(s) == s.len() {
            assert(s.last());
            assert forall|i: int| 0 <= i < s.len() implies s[i] by {
                if i < s.len() - 1 {
                    assert(s.drop_last()[i] == s[i]);
                }
            }
        }
    }
}

/// The merge's frame fits the sheet: the echoes, one step per member,
/// and a member's own reach.
proof fn lemma_merge_room(n: int)
    requires
        0 <= n <= 0x1_0000,
    ensures
        0 <= merge_room(n),
        5 * merge_room(n) + 200 + (n + 1) * (2 * merge_room(n) + 64) <= sheet_limit() - 128,
{
    let d = 4 * (n + 8);
    let q = sheet_limit() / d;
    assert(d * q <= sheet_limit()) by (nonlinear_arith)
        requires
            d > 0,
            q == sheet_limit() / d,
            sheet_limit() >= 0,
    ;
    assert(sheet_limit() < d * (q + 1)) by (nonlinear_arith)
        requires
            d > 0,
            q == sheet_limit() / d,
            sheet_limit() >= 0,
    ;
    assert(q >= 1000) by (nonlinear_arith)
        requires
            d == 4 * (n + 8),
            0 <= n <= 0x1_0000,
            sheet_limit() < d * (q + 1),
            sheet_limit() == 0x1000_0000,
    ;
    let r = q - 64;
    assert(5 * r + 200 + (n + 1) * (2 * r + 64) <= sheet_limit() - 128) by (nonlinear_arith)
        requires
            r == q - 64,
            d == 4 * (n + 8),
            d * q <= sheet_limit(),
            q >= 1000,
            n >= 0,
    ;
}

/// Placing a member on free cells, or an echo before any component, keeps
/// every placed member on the sheet and apart from the others.
proof fn lemma_place(
    s0: Seq<Cell>,
    s1: Seq<Cell>,
    cells: Seq<Vec<Cell>>,
    placed: Seq<bool>,
    offs: Seq<Cell>,
    members: Seq<usize>,
    j: int,
    off: Cell,
)
    requires
        placed.len() == offs.len(),
        offs.len() == cells.len(),
        cells.len() == members.len(),
        0 <= j < placed.len(),
        !placed[j],
        s1 == s0 + moved(cells[j]@, off),
        holds_all(s0, cells, placed, offs),
        apart(cells, placed, offs, members),
        fits_at(cells[j]@, off, s0) || (is_echo(members[j]) && forall|b: int|
            0 <= b < placed.len() && #[trigger] placed[b] ==> is_echo(members[b])),
    ensures
        holds_all(s1, cells, placed.update(j, true), offs.update(j, off)),
        apart(cells, placed.update(j, true), offs.update(j, off), members),
{
    let p1 = placed.update(j, true);
    let o1 = offs.update(j, off);
    assert forall|a: int, k: int| 0 <= a < p1.len() && p1[a] && 0 <= k < cells[a]@.len() implies s1.contains(
        #[trigger] shifted(cells[a]@[k], o1[a]),
    ) by {
        if a == j {
            assert(s1[s0.len() + k] == shifted(cells[j]@[k], off));
        } else {
            assert(s0.contains(shifted(cells[a]@[k], offs[a])));
            let t = choose|t: int| 0 <= t < s0.len() && s0[t] == shifted(cells[a]@[k], offs[a]);
            assert(s1[t] == s0[t]);
        }
    }
    assert forall|a: int, b: int, p: int, q: int|
        0 <= a < p1.len() && 0 <= b < p1.len() && a != b && p1[a] && p1[b] && !(is_echo(members[a]) && is_echo(
            members[b],
        )) && 0 <= p < cells[a]@.len() && 0 <= q < cells[b]@.len() implies #[trigger] shifted(cells[a]@[p], o1[a])
        != #[trigger] shifted(cells[b]@[q], o1[b]) by {
        if a == j {
            assert(s0.contains(shifted(cells[b]@[q], offs[b])));
            assert(!s0.contains(shifted(cells[j]@[p], off)));
        } else if b == j {
            assert(s0.contains(shifted(cells[a]@[p], offs[a])));
            assert(!s0.contains(shifted(cells[j]@[q], off)));
        }
    }
}

/// More cells on the sheet keep every placed member on it.
proof fn lemma_grow(s0: Seq<Cell>, s1: Seq<Cell>, cells: Seq<Vec<Cell>>, placed: Seq<bool>, offs: Seq<Cell>)
    requires
        holds_all(s0, cells, placed, offs),
        s0.len() <= s1.len(),
        forall|k: int| 0 <= k < s0.len() ==> s1[k] == s0[k],
    ensures
        holds_all(s1, cells, placed, offs),
{
    assert forall|a: int, k: int| 0 <= a < placed.len() && placed[a] && 0 <= k < cells[a]@.len() implies s1.contains(
        #[trigger] shifted(cells[a]@[k], offs[a]),
    ) by {
        let t = choose|t: int| 0 <= t < s0.len() && s0[t] == shifted(cells[a]@[k], offs[a]);
        assert(s1[t] == s0[t]);
    }
}

/// The cells under each road between two neighbouring echoes, kept clear
/// so no building sits on the street.
fn reserve_roads(
    sheet: &mut Sheet,
    edges: &Vec<Vec<Passage>>,
    members: &Vec<usize>,
    skeleton: &Vec<Cell>,
    Ghost(r): Ghost<int>,
)
    requires
        old(sheet).wf(),
        0 <= r,
        5 * r + 200 <= sheet_limit(),
        cells_within(skeleton@, r),
        passages_ok(edges@, members@.len() as int, r),
    ensures
        final(sheet).wf(),
        old(sheet).cells().len() <= final(sheet).cells().len(),
        forall|k: int| 0 <= k < old(sheet).cells().len() ==> final(sheet).cells()[k] == old(sheet).cells()[k],
        forall|k: int|
            old(sheet).cells().len() <= k < final(sheet).cells().len() ==> within(#[trigger] final(sheet).cells()[k], 4 * r + 3),
{
    let ghost s0 = sheet.cells();
    let n = members.len();
    let mut j: usize = 0;
    while j < n
        invariant
            j <= n,
            n == members@.len(),
            sheet.wf(),
            0 <= r,
            5 * r + 200 <= sheet_limit(),
            cells_within(skeleton@, r),
            passages_ok(edges@, n as int, r),
            s0.len() <= sheet.cells().len(),
            forall|k: int| 0 <= k < s0.len() ==> sheet.cells()[k] == s0[k],
            forall|k: int| s0.len() <= k < sheet.cells().len() ==> within(#[trigger] sheet.cells()[k], 4 * r + 3),
        decreases n - j,
    {
        match anchor_at(members[j]) {
            Some(i) => {
                if i < skeleton.len() {
                    let a = skeleton[i];
                    assert(within(a, r));
                    let list = &edges[j];
                    let mut q: usize = 0;
                    while q < list.len()
                        invariant
                            q <= list@.len(),
                            j < n,
                            *list == edges@[j as int],
                            n == members@.len(),
                            sheet.wf(),
                            0 <= r,
                            5 * r + 200 <= sheet_limit(),
                            within(a, r),
                            cells_within(skeleton@, r),
                            passages_ok(edges@, n as int, r),
                            s0.len() <= sheet.cells().len(),
                            forall|k: int| 0 <= k < s0.len() ==> sheet.cells()[k] == s0[k],
                            forall|k: int| s0.len() <= k < sheet.cells().len() ==> within(#[trigger] sheet.cells()[k], 4 * r + 3),
                        decreases list.len() - q,
                    {
                        let p = list[q];
                        assert(passage_ok(edges@[j as int]@[q as int], j as int, n as int, r));
                        match anchor_at(members[p.other]) {
                            Some(i2) => {
                                if i2 < skeleton.len() {
                                    let b = skeleton[i2];
                                    assert(within(b, r));
                                    let dx = b.x - a.x;
                                    let dy = b.y - a.y;
                                    let ax = if dx < 0 { -dx } else { dx };
                                    let ay = if dy < 0 { -dy } else { dy };
                                    let d = if ax >= ay { ax } else { ay };
                                    if d == 1 {
                                        let sx: i32 = if dx < 0 { -1 } else if dx > 0 { 1 } else { 0 };
                                        let sy: i32 = if dy < 0 { -1 } else if dy > 0 { 1 } else { 0 };
                                        let mut st: i32 = 1;
                                        while st < TOWN_SCALE
                                            invariant
                                                1 <= st <= TOWN_SCALE,
                                                -1 <= sx <= 1,
                                                -1 <= sy <= 1,
                                                sheet.wf(),
                                                0 <= r,
                                                5 * r + 200 <= sheet_limit(),
                                                within(a, r),
                                                s0.len() <= sheet.cells().len(),
                                                forall|k: int| 0 <= k < s0.len() ==> sheet.cells()[k] == s0[k],
                                                forall|k: int|
                                                    s0.len() <= k < sheet.cells().len() ==> within(
                                                        #[trigger] sheet.cells()[k],
                                                        4 * r + 3,
                                                    ),
                                            decreases TOWN_SCALE - st,
                                        {
                                            let ex: i32 = if sx < 0 { -st } else if sx > 0 { st } else { 0 };
                                            let ey: i32 = if sy < 0 { -st } else if sy > 0 { st } else { 0 };
                                            let c = Cell { x: a.x * 4 + ex, y: a.y * 4 + ey };
                                            assert(within(c, 4 * r + 3));
                                            let ghost before = sheet.cells();
                                            sheet.take(c);
                                            proof {
                                                assert forall|k: int|
                                                    s0.len() <= k < sheet.cells().len() implies within(
                                                    #[trigger] sheet.cells()[k],
                                                    4 * r + 3,
                                                ) by {
                                                    if k < before.len() {
                                                        assert(sheet.cells()[k] == before[k]);
                                                    }
                                                }
                                            }
                                            st = st + 1;
                                        }
                                    }
                                }
                            },
                            None => {},
                        }
                        q = q + 1;
                    }
                }
            },
            None => {},
        }
        j = j + 1;
    }
}

/// All entries set makes the count the length.
proof fn lemma_count_all(s: Seq<bool>)
    requires
        forall|i: int| 0 <= i < s.len() ==> s[i],
    ensures
        count_true(s) == s.len(),
    decreases s.len(),
{
    if s.len() > 0 {
        lemma_count_all(s.drop_last());
    }
}

/// The first member not yet placed.
fn first_unplaced(placed: &Vec<bool>) -> (j: usize)
    requires
        count_true(placed@) < placed@.len(),
    ensures
        j < placed@.len(),
        !placed@[j as int],
{
    let mut j: usize = 0;
    while j < placed.len()
        invariant
            j <= placed@.len(),
            count_true(placed@) < placed@.len(),
            forall|q: int| 0 <= q < j ==> #[trigger] placed@[q],
        decreases placed.len() - j,
    {
        if !placed[j] {
            return j;
        }
        j = j + 1;
    }
    proof {
        lemma_count_all(placed@);
    }
    0
}

/// Occupies the cells moved by `off`.
fn occupy(sheet: &mut Sheet, cells: &Vec<Cell>, off: Cell, Ghost(r): Ghost<int>)
    requires
        old(sheet).wf(),
        0 <= r,
        cells_within(cells@, r),
        within(off, sheet_limit() - r),
    ensures
        final(sheet).wf(),
        final(sheet).cells() == old(sheet).cells() + moved(cells@, off),
{
    let ghost s0 = sheet.cells();
    let mut k: usize = 0;
    while k < cells.len()
        invariant
            k <= cells@.len(),
            sheet.wf(),
            0 <= r,
            cells_within(cells@, r),
            within(off, sheet_limit() - r),
            sheet.cells() == s0 + moved(cells@.take(k as int), off),
        decreases cells.len() - k,
    {
        let c = cells[k];
        sheet.take(Cell { x: c.x + off.x, y: c.y + off.y });
        assert(moved(cells@.take(k + 1), off) =~= moved(cells@.take(k as int), off).push(shifted(c, off)));
        assert(s0 + moved(cells@.take(k + 1), off) =~= (s0 + moved(cells@.take(k as int), off)).push(shifted(c, off)));
        k = k + 1;
    }
    assert(cells@.take(k as int) =~= cells@);
}

/// The rightmost occupied column, or zero on an empty sheet.
fn rightmost(sheet: &Sheet, Ghost(b): Ghost<int>) -> (m: i32)
    requires
        0 <= b <= i32::MAX,
        forall|k: int| 0 <= k < sheet.cells().len() ==> within(#[trigger] sheet.cells()[k], b),
    ensures
        forall|k: int| 0 <= k < sheet.cells().len() ==> (#[trigger] sheet.cells()[k]).x <= m,
        -b <= m <= b,
{
    let occ = sheet.occupied();
    let mut m: i32 = 0;
    let mut k: usize = 0;
    while k < occ.len()
        invariant
            k <= occ@.len(),
            occ@ == sheet.cells(),
            0 <= b <= i32::MAX,
            forall|t: int| 0 <= t < occ@.len() ==> within(#[trigger] occ@[t], b),
            -b <= m <= b,
            k > 0 ==> forall|t: int| 0 <= t < k ==> (#[trigger] occ@[t]).x <= m,
        decreases occ.len() - k,
    {
        if k == 0 || occ[k].x > m {
            m = occ[k].x;
        }
        k = k + 1;
    }
    m
}

/// The leftmost of the cells, or zero for none.
fn leftmost(cells: &Vec<Cell>, Ghost(r): Ghost<int>) -> (m: i32)
    requires
        0 <= r <= i32::MAX,
        cells_within(cells@, r),
    ensures
        forall|k: int| 0 <= k < cells@.len() ==> m <= (#[trigger] cells@[k]).x,
        -r <= m <= r,
{
    let mut m: i32 = 0;
    let mut k: usize = 0;
    while k < cells.len()
        invariant
            k <= cells@.len(),
            0 <= r <= i32::MAX,
            cells_within(cells@, r),
            -r <= m <= r,
            k > 0 ==> forall|t: int| 0 <= t < k ==> m <= (#[trigger] cells@[t]).x,
        decreases cells.len() - k,
    {
        if k == 0 || cells[k].x < m {
            m = cells[k].x;
        }
        k = k + 1;
    }
    m
}

/// Past every occupied column, the member's cells land on free cells.
proof fn lemma_past_right(cells: Seq<Cell>, off: Cell, sheet: Seq<Cell>, right: int, left: int)
    requires
        forall|k: int| 0 <= k < sheet.len() ==> (#[trigger] sheet[k]).x <= right,
        forall|k: int| 0 <= k < cells.len() ==> left <= (#[trigger] cells[k]).x,
        off.x == right + 2 - left,
        forall|k: int| 0 <= k < cells.len() ==> i32::MIN <= (#[trigger] cells[k]).x + off.x <= i32::MAX,
    ensures
        fits_at(cells, off, sheet),
{
    assert forall|k: int| 0 <= k < cells.len() implies !sheet.contains(shifted(#[trigger] cells[k], off)) by {
        if sheet.contains(shifted(cells[k], off)) {
            let t = choose|t: int| 0 <= t < sheet.len() && sheet[t] == shifted(cells[k], off);
            assert(sheet[t].x <= right);
        }
    }
}

/// The unplaced member with the most passages to placed ones, and those
/// passages; ties go to the earliest member.
fn next_to_place(edges: &Vec<Vec<Passage>>, placed: &Vec<bool>, Ghost(r): Ghost<int>) -> (pick: Option<
    (usize, Vec<Passage>),
>)
    requires
        passages_ok(edges@, placed@.len() as int, r),
    ensures
        pick matches Some(t) ==> {
            &&& t.0 < placed@.len()
            &&& !placed@[t.0 as int]
            &&& t.1@.len() > 0
            &&& forall|q: int|
                0 <= q < t.1@.len() ==> passage_ok(#[trigger] t.1@[q], t.0 as int, placed@.len() as int, r)
                    && placed@[t.1@[q].other as int]
        },
{
    let n = placed.len();
    let mut best: Option<(usize, Vec<Passage>)> = None;
    let mut j: usize = 0;
    while j < n
        invariant
            j <= n,
            n == placed@.len(),
            passages_ok(edges@, n as int, r),
            best matches Some(t) ==> {
                &&& t.0 < n
                &&& !placed@[t.0 as int]
                &&& t.1@.len() > 0
                &&& forall|q: int|
                    0 <= q < t.1@.len() ==> passage_ok(#[trigger] t.1@[q], t.0 as int, n as int, r) && placed@[t.1@[
                        q
                    ].other as int]
            },
        decreases n - j,
    {
        if !placed[j] {
            let all = &edges[j];
            let mut list: Vec<Passage> = Vec::new();
            let mut q: usize = 0;
            while q < all.len()
                invariant
                    q <= all@.len(),
                    j < n,
                    n == placed@.len(),
                    *all == edges@[j as int],
                    passages_ok(edges@, n as int, r),
                    forall|t: int|
                        0 <= t < list@.len() ==> passage_ok(#[trigger] list@[t], j as int, n as int, r) && placed@[list@[
                            t
                        ].other as int],
                decreases all.len() - q,
            {
                let p = all[q];
                assert(passage_ok(edges@[j as int]@[q as int], j as int, n as int, r));
                if placed[p.other] {
                    list.push(p);
                }
                q = q + 1;
            }
            if list.len() > 0 {
                let better = match &best {
                    None => true,
                    Some(t) => list.len() > t.1.len(),
                };
                if better {
                    best = Some((j, list));
                }
            }
        }
        j = j + 1;
    }
    best
}

/// Member `s` is the one an unanchored merge seeds on: a component with
/// the most rooms, the lowest index among equals, the later of two
/// mentions of one component.
pub open spec fn is_seed(groups: Seq<Group>, members: Seq<usize>, s: int) -> bool {
    &&& 0 <= s < members.len()
    &&& !is_echo(members[s])
    &&& forall|t: int|
        0 <= t < members.len() && t != s && !is_echo(#[trigger] members[t]) ==> groups[members[t] as int].room_ids@.len()
            < groups[members[s] as int].room_ids@.len() || (groups[members[t] as int].room_ids@.len()
            == groups[members[s] as int].room_ids@.len() && (members[s] < members[t] || (members[s] == members[t]
            && t < s)))
}

/// The member to seed an unanchored merge on: the component with the
/// most rooms, the lowest index among equals; a merge of echoes alone
/// seeds on its first member.
fn seed_of(groups: &Vec<Group>, members: &Vec<usize>, anchors: &Vec<RoomId>) -> (j: usize)
    requires
        members@.len() > 0,
        forall|q: int| 0 <= q < members@.len() ==> member_ok(groups@, #[trigger] members@[q], anchors@.len() as int),
    ensures
        j < members@.len(),
        (exists|t: int| 0 <= t < members@.len() && !is_echo(#[trigger] members@[t])) ==> is_seed(groups@, members@, j as int),
{
    let mut best: Option<(usize, usize, usize)> = None;
    let mut j: usize = 0;
    while j < members.len()
        invariant
            j <= members@.len(),
            forall|q: int| 0 <= q < members@.len() ==> member_ok(groups@, #[trigger] members@[q], anchors@.len() as int),
            best matches Some(t) ==> {
                &&& t.0 < j
                &&& !is_echo(members@[t.0 as int])
                &&& t.2 == members@[t.0 as int]
                &&& t.1 == groups@[t.2 as int].room_ids@.len()
                &&& forall|x: int|
                    0 <= x < j && x != t.0 && !is_echo(#[trigger] members@[x]) ==> groups@[members@[x] as int].room_ids@.len()
                        < t.1 || (groups@[members@[x] as int].room_ids@.len() == t.1 && (t.2 < members@[x] || (t.2
                        == members@[x] && x < t.0)))
            },
            best is None ==> forall|x: int| 0 <= x < j ==> is_echo(#[trigger] members@[x]),
        decreases members.len() - j,
    {
        let m = members[j];
        if anchor_at(m).is_none() {
            let size = groups[m].room_ids.len();
            let better = match best {
                None => true,
                Some((_, bs, bm)) => size > bs || (size == bs && m <= bm),
            };
            if better {
                best = Some((j, size, m));
            }
        }
        j = j + 1;
    }
    match best {
        Some((j, _, _)) => j,
        None => 0,
    }
}


/// Where a member lands for one passage: its room beside the room the
/// passage leads to, at the nearest offset on free cells; with none free
/// near, past every occupied column at the passage's height.
fn land(
    cells: &Vec<Cell>,
    e: Passage,
    there_off: Cell,
    sheet: &Sheet,
    right: i32,
    left: i32,
    Ghost(lim): Ghost<int>,
    Ghost(r): Ghost<int>,
) -> (off: Cell)
    requires
        sheet.wf(),
        0 <= r,
        0 <= lim,
        lim + 3 * r + 200 <= sheet_limit(),
        cells_within(cells@, r),
        within(e.here, r),
        within(e.there, r),
        within(there_off, lim),
        forall|k: int| 0 <= k < sheet.cells().len() ==> (#[trigger] sheet.cells()[k]).x <= right,
        -(lim + r) <= right <= lim + r,
        forall|k: int| 0 <= k < cells@.len() ==> left <= (#[trigger] cells@[k]).x,
        -r <= left <= r,
    ensures
        fits_at(cells@, off, sheet.cells()),
        within(off, lim + 2 * r + 32),
{
    let proposed = Cell {
        x: e.there.x + there_off.x - e.here.x,
        y: e.there.y + there_off.y - e.here.y,
    };
    match find_free_offset(cells, proposed, sheet) {
        Some(c) => {
            assert(chebyshev_of(c, proposed) <= 30);
            c
        },
        None => {
            let off = Cell { x: right + 2 - left, y: proposed.y };
            proof {
                assert forall|k: int| 0 <= k < cells@.len() implies i32::MIN <= (#[trigger] cells@[k]).x + off.x
                    <= i32::MAX by {
                    assert(-r <= cells@[k].x <= r);
                }
                lemma_past_right(cells@, off, sheet.cells(), right as int, left as int);
            }
            off
        },
    }
}

/// How far a landing at `off` stretches the member's passages: the sum of
/// their lengths, held at the largest value rather than wrapping.
fn stretch(list: &Vec<Passage>, off: Cell, offs: &Vec<Cell>, Ghost(b): Ghost<int>) -> (s: i64)
    requires
        0 <= b <= sheet_limit(),
        within(off, b),
        forall|q: int| 0 <= q < list@.len() ==> (#[trigger] list@[q]).other < offs@.len() && within(list@[q].here, b)
            && within(list@[q].there, b),
        forall|q: int| 0 <= q < offs@.len() ==> within(#[trigger] offs@[q], b),
{
    let mut total: i64 = 0;
    let mut q: usize = 0;
    while q < list.len()
        invariant
            q <= list@.len(),
            0 <= total,
            0 <= b <= sheet_limit(),
            within(off, b),
            forall|t: int| 0 <= t < list@.len() ==> (#[trigger] list@[t]).other < offs@.len() && within(list@[t].here, b)
                && within(list@[t].there, b),
            forall|t: int| 0 <= t < offs@.len() ==> within(#[trigger] offs@[t], b),
        decreases list.len() - q,
    {
        let e = list[q];
        let o = offs[e.other];
        let dx: i64 = (e.here.x as i64 + off.x as i64) - (e.there.x as i64 + o.x as i64);
        let dy: i64 = (e.here.y as i64 + off.y as i64) - (e.there.y as i64 + o.y as i64);
        let ax: i64 = if dx < 0 { -dx } else { dx };
        let ay: i64 = if dy < 0 { -dy } else { dy };
        let d: i64 = if ax >= ay { ax } else { ay };
        total = match total.checked_add(d) {
            Some(t) => t,
            None => i64::MAX,
        };
        q = q + 1;
    }
    total
}

/// Where the member lands: by the passage whose rooms' uids lie nearest,
/// and among those the landing that stretches its placed passages least,
/// then the lowest pair of room ids.
fn land_best(
    cells: &Vec<Cell>,
    list: &Vec<Passage>,
    offs: &Vec<Cell>,
    placed: &Vec<bool>,
    sheet: &Sheet,
    right: i32,
    left: i32,
    Ghost(j): Ghost<int>,
    Ghost(lim): Ghost<int>,
    Ghost(r): Ghost<int>,
) -> (off: Cell)
    requires
        sheet.wf(),
        0 <= r,
        0 <= lim,
        lim + 3 * r + 200 <= sheet_limit(),
        list@.len() > 0,
        offs@.len() == placed@.len(),
        forall|q: int|
            0 <= q < list@.len() ==> passage_ok(#[trigger] list@[q], j, placed@.len() as int, r) && placed@[list@[
                q
            ].other as int],
        forall|q: int| 0 <= q < placed@.len() && #[trigger] placed@[q] ==> within(offs@[q], lim),
        cells_within(cells@, r),
        forall|k: int| 0 <= k < sheet.cells().len() ==> (#[trigger] sheet.cells()[k]).x <= right,
        -(lim + r) <= right <= lim + r,
        forall|k: int| 0 <= k < cells@.len() ==> left <= (#[trigger] cells@[k]).x,
        -r <= left <= r,
    ensures
        fits_at(cells@, off, sheet.cells()),
        within(off, lim + 2 * r + 32),
{
    // The nearest uids.
    let mut i0: usize = 0;
    let mut q: usize = 1;
    while q < list.len()
        invariant
            1 <= q <= list@.len(),
            i0 < list@.len(),
        decreases list.len() - q,
    {
        if list[q].uid_delta < list[i0].uid_delta {
            i0 = q;
        }
        q = q + 1;
    }
    let nearest = list[i0].uid_delta;
    // The offsets the stretch reads, placed or not, all held within reach.
    let mut reach: Vec<Cell> = Vec::new();
    let mut t: usize = 0;
    while t < offs.len()
        invariant
            t <= offs@.len(),
            0 <= lim,
            offs@.len() == placed@.len(),
            reach@.len() == t,
            forall|x: int| 0 <= x < placed@.len() && #[trigger] placed@[x] ==> within(offs@[x], lim),
            forall|x: int| 0 <= x < t ==> within(#[trigger] reach@[x], lim) && (placed@[x] ==> reach@[x] == offs@[x]),
        decreases offs.len() - t,
    {
        if placed[t] {
            assert(within(offs@[t as int], lim));
            reach.push(offs[t]);
        } else {
            reach.push(Cell { x: 0, y: 0 });
        }
        t = t + 1;
    }
    let ghost bb = lim + 2 * r + 32;
    assert forall|x: int| 0 <= x < reach@.len() implies within(#[trigger] reach@[x], bb) by {}
    let e0 = list[i0];
    assert(passage_ok(list@[i0 as int], j, placed@.len() as int, r) && placed@[list@[i0 as int].other as int]);
    let mut best = land(cells, e0, offs[e0.other], sheet, right, left, Ghost(lim), Ghost(r));
    let mut best_s = stretch(list, best, &reach, Ghost(bb));
    let mut best_key = (e0.other_room.0, e0.room.0);
    let mut q: usize = 0;
    while q < list.len()
        invariant
            q <= list@.len(),
            sheet.wf(),
            0 <= r,
            0 <= lim,
            lim + 3 * r + 200 <= sheet_limit(),
            bb == lim + 2 * r + 32,
            offs@.len() == placed@.len(),
            reach@.len() == placed@.len(),
            forall|x: int| 0 <= x < reach@.len() ==> within(#[trigger] reach@[x], bb),
            forall|x: int| 0 <= x < placed@.len() && placed@[x] ==> #[trigger] reach@[x] == offs@[x],
            forall|x: int|
                0 <= x < list@.len() ==> passage_ok(#[trigger] list@[x], j, placed@.len() as int, r) && placed@[list@[
                    x
                ].other as int],
            forall|x: int| 0 <= x < placed@.len() && #[trigger] placed@[x] ==> within(offs@[x], lim),
            cells_within(cells@, r),
            forall|k: int| 0 <= k < sheet.cells().len() ==> (#[trigger] sheet.cells()[k]).x <= right,
            -(lim + r) <= right <= lim + r,
            forall|k: int| 0 <= k < cells@.len() ==> left <= (#[trigger] cells@[k]).x,
            -r <= left <= r,
            fits_at(cells@, best, sheet.cells()),
            within(best, lim + 2 * r + 32),
        decreases list.len() - q,
    {
        let e = list[q];
        if e.uid_delta == nearest {
            let off = land(cells, e, offs[e.other], sheet, right, left, Ghost(lim), Ghost(r));
            let s = stretch(list, off, &reach, Ghost(bb));
            let key = (e.other_room.0, e.room.0);
            if s < best_s || (s == best_s && (key.0 < best_key.0 || (key.0 == best_key.0 && key.1 < best_key.1))) {
                best = off;
                best_s = s;
                best_key = key;
            }
        }
        q = q + 1;
    }
    best
}


/// What the merge keeps true as it places its members.
spec fn merge_state(
    groups: Seq<Group>,
    members: Seq<usize>,
    cells: Seq<Vec<Cell>>,
    placed: Seq<bool>,
    offs: Seq<Cell>,
    sheet: Seq<Cell>,
    lim: int,
    r: int,
) -> bool {
    &&& cells.len() == members.len()
    &&& placed.len() == members.len()
    &&& offs.len() == members.len()
    &&& forall|q: int|
        0 <= q < members.len() ==> (#[trigger] cells[q])@ == member_cells(groups, members[q]) && cells_within(
            cells[q]@,
            r,
        )
    &&& holds_all(sheet, cells, placed, offs)
    &&& apart(cells, placed, offs, members)
    &&& bounded(sheet, placed, offs, lim, r)
}

/// Merges a building's members into one floor plan and returns each
/// member's offset in it, in the members' order. A member is a component
/// of `groups`, or the echo of one of the `anchors` street rooms (see
/// `anchor_index`), a single cell. With a `skeleton` (each anchor's cell
/// on the outdoor sheet) the echoes are laid first, at their cells
/// scaled by `TOWN_SCALE`, and the cells under the roads between
/// neighbouring echoes are kept clear; without one the merge is seeded on
/// the component with the most rooms. Then, again and again, the unplaced
/// member with the most passages to placed ones is placed beside the
/// room one of them leads to, at the nearest offset where its cells land
/// on free cells: by the passage whose rooms' uids lie nearest, among
/// those the landing that stretches its placed passages least. A member
/// no passage reaches goes past every occupied column. No two members
/// share a cell, except where two echoes' street cells coincide. The
/// members' own cells, and the street cells, must lie within
/// `merge_room` of zero, so that the merged frame stays on the sheet.
pub fn merge_cluster_members(
    groups: &Vec<Group>,
    members: &Vec<usize>,
    map: &RoomMap,
    anchors: &Vec<RoomId>,
    skeleton: &Vec<Cell>,
) -> (local: Vec<(usize, Cell)>)
    requires
        members@.len() <= 0x1_0000,
        forall|j: int| 0 <= j < members@.len() ==> member_ok(groups@, #[trigger] members@[j], anchors@.len() as int),
        skeleton@.len() == 0 || skeleton@.len() == anchors@.len(),
        spans_within(groups@, merge_room(members@.len() as int)),
        cells_within(skeleton@, merge_room(members@.len() as int)),
    ensures
        local@.len() == members@.len(),
        forall|j: int|
            0 <= j < members@.len() ==> (#[trigger] local@[j]).0 == members@[j] && within(
                local@[j].1,
                sheet_limit() - merge_room(members@.len() as int) - 64,
            ),
        forall|a: int, b: int, p: int, q: int|
            0 <= a < members@.len() && 0 <= b < members@.len() && a != b && !(is_echo(members@[a]) && is_echo(
                members@[b],
            )) && 0 <= p < member_cells(groups@, members@[a]).len() && 0 <= q < member_cells(
                groups@,
                members@[b],
            ).len() ==> #[trigger] shifted(member_cells(groups@, members@[a])[p], local@[a].1) != #[trigger] shifted(
                member_cells(groups@, members@[b])[q],
                local@[b].1,
            ),
        skeleton@.len() > 0 ==> forall|j: int|
            0 <= j < members@.len() && is_echo(#[trigger] members@[j]) ==> local@[j].1 == scaled(
                skeleton@[usize::MAX - members@[j]],
            ),
        skeleton@.len() == 0 ==> forall|s: int| #[trigger] is_seed(groups@, members@, s) ==> local@[s].1 == (Cell { x: 0, y: 0 }),
{
    let n = members.len();
    let ghost r = merge_room(n as int);
    proof {
        lemma_merge_room(n as int);
    }
    let edges = passages_within(groups, members, map, anchors, Ghost(r));
    let mut cells: Vec<Vec<Cell>> = Vec::new();
    let mut placed: Vec<bool> = Vec::new();
    let mut offs: Vec<Cell> = Vec::new();
    let mut j: usize = 0;
    while j < n
        invariant
            j <= n,
            n == members@.len(),
            0 <= r,
            forall|q: int| 0 <= q < members@.len() ==> member_ok(groups@, #[trigger] members@[q], anchors@.len() as int),
            spans_within(groups@, r),
            cells@.len() == j,
            placed@.len() == j,
            offs@.len() == j,
            forall|q: int| 0 <= q < j ==> !(#[trigger] placed@[q]),
            forall|q: int|
                0 <= q < j ==> (#[trigger] cells@[q])@ == member_cells(groups@, members@[q]) && cells_within(cells@[q]@, r),
        decreases n - j,
    {
        let m = members[j];
        let c = member_cell_list(groups, m, anchors);
        proof {
            if !is_echo(m) {
                assert(cells_within(cells_of(groups@[m as int].positions@), r));
            }
        }
        cells.push(c);
        placed.push(false);
        offs.push(Cell { x: 0, y: 0 });
        j = j + 1;
    }
    let mut sheet = Sheet::new();
    let ghost mut lim: int = 4 * r + 3;
    let ghost step: int = 2 * r + 64;
    let mut done: usize = 0;
    let ghost mut seed_pos: int = -1;
    proof {
        lemma_count_none(placed@);
    }
    if skeleton.len() == 0 {
        if n > 0 {
            let seed = seed_of(groups, members, anchors);
            proof {
                seed_pos = seed as int;
            }
            let ghost s0 = sheet.cells();
            let origin = Cell { x: 0, y: 0 };
            occupy(&mut sheet, &cells[seed], origin, Ghost(r));
            proof {
                assert(fits_at(cells@[seed as int]@, origin, s0));
                lemma_place(s0, sheet.cells(), cells@, placed@, offs@, members@, seed as int, origin);
                lemma_count_set(placed@, seed as int);
                assert forall|k: int| 0 <= k < sheet.cells().len() implies within(#[trigger] sheet.cells()[k], lim + r) by {
                    let mv = moved(cells@[seed as int]@, origin);
                    assert(sheet.cells()[k] == mv[k]);
                    assert(cells_within(cells@[seed as int]@, r));
                }
            }
            placed.set(seed, true);
            offs.set(seed, origin);
            done = 1;
        }
    } else {
        let mut q: usize = 0;
        while q < n
            invariant
                q <= n,
                n == members@.len(),
                0 <= r,
                lim == 4 * r + 3,
                skeleton@.len() > 0,
                skeleton@.len() == anchors@.len(),
                cells_within(skeleton@, r),
                5 * r + 200 + (n + 1) * (2 * r + 64) <= sheet_limit() - 128,
                forall|x: int| 0 <= x < members@.len() ==> member_ok(groups@, #[trigger] members@[x], anchors@.len() as int),
                sheet.wf(),
                merge_state(groups@, members@, cells@, placed@, offs@, sheet.cells(), lim, r),
                done == count_true(placed@),
                forall|x: int| 0 <= x < n && #[trigger] placed@[x] ==> is_echo(members@[x]),
                forall|x: int|
                    0 <= x < q && is_echo(#[trigger] members@[x]) ==> placed@[x] && offs@[x] == scaled(
                        skeleton@[usize::MAX - members@[x]],
                    ),
                forall|x: int| q <= x < n ==> !(#[trigger] placed@[x]),
            decreases n - q,
        {
            match anchor_at(members[q]) {
                Some(i) => {
                    let c = skeleton[i];
                    assert(within(c, r));
                    let off = Cell { x: c.x * TOWN_SCALE, y: c.y * TOWN_SCALE };
                    let ghost s0 = sheet.cells();
                    occupy(&mut sheet, &cells[q], off, Ghost(r));
                    proof {
                        lemma_place(s0, sheet.cells(), cells@, placed@, offs@, members@, q as int, off);
                        lemma_count_set(placed@, q as int);
                        assert forall|k: int| 0 <= k < sheet.cells().len() implies within(#[trigger] sheet.cells()[k], lim + r) by {
                            if k >= s0.len() {
                                let mv = moved(cells@[q as int]@, off);
                                assert(sheet.cells()[k] == mv[k - s0.len()]);
                            }
                        }
                    }
                    placed.set(q, true);
                    offs.set(q, off);
                    done = done + 1;
                },
                None => {},
            }
            q = q + 1;
        }
        let ghost s0 = sheet.cells();
        reserve_roads(&mut sheet, &edges, members, skeleton, Ghost(r));
        proof {
            lemma_grow(s0, sheet.cells(), cells@, placed@, offs@);
            assert forall|k: int| 0 <= k < sheet.cells().len() implies within(#[trigger] sheet.cells()[k], lim + r) by {
                if k < s0.len() {
                    assert(sheet.cells()[k] == s0[k]);
                }
            }
        }
    }
    proof {
        lemma_count_le(placed@);
    }
    while done < n
        invariant
            done <= n,
            n == members@.len(),
            0 <= r,
            step == 2 * r + 64,
            4 * r + 3 <= lim <= 4 * r + 3 + done * step,
            5 * r + 200 + (n + 1) * step <= sheet_limit() - 128,
            passages_ok(edges@, n as int, r),
            forall|x: int| 0 <= x < members@.len() ==> member_ok(groups@, #[trigger] members@[x], anchors@.len() as int),
            sheet.wf(),
            merge_state(groups@, members@, cells@, placed@, offs@, sheet.cells(), lim, r),
            done == count_true(placed@),
            skeleton@.len() > 0 ==> forall|x: int|
                0 <= x < n && is_echo(#[trigger] members@[x]) ==> placed@[x] && offs@[x] == scaled(
                    skeleton@[usize::MAX - members@[x]],
                ),
            skeleton@.len() == 0 && (exists|t: int| 0 <= t < members@.len() && !is_echo(#[trigger] members@[t]))
                ==> is_seed(groups@, members@, seed_pos) && placed@[seed_pos] && offs@[seed_pos] == (Cell { x: 0, y: 0 }),
        decreases n - done,
    {
        proof {
            assert(done * step <= (n - 1) * step) by (nonlinear_arith)
                requires
                    done <= n - 1,
                    step >= 0,
            ;
            assert((n - 1) * step + step == n * step) by (nonlinear_arith);
            assert(n * step <= (n + 1) * step) by (nonlinear_arith)
                requires
                    step >= 0,
            ;
        }
        let right = rightmost(&sheet, Ghost(lim + r));
        let (jj, off) = match next_to_place(&edges, &placed, Ghost(r)) {
            Some((jj, list)) => {
                let left = leftmost(&cells[jj], Ghost(r));
                let off = land_best(&cells[jj], &list, &offs, &placed, &sheet, right, left, Ghost(jj as int), Ghost(lim), Ghost(r));
                (jj, off)
            },
            None => {
                let jj = first_unplaced(&placed);
                let left = leftmost(&cells[jj], Ghost(r));
                let proposed = Cell { x: right + 2 - left, y: 0 };
                proof {
                    assert forall|k: int| 0 <= k < cells@[jj as int]@.len() implies i32::MIN <= (
                    #[trigger] cells@[jj as int]@[k]).x + proposed.x <= i32::MAX by {
                        assert(cells_within(cells@[jj as int]@, r));
                    }
                    lemma_past_right(cells@[jj as int]@, proposed, sheet.cells(), right as int, left as int);
                }
                let off = match find_free_offset(&cells[jj], proposed, &sheet) {
                    Some(c) => c,
                    None => proposed,
                };
                (jj, off)
            },
        };
        let ghost s0 = sheet.cells();
        occupy(&mut sheet, &cells[jj], off, Ghost(r));
        proof {
            lemma_place(s0, sheet.cells(), cells@, placed@, offs@, members@, jj as int, off);
            lemma_count_set(placed@, jj as int);
            let nl = lim + step;
            assert forall|k: int| 0 <= k < sheet.cells().len() implies within(#[trigger] sheet.cells()[k], nl + r) by {
                if k >= s0.len() {
                    let mv = moved(cells@[jj as int]@, off);
                    assert(sheet.cells()[k] == mv[k - s0.len()]);
                    assert(cells_within(cells@[jj as int]@, r));
                } else {
                    assert(sheet.cells()[k] == s0[k]);
                }
            }
            assert((done + 1) * step == done * step + step) by (nonlinear_arith);
            lim = nl;
        }
        placed.set(jj, true);
        offs.set(jj, off);
        done = done + 1;
    }
    proof {
        lemma_count_full(placed@);
    }
    let mut local: Vec<(usize, Cell)> = Vec::new();
    let mut q: usize = 0;
    while q < n
        invariant
            q <= n,
            n == members@.len(),
            offs@.len() == n,
            local@.len() == q,
            forall|x: int| 0 <= x < q ==> (#[trigger] local@[x]).0 == members@[x] && local@[x].1 == offs@[x],
        decreases n - q,
    {
        local.push((members[q], offs[q]));
        q = q + 1;
    }
    proof {
        assert forall|x: int| 0 <= x < members@.len() implies (#[trigger] local@[x]).0 == members@[x] && within(
            local@[x].1,
            sheet_limit() - merge_room(members@.len() as int) - 64,
        ) by {
            assert(placed@[x]);
            assert(n * step <= (n + 1) * step) by (nonlinear_arith)
                requires
                    step >= 0,
            ;
            assert(lim <= 4 * r + 3 + n * step);
        }
        assert forall|a: int, b: int, p: int, qq: int|
            0 <= a < members@.len() && 0 <= b < members@.len() && a != b && !(is_echo(members@[a]) && is_echo(
                members@[b],
            )) && 0 <= p < member_cells(groups@, members@[a]).len() && 0 <= qq < member_cells(
                groups@,
                members@[b],
            ).len() implies #[trigger] shifted(member_cells(groups@, members@[a])[p], local@[a].1) != #[trigger] shifted(
                member_cells(groups@, members@[b])[qq],
                local@[b].1,
            ) by {
            assert(cells@[a]@ == member_cells(groups@, members@[a]));
            assert(cells@[b]@ == member_cells(groups@, members@[b]));
            assert(placed@[a] && placed@[b]);
            assert(shifted(cells@[a]@[p], offs@[a]) != shifted(cells@[b]@[qq], offs@[b]));
        }
        if skeleton@.len() == 0 {
            assert forall|s: int| #[trigger] is_seed(groups@, members@, s) implies local@[s].1 == Cell { x: 0, y: 0 } by {
                assert(!is_echo(members@[s]));
                assert(exists|t: int| 0 <= t < members@.len() && !is_echo(#[trigger] members@[t]));
                assert(is_seed(groups@, members@, seed_pos));
                if s != seed_pos {
                    assert(!is_echo(members@[seed_pos]));
                }
            }
        }
    }
    local
}


/// Whether every cell lies within `room` of zero.
fn cells_fit(cells: &Vec<Cell>, room: i64) -> (b: bool)
    requires
        0 <= room,
    ensures
        b == cells_within(cells@, room as int),
{
    let mut k: usize = 0;
    while k < cells.len()
        invariant
            k <= cells@.len(),
            0 <= room,
            forall|t: int| 0 <= t < k ==> within(#[trigger] cells@[t], room as int),
        decreases cells.len() - k,
    {
        let c = cells[k];
        if !(-room <= c.x as i64 && c.x as i64 <= room && -room <= c.y as i64 && c.y as i64 <= room) {
            return false;
        }
        k = k + 1;
    }
    true
}

/// Whether every component's own cells lie within `room` of zero.
fn spans_fit(groups: &Vec<Group>, room: i64) -> (b: bool)
    requires
        0 <= room,
    ensures
        b == spans_within(groups@, room as int),
{
    let mut g: usize = 0;
    while g < groups.len()
        invariant
            g <= groups@.len(),
            0 <= room,
            forall|q: int| 0 <= q < g ==> cells_within(cells_of((#[trigger] groups@[q]).positions@), room as int),
        decreases groups.len() - g,
    {
        let ps = &groups[g].positions;
        let mut k: usize = 0;
        while k < ps.len()
            invariant
                k <= ps@.len(),
                g < groups@.len(),
                0 <= room,
                *ps == groups@[g as int].positions,
                forall|t: int| 0 <= t < k ==> within(#[trigger] cells_of(ps@)[t], room as int),
            decreases ps.len() - k,
        {
            let c = ps[k].1;
            assert(cells_of(ps@)[k as int] == c);
            if !(-room <= c.x as i64 && c.x as i64 <= room && -room <= c.y as i64 && c.y as i64 <= room) {
                assert(!cells_within(cells_of(groups@[g as int].positions@), room as int));
                return false;
            }
            k = k + 1;
        }
        g = g + 1;
    }
    true
}

/// `merge_room(n)`, computed.
fn merge_room_of(n: usize) -> (r: i64)
    requires
        n <= 0x1_0000,
    ensures
        r == merge_room(n as int),
        0 <= r <= sheet_limit(),
{
    proof {
        lemma_merge_room(n as int);
    }
    let d: i64 = 4 * (n as i64 + 8);
    0x1000_0000i64 / d - 64
}

/// Merges the members when the sheet can hold the merge; `None` when a
/// member's cells, or a street cell, reach too far for it.
fn merge_if_fits(
    groups: &Vec<Group>,
    members: &Vec<usize>,
    map: &RoomMap,
    anchors: &Vec<RoomId>,
    skeleton: &Vec<Cell>,
) -> (local: Option<Vec<(usize, Cell)>>)
    requires
        forall|j: int| 0 <= j < members@.len() ==> member_ok(groups@, #[trigger] members@[j], anchors@.len() as int),
        skeleton@.len() == 0 || skeleton@.len() == anchors@.len(),
    ensures
        local matches Some(l) ==> {
            &&& members@.len() <= 0x1_0000
            &&& spans_within(groups@, merge_room(members@.len() as int))
            &&& l@.len() == members@.len()
            &&& forall|j: int|
                0 <= j < members@.len() ==> (#[trigger] l@[j]).0 == members@[j] && within(
                    l@[j].1,
                    sheet_limit() - merge_room(members@.len() as int) - 64,
                )
            &&& forall|a: int, b: int, p: int, q: int|
                0 <= a < members@.len() && 0 <= b < members@.len() && a != b && !(is_echo(members@[a]) && is_echo(
                    members@[b],
                )) && 0 <= p < member_cells(groups@, members@[a]).len() && 0 <= q < member_cells(
                    groups@,
                    members@[b],
                ).len() ==> #[trigger] shifted(member_cells(groups@, members@[a])[p], l@[a].1) != #[trigger] shifted(
                    member_cells(groups@, members@[b])[q],
                    l@[b].1,
                )
            &&& skeleton@.len() > 0 ==> forall|j: int|
                0 <= j < members@.len() && is_echo(#[trigger] members@[j]) ==> l@[j].1 == scaled(
                    skeleton@[usize::MAX - members@[j]],
                )
        },
{
    if members.len() > 0x1_0000 {
        return None;
    }
    let room = merge_room_of(members.len());
    if !spans_fit(groups, room) || !cells_fit(skeleton, room) {
        return None;
    }
    proof {
        lemma_merge_room(members@.len() as int);
    }
    Some(merge_cluster_members(groups, members, map, anchors, skeleton))
}

/// One shelf item: a building's members with their cells in its frame,
/// normalised to a (0,0) top-left, its size, and where its doorway sits
/// on the outdoor sheet, as the key the shelf is ordered by.
struct Item {
    local: Vec<(usize, Cell)>,
    width: i64,
    height: i64,
    key: (i64, i64, u32, usize),
}

/// The rooms of the placed outdoor components with their cells on the
/// sheet, each room once; `None` when a cell lies off the sheet.
fn street_rooms(groups: &Vec<Group>, outdoor: &Vec<usize>) -> (r: Option<(Vec<RoomId>, Vec<Cell>, HashMapWithView<u32, Cell>)>)
    ensures
        r matches Some(t) ==> {
            &&& t.0@.len() == t.1@.len()
            &&& forall|k: int| 0 <= k < t.1@.len() ==> within(#[trigger] t.1@[k], sheet_limit())
            &&& forall|k: int| 0 <= k < t.0@.len() ==> #[trigger] t.2@.contains_key(t.0@[k].0)
        },
{
    let mut ids: Vec<RoomId> = Vec::new();
    let mut cells: Vec<Cell> = Vec::new();
    let mut at: HashMapWithView<u32, Cell> = HashMapWithView::new();
    let mut i: usize = 0;
    while i < outdoor.len()
        invariant
            i <= outdoor@.len(),
            ids@.len() == cells@.len(),
            forall|k: int| 0 <= k < cells@.len() ==> within(#[trigger] cells@[k], sheet_limit()),
            forall|k: int| 0 <= k < ids@.len() ==> #[trigger] at@.contains_key(ids@[k].0),
        decreases outdoor.len() - i,
    {
        let o = outdoor[i];
        if o < groups.len() {
            match groups[o].base_offset {
                Some(off) => {
                    let ps = &groups[o].positions;
                    let mut k: usize = 0;
                    while k < ps.len()
                        invariant
                            k <= ps@.len(),
                            ids@.len() == cells@.len(),
                            forall|t: int| 0 <= t < cells@.len() ==> within(#[trigger] cells@[t], sheet_limit()),
                            forall|t: int| 0 <= t < ids@.len() ==> #[trigger] at@.contains_key(ids@[t].0),
                        decreases ps.len() - k,
                    {
                        let (id, c) = ps[k];
                        let x: i64 = c.x as i64 + off.x as i64;
                        let y: i64 = c.y as i64 + off.y as i64;
                        if !(-0x1000_0000 <= x && x <= 0x1000_0000 && -0x1000_0000 <= y && y <= 0x1000_0000) {
                            return None;
                        }
                        if !at.contains_key(&id.0) {
                            let cell = Cell { x: x as i32, y: y as i32 };
                            at.insert(id.0, cell);
                            ids.push(id);
                            cells.push(cell);
                        }
                        k = k + 1;
                    }
                },
                None => {},
            }
        }
        i = i + 1;
    }
    Some((ids, cells, at))
}

/// A group's building: its cluster, or itself.
fn cluster_of(clusters: &Vec<Option<usize>>, g: usize) -> (c: usize)
    requires
        g < clusters@.len(),
    ensures
        c == match clusters@[g as int] {
            Some(k) => k,
            None => g,
        },
{
    match clusters[g] {
        Some(k) => k,
        None => g,
    }
}

/// Whether some room of the component has a passage onto a street room.
fn opens_onto(group: &Group, map: &RoomMap, streets: &HashMapWithView<u32, Cell>) -> (b: bool) {
    let ids = &group.room_ids;
    let mut k: usize = 0;
    while k < ids.len()
        decreases ids.len() - k,
    {
        match map.room(ids[k]) {
            Some(room) => {
                let mut e: usize = 0;
                while e < room.exits.len()
                    decreases room.exits.len() - e,
                {
                    if is_passage(&room.exits[e]) && streets.contains_key(&room.exits[e].to.0) {
                        return true;
                    }
                    e = e + 1;
                }
            },
            None => {},
        }
        k = k + 1;
    }
    false
}


/// The component is on the interiors sheet at `c`; nothing else changed.
fn shelve(groups: &mut Vec<Group>, g: usize, c: Cell)
    requires
        g < old(groups)@.len(),
    ensures
        final(groups)@.len() == old(groups)@.len(),
        forall|h: int| 0 <= h < old(groups)@.len() && h != g ==> #[trigger] final(groups)@[h] == old(groups)@[h],
        final(groups)@[g as int] == (Group {
            base_offset: Some(c),
            packing: Some(PackMethod::InteriorShelf),
            ..old(groups)@[g as int]
        }),
{
    groups[g].base_offset = Some(c);
    groups[g].packing = Some(PackMethod::InteriorShelf);
}

/// Shelving keeps every component's shape and leaves every component
/// that is not flagged where it was.
spec fn shelf_kept(g0: Seq<Group>, groups: Seq<Group>, flags: Seq<bool>) -> bool {
    &&& crate::packing::same_shape(g0, groups)
    &&& forall|h: int|
        0 <= h < groups.len() && !flags[h] ==> (#[trigger] groups[h]).base_offset == g0[h].base_offset
            && groups[h].packing == g0[h].packing
}

/// The component is on the interiors sheet.
pub open spec fn shelved(g: Group) -> bool {
    g.base_offset is Some && g.packing == Some(PackMethod::InteriorShelf)
}

proof fn lemma_shelve_kept(g0: Seq<Group>, a: Seq<Group>, b: Seq<Group>, flags: Seq<bool>, g: int, c: Cell)
    requires
        shelf_kept(g0, a, flags),
        flags.len() == a.len(),
        0 <= g < a.len(),
        flags[g],
        b.len() == a.len(),
        forall|h: int| 0 <= h < a.len() && h != g ==> #[trigger] b[h] == a[h],
        b[g] == (Group { base_offset: Some(c), packing: Some(PackMethod::InteriorShelf), ..a[g] }),
    ensures
        shelf_kept(g0, b, flags),
        shelved(b[g]),
        forall|h: int| 0 <= h < a.len() && shelved(#[trigger] a[h]) ==> shelved(b[h]),
{
    assert forall|h: int| 0 <= h < b.len() implies (#[trigger] g0[h]).room_ids == b[h].room_ids && g0[h].positions
        == b[h].positions && g0[h].index == b[h].index && g0[h].violations == b[h].violations && g0[h].name
        == b[h].name by {
        if h != g {
            assert(b[h] == a[h]);
        }
    }
    assert forall|h: int| 0 <= h < b.len() && !flags[h] implies (#[trigger] b[h]).base_offset == g0[h].base_offset
        && b[h].packing == g0[h].packing by {
        assert(h != g);
        assert(b[h] == a[h]);
    }
}

/// The building component `h` belongs to.
spec fn cl_of(clusters: Seq<Option<usize>>, h: int) -> int {
    match clusters[h] {
        Some(k) => k as int,
        None => h,
    }
}

/// The town frame as laid: each town component at its merged offset,
/// every cell within `i32` and above `tmax`, which lies above `below`,
/// and no two town components on one cell.
spec fn town_ok(
    g0: Seq<Group>,
    groups: Seq<Group>,
    town: Seq<usize>,
    tloc: Seq<(usize, Cell)>,
    tmax: int,
    below: int,
) -> bool {
    &&& tloc.len() >= town.len()
    &&& tmax + 4 <= below
    &&& forall|x: int|
        0 <= x < town.len() ==> (#[trigger] town[x]) < g0.len() && town[x] < groups.len() && groups[town[x] as int].base_offset
            == Some(tloc[x].1)
    &&& forall|x: int, p: int|
        0 <= x < town.len() && 0 <= p < cells_of(g0[town[x] as int].positions@).len() ==> {
            let c = #[trigger] cells_of(g0[town[x] as int].positions@)[p];
            &&& c.y + tloc[x].1.y <= tmax
            &&& i32::MIN <= c.x + tloc[x].1.x <= i32::MAX
            &&& i32::MIN <= c.y + tloc[x].1.y <= i32::MAX
        }
    &&& forall|x1: int, x2: int, p: int, q: int|
        0 <= x1 < town.len() && 0 <= x2 < town.len() && x1 != x2 && 0 <= p < cells_of(
            g0[town[x1] as int].positions@,
        ).len() && 0 <= q < cells_of(g0[town[x2] as int].positions@).len() ==> ({
            let c1 = #[trigger] cells_of(g0[town[x1] as int].positions@)[p];
            let c2 = #[trigger] cells_of(g0[town[x2] as int].positions@)[q];
            (c1.x + tloc[x1].1.x, c1.y + tloc[x1].1.y) != (c2.x + tloc[x2].1.x, c2.y + tloc[x2].1.y)
        })
}

/// Each shelved item sits at its cursor: every member at the cursor plus
/// its place in the item, within the sheet.
spec fn rows_placed(groups: Seq<Group>, items: Seq<Item>, used: Seq<bool>, at: Seq<(int, int)>) -> bool {
    forall|i: int, k: int|
        0 <= i < items.len() && used[i] && 0 <= k < items[i].local@.len() ==> {
            let e = #[trigger] items[i].local@[k];
            &&& -0x1000_0000 <= at[i].0 + e.1.x <= 0x1000_0000
            &&& -0x1000_0000 <= at[i].1 + e.1.y <= 0x1000_0000
            &&& e.0 < groups.len()
            &&& groups[e.0 as int].base_offset == Some(
                Cell { x: (at[i].0 + e.1.x) as i32, y: (at[i].1 + e.1.y) as i32 },
            )
        }
}

/// The shelved items' frames lie below `below`, in rows above the
/// cursor or left of it on its row, and no two overlap.
spec fn rows_apart(
    items: Seq<Item>,
    used: Seq<bool>,
    at: Seq<(int, int)>,
    below: int,
    cursor_x: int,
    cursor_y: int,
    row_height: int,
) -> bool {
    &&& forall|i: int|
        0 <= i < items.len() && #[trigger] used[i] ==> 0 <= at[i].0 <= 0x1000_0000 && below <= at[i].1 <= 0x1000_0000
            && (at[i].1 + items[i].height
            <= cursor_y || (at[i].1 == cursor_y && at[i].0 + items[i].width <= cursor_x && items[i].height <= row_height))
    &&& forall|i: int, j: int|
        0 <= i < items.len() && 0 <= j < items.len() && i != j && #[trigger] used[i] && #[trigger] used[j] ==> at[i].0
            + items[i].width <= at[j].0 || at[j].0 + items[j].width <= at[i].0 || at[i].1 + items[i].height <= at[j].1
            || at[j].1 + items[j].height <= at[i].1
}

/// The items' members belong to their own, distinct buildings, none of
/// them a town building.
spec fn items_apart(
    items: Seq<Item>,
    ic: Seq<usize>,
    clusters: Seq<Option<usize>>,
    cluster_door: Seq<bool>,
) -> bool {
    &&& ic.len() == items.len()
    &&& forall|a: int, b: int| 0 <= a < b < ic.len() ==> #[trigger] ic[a] < #[trigger] ic[b]
    &&& forall|i: int, k: int|
        0 <= i < items.len() && 0 <= k < items[i].local@.len() ==> (#[trigger] items[i].local@[k]).0 < clusters.len()
            && cl_of(clusters, items[i].local@[k].0 as int) == ic[i] && ic[i] < cluster_door.len() && !cluster_door[ic[i] as int]
}

proof fn lemma_item_ok_shape(a: Seq<Group>, b: Seq<Group>, it: Item)
    requires
        crate::packing::same_shape(a, b),
        item_ok(a, it),
    ensures
        item_ok(b, it),
{
    assert forall|k: int, p: int| 0 <= k < it.local@.len() && 0 <= p < cells_of(b[it.local@[k].0 as int].positions@).len()
        implies #[trigger] item_cell(b, it, k, p) == item_cell(a, it, k, p) by {
        assert(it.local@[k].0 < a.len());
        assert(a[it.local@[k].0 as int].positions == b[it.local@[k].0 as int].positions);
    }
    assert forall|k: int, p: int|
        0 <= k < it.local@.len() && 0 <= p < cells_of(b[it.local@[k].0 as int].positions@).len() implies {
        let c = #[trigger] item_cell(b, it, k, p);
        0 <= c.0 < it.width && 0 <= c.1 < it.height
    } by {
        assert(it.local@[k].0 < a.len());
        assert(a[it.local@[k].0 as int].positions == b[it.local@[k].0 as int].positions);
        assert(item_cell(b, it, k, p) == item_cell(a, it, k, p));
    }
    assert forall|x: int, y: int, p: int, q: int|
        0 <= x < it.local@.len() && 0 <= y < it.local@.len() && x != y && 0 <= p < cells_of(
            b[it.local@[x].0 as int].positions@,
        ).len() && 0 <= q < cells_of(b[it.local@[y].0 as int].positions@).len() implies #[trigger] item_cell(b, it, x, p)
        != #[trigger] item_cell(b, it, y, q) by {
        assert(it.local@[x].0 < a.len() && it.local@[y].0 < a.len());
        assert(a[it.local@[x].0 as int].positions == b[it.local@[x].0 as int].positions);
        assert(a[it.local@[y].0 as int].positions == b[it.local@[y].0 as int].positions);
        assert(item_cell(b, it, x, p) == item_cell(a, it, x, p));
        assert(item_cell(b, it, y, q) == item_cell(a, it, y, q));
    }
}

/// The component's cell `a` on the sheet, as integers.
spec fn cell_at(groups: Seq<Group>, g: int, a: int) -> (int, int) {
    let c = groups[g].positions@[a].1;
    let o = groups[g].base_offset.unwrap();
    (c.x + o.x, c.y + o.y)
}

/// A town component's cell: its own cell plus its merged offset.
proof fn lemma_town_cell(
    g0: Seq<Group>,
    groups: Seq<Group>,
    flags: Seq<bool>,
    town: Seq<usize>,
    tloc: Seq<(usize, Cell)>,
    tmax: int,
    below: int,
    x: int,
    a: int,
)
    requires
        g0.len() == groups.len(),
        flags.len() == groups.len(),
        shelf_kept(g0, groups, flags),
        town_ok(g0, groups, town, tloc, tmax, below),
        0 <= x < town.len(),
        0 <= a < groups[town[x] as int].positions@.len(),
    ensures
        groups[town[x] as int].base_offset is Some,
        cell_at(groups, town[x] as int, a) == (
            cells_of(g0[town[x] as int].positions@)[a].x + tloc[x].1.x,
            cells_of(g0[town[x] as int].positions@)[a].y + tloc[x].1.y,
        ),
        cell_at(groups, town[x] as int, a).1 <= tmax,
        i32::MIN <= cell_at(groups, town[x] as int, a).0 <= i32::MAX,
        i32::MIN <= cell_at(groups, town[x] as int, a).1 <= i32::MAX,
{
    let g = town[x] as int;
    assert(groups[g].positions == g0[g].positions);
    assert(cells_of(g0[g].positions@)[a] == groups[g].positions@[a].1);
    assert(groups[g].base_offset == Some(tloc[x].1));
    let c = cells_of(g0[g].positions@)[a];
    assert(c.y + tloc[x].1.y <= tmax);
}

/// A shelved item member's cell: the item's cursor plus its cell in the
/// item's frame.
proof fn lemma_row_cell(
    g0: Seq<Group>,
    groups: Seq<Group>,
    flags: Seq<bool>,
    items: Seq<Item>,
    used: Seq<bool>,
    at: Seq<(int, int)>,
    below: int,
    cx: int,
    cy: int,
    rh: int,
    i: int,
    k: int,
    a: int,
)
    requires
        g0.len() == groups.len(),
        flags.len() == groups.len(),
        shelf_kept(g0, groups, flags),
        -0x4000_0010 <= below,
        used.len() == items.len(),
        at.len() == items.len(),
        0 <= i < items.len(),
        used[i],
        item_ok(g0, items[i]),
        1 <= items[i].width <= 0x4000_0000,
        1 <= items[i].height <= 0x4000_0000,
        rows_placed(groups, items, used, at),
        rows_apart(items, used, at, below, cx, cy, rh),
        0 <= k < items[i].local@.len(),
        0 <= a < groups[items[i].local@[k].0 as int].positions@.len(),
    ensures
        groups[items[i].local@[k].0 as int].base_offset is Some,
        cell_at(groups, items[i].local@[k].0 as int, a) == (
            at[i].0 + item_cell(g0, items[i], k, a).0,
            at[i].1 + item_cell(g0, items[i], k, a).1,
        ),
        at[i].0 <= cell_at(groups, items[i].local@[k].0 as int, a).0 < at[i].0 + items[i].width,
        at[i].1 <= cell_at(groups, items[i].local@[k].0 as int, a).1 < at[i].1 + items[i].height,
        below <= cell_at(groups, items[i].local@[k].0 as int, a).1,
        i32::MIN <= cell_at(groups, items[i].local@[k].0 as int, a).0 <= i32::MAX,
        i32::MIN <= cell_at(groups, items[i].local@[k].0 as int, a).1 <= i32::MAX,
{
    let e = items[i].local@[k];
    let g = e.0 as int;
    assert(g < g0.len());
    assert(groups[g].positions == g0[g].positions);
    assert(cells_of(g0[g].positions@)[a] == groups[g].positions@[a].1);
    assert(groups[g].base_offset == Some(Cell { x: (at[i].0 + e.1.x) as i32, y: (at[i].1 + e.1.y) as i32 }));
    let ic = item_cell(g0, items[i], k, a);
    assert(0 <= ic.0 < items[i].width && 0 <= ic.1 < items[i].height);
    assert(0 <= at[i].0 <= 0x1000_0000 && below <= at[i].1 <= 0x1000_0000);
}

/// Two interior components shelved as laid out share no cell.
proof fn lemma_shelf_apart(
    g0: Seq<Group>,
    groups: Seq<Group>,
    flags: Seq<bool>,
    clusters: Seq<Option<usize>>,
    cluster_door: Seq<bool>,
    town: Seq<usize>,
    tloc: Seq<(usize, Cell)>,
    tmax: int,
    below: int,
    items: Seq<Item>,
    used: Seq<bool>,
    at: Seq<(int, int)>,
    ic: Seq<usize>,
    cx: int,
    cy: int,
    rh: int,
    g: int,
    h: int,
    a: int,
    b: int,
)
    requires
        g0.len() == groups.len(),
        groups.len() <= 0x1_0000,
        flags.len() == groups.len(),
        clusters.len() == groups.len(),
        cluster_door.len() == groups.len(),
        shelf_kept(g0, groups, flags),
        -0x4000_0010 <= below,
        town_ok(g0, groups, town, tloc, tmax, below),
        forall|x: int|
            0 <= x < groups.len() && #[trigger] flags[x] && cluster_door[cl_of(clusters, x)] ==> town.contains(x as usize),
        forall|x: int|
            0 <= x < groups.len() && #[trigger] flags[x] && !cluster_door[cl_of(clusters, x)] ==> exists|i: int, k: int|
                0 <= i < items.len() && 0 <= k < items[i].local@.len() && (#[trigger] items[i].local@[k]).0 == x,
        used.len() == items.len(),
        at.len() == items.len(),
        forall|i: int| 0 <= i < used.len() ==> #[trigger] used[i],
        forall|i: int| 0 <= i < items.len() ==> item_ok(g0, #[trigger] items[i]),
        forall|x: int| 0 <= x < items.len() ==> 1 <= (#[trigger] items[x]).width <= 0x4000_0000 && 1 <= items[x].height
            <= 0x4000_0000,
        rows_placed(groups, items, used, at),
        rows_apart(items, used, at, below, cx, cy, rh),
        0 <= g < groups.len(),
        0 <= h < groups.len(),
        g != h,
        flags[g],
        flags[h],
        0 <= a < groups[g].positions@.len(),
        0 <= b < groups[h].positions@.len(),
    ensures
        groups[g].base_offset is Some,
        groups[h].base_offset is Some,
        cell_at(groups, g, a) != cell_at(groups, h, b),
        i32::MIN <= cell_at(groups, g, a).0 <= i32::MAX,
        i32::MIN <= cell_at(groups, g, a).1 <= i32::MAX,
        i32::MIN <= cell_at(groups, h, b).0 <= i32::MAX,
        i32::MIN <= cell_at(groups, h, b).1 <= i32::MAX,
{
    let tg = cluster_door[cl_of(clusters, g)];
    let th = cluster_door[cl_of(clusters, h)];
    if tg && th {
        assert(town.contains(g as usize));
        assert(town.contains(h as usize));
        let xg = choose|x: int| 0 <= x < town.len() && town[x] == g as usize;
        let xh = choose|x: int| 0 <= x < town.len() && town[x] == h as usize;
        lemma_town_cell(g0, groups, flags, town, tloc, tmax, below, xg, a);
        lemma_town_cell(g0, groups, flags, town, tloc, tmax, below, xh, b);
        assert(xg != xh);
        let c1 = cells_of(g0[town[xg] as int].positions@)[a];
        let c2 = cells_of(g0[town[xh] as int].positions@)[b];
        assert(g0[g].positions == groups[g].positions && g0[h].positions == groups[h].positions);
        assert((c1.x + tloc[xg].1.x, c1.y + tloc[xg].1.y) != (c2.x + tloc[xh].1.x, c2.y + tloc[xh].1.y));
    } else if tg && !th {
        assert(town.contains(g as usize));
        let xg = choose|x: int| 0 <= x < town.len() && town[x] == g as usize;
        lemma_town_cell(g0, groups, flags, town, tloc, tmax, below, xg, a);
        let (i, k) = choose|i: int, k: int|
            0 <= i < items.len() && 0 <= k < items[i].local@.len() && (#[trigger] items[i].local@[k]).0 == h;
        lemma_row_cell(g0, groups, flags, items, used, at, below, cx, cy, rh, i, k, b);
    } else if !tg && th {
        assert(town.contains(h as usize));
        let xh = choose|x: int| 0 <= x < town.len() && town[x] == h as usize;
        lemma_town_cell(g0, groups, flags, town, tloc, tmax, below, xh, b);
        let (i, k) = choose|i: int, k: int|
            0 <= i < items.len() && 0 <= k < items[i].local@.len() && (#[trigger] items[i].local@[k]).0 == g;
        lemma_row_cell(g0, groups, flags, items, used, at, below, cx, cy, rh, i, k, a);
    } else {
        let (i, k) = choose|i: int, k: int|
            0 <= i < items.len() && 0 <= k < items[i].local@.len() && (#[trigger] items[i].local@[k]).0 == g;
        let (j, q) = choose|j: int, q: int|
            0 <= j < items.len() && 0 <= q < items[j].local@.len() && (#[trigger] items[j].local@[q]).0 == h;
        lemma_row_cell(g0, groups, flags, items, used, at, below, cx, cy, rh, i, k, a);
        lemma_row_cell(g0, groups, flags, items, used, at, below, cx, cy, rh, j, q, b);
        if i == j {
            assert(k != q);
            assert(item_ok(g0, items[i]));
            assert(g0[g].positions == groups[g].positions && g0[h].positions == groups[h].positions);
            assert(item_cell(g0, items[i], k, a) != item_cell(g0, items[i], q, b));
        } else {
            assert(used[i] && used[j]);
        }
    }
}

/// Lays the interiors sheet: every listed interior component gets an
/// offset and the `InteriorShelf` method, and no other component moves.
/// The buildings that open onto the town, with every room of the
/// outdoor components echoed among them, are merged into one frame laid
/// at the outdoor sheet's own cells scaled by `TOWN_SCALE`; every other
/// building is merged alone, normalised to a (0,0) top-left, and shelved
/// in rows below the town and its streets, `GROUP_PADDING` apart, in the
/// order their doorways sit on the outdoor sheet (top to bottom, then
/// left to right, then by doorway room id and lowest component index,
/// a building with no outdoor doorway last), each row about as wide as
/// the square root of the buildings' padded area, and at least 20.
/// No two interior components share a cell. Returns `false`, with the
/// components the shelf had reached placed, when the shelf would reach
/// past the sheet's bounds.
pub fn pack_interior_shelf(
    groups: &mut Vec<Group>,
    interior: &Vec<usize>,
    clusters: &Vec<Option<usize>>,
    map: &RoomMap,
    classes: &crate::classifier::Classification,
    outdoor: &Vec<usize>,
) -> (fitted: bool)
    requires
        clusters@.len() == old(groups)@.len(),
        forall|g: int| 0 <= g < clusters@.len() ==> (#[trigger] clusters@[g] matches Some(c) ==> c < clusters@.len()),
    ensures
        crate::packing::same_shape(old(groups)@, final(groups)@),
        forall|g: int|
            0 <= g < final(groups)@.len() && !listed(interior@, g) ==> (#[trigger] final(groups)@[g]).base_offset
                == old(groups)@[g].base_offset && final(groups)@[g].packing == old(groups)@[g].packing,
        fitted ==> forall|g: int| 0 <= g < final(groups)@.len() && listed(interior@, g) ==> shelved(#[trigger] final(groups)@[g]),
        fitted ==> forall|g: int, h: int, a: int, b: int|
            0 <= g < final(groups)@.len() && 0 <= h < final(groups)@.len() && g != h && listed(interior@, g) && listed(
                interior@,
                h,
            ) && 0 <= a < final(groups)@[g].positions@.len() && 0 <= b < final(groups)@[h].positions@.len()
                ==> #[trigger] placed_cells(final(groups)@[g])[a] != #[trigger] placed_cells(final(groups)@[h])[b],
{
    let ghost g0 = groups@;
    let n = groups.len();
    // Which components are interiors.
    let mut flags: Vec<bool> = Vec::new();
    let mut g: usize = 0;
    while g < n
        invariant
            g <= n,
            n == groups@.len(),
            flags@.len() == g,
            forall|h: int| 0 <= h < g ==> (#[trigger] flags@[h] <==> listed(interior@, h)),
        decreases n - g,
    {
        let mut found = false;
        let mut i: usize = 0;
        while i < interior.len()
            invariant
                i <= interior@.len(),
                found <==> exists|t: int| 0 <= t < i && interior@[t] as int == g as int,
            decreases interior.len() - i,
        {
            if interior[i] == g {
                found = true;
            }
            i = i + 1;
        }
        flags.push(found);
        g = g + 1;
    }
    proof {
        assert(crate::packing::same_shape(g0, groups@));
    }
    if interior.len() == 0 {
        proof {
            assert forall|h: int| 0 <= h < groups@.len() && listed(interior@, h) implies shelved(#[trigger] groups@[h]) by {
                let t = choose|t: int| 0 <= t < interior@.len() && interior@[t] as int == h;
            }
        }
        return true;
    }
    if n > 0x1_0000 {
        return false;
    }
    let streets = match street_rooms(groups, outdoor) {
        Some(t) => t,
        None => {
            return false;
        },
    };
    let (street_ids, street_cells, street_at) = streets;
    if street_ids.len() > 0x1_0000 {
        return false;
    }
    // Which components have a door onto a street, from either side.
    let mut door: Vec<bool> = Vec::new();
    let mut g: usize = 0;
    while g < n
        invariant
            g <= n,
            n == groups@.len(),
            n == flags@.len(),
            door@.len() == g,
        decreases n - g,
    {
        door.push(flags[g] && opens_onto(&groups[g], map, &street_at));
        g = g + 1;
    }
    let mut s: usize = 0;
    while s < street_ids.len()
        invariant
            s <= street_ids@.len(),
            n == groups@.len(),
            n == flags@.len(),
            door@.len() == n,
        decreases street_ids.len() - s,
    {
        match map.room(street_ids[s]) {
            Some(room) => {
                let mut e: usize = 0;
                while e < room.exits.len()
                    invariant
                        e <= room.exits@.len(),
                        n == groups@.len(),
                        n == flags@.len(),
                        door@.len() == n,
                    decreases room.exits.len() - e,
                {
                    let exit = &room.exits[e];
                    if is_passage(exit) {
                        let mut h: usize = 0;
                        while h < n
                            invariant
                                h <= n,
                                n == groups@.len(),
                                n == flags@.len(),
                                door@.len() == n,
                            decreases n - h,
                        {
                            if flags[h] && !door[h] && holds_room(&groups[h].room_ids, exit.to) {
                                door.set(h, true);
                            }
                            h = h + 1;
                        }
                    }
                    e = e + 1;
                }
            },
            None => {},
        }
        s = s + 1;
    }
    // A building has a door when any of its components does.
    let mut cluster_door: Vec<bool> = Vec::new();
    let mut c: usize = 0;
    while c < n
        invariant
            c <= n,
            cluster_door@.len() == c,
        decreases n - c,
    {
        cluster_door.push(false);
        c = c + 1;
    }
    let mut g: usize = 0;
    while g < n
        invariant
            g <= n,
            n == groups@.len(),
            n == clusters@.len(),
            door@.len() == n,
            cluster_door@.len() == n,
            forall|h: int| 0 <= h < clusters@.len() ==> (#[trigger] clusters@[h] matches Some(k) ==> k < clusters@.len()),
        decreases n - g,
    {
        if door[g] {
            let k = cluster_of(clusters, g);
            cluster_door.set(k, true);
        }
        g = g + 1;
    }
    let mut below: i64 = 0;
    let mut k: usize = 0;
    while k < street_cells.len()
        invariant
            k <= street_cells@.len(),
            -0x1000_0000 * 4 - 4 <= below <= 0x1000_0000 * 4 + 4,
            n <= 0x1_0000,
            forall|t: int| 0 <= t < street_cells@.len() ==> within(#[trigger] street_cells@[t], sheet_limit()),
        decreases street_cells.len() - k,
    {
        let bottom = street_cells[k].y as i64 * 4 + 4;
        if k == 0 || bottom > below {
            below = bottom;
        }
        k = k + 1;
    }
    // The town: the buildings with doors, and an echo of every street room.
    let mut town: Vec<usize> = Vec::new();
    let mut g: usize = 0;
    while g < n
        invariant
            g <= n,
            n == groups@.len(),
            n == clusters@.len(),
            n == flags@.len(),
            cluster_door@.len() == n,
            n <= 0x1_0000,
            forall|h: int| 0 <= h < clusters@.len() ==> (#[trigger] clusters@[h] matches Some(k) ==> k < clusters@.len()),
            town@.len() <= g,
            forall|t: int| 0 <= t < town@.len() ==> (#[trigger] town@[t]) < g && flags@[town@[t] as int],
            forall|t: int| 0 <= t < town@.len() ==> cluster_door@[(match clusters@[(#[trigger] town@[t]) as int] {
                Some(k) => k,
                None => town@[t],
            }) as int],
            forall|a: int, b: int| 0 <= a < b < town@.len() ==> #[trigger] town@[a] < #[trigger] town@[b],
            forall|h: int|
                0 <= h < g && #[trigger] flags@[h] && cluster_door@[(match clusters@[h] {
                    Some(k) => k,
                    None => h as usize,
                }) as int] ==> town@.contains(h as usize),
        decreases n - g,
    {
        let ghost before = town@;
        if flags[g] && cluster_door[cluster_of(clusters, g)] {
            town.push(g);
        }
        proof {
            assert forall|h: int|
                0 <= h < g + 1 && #[trigger] flags@[h] && cluster_door@[(match clusters@[h] {
                    Some(k) => k,
                    None => h as usize,
                }) as int] implies town@.contains(h as usize) by {
                if h == g {
                    assert(town@[town@.len() - 1] == g);
                } else {
                    assert(before.contains(h as usize));
                    let t = choose|t: int| 0 <= t < before.len() && before[t] == h as usize;
                    assert(town@[t] == before[t]);
                }
            }
        }
        g = g + 1;
    }
    let ghost mut tloc: Seq<(usize, Cell)> = Seq::empty();
    let ghost mut tmax: int = below - 4;
    let ghost g_town = groups@;
    if town.len() > 0 {
        let tn = town.len();
        let mut all: Vec<usize> = Vec::new();
        let mut t: usize = 0;
        while t < tn
            invariant
                t <= tn,
                tn == town@.len(),
                all@ == town@.take(t as int),
            decreases tn - t,
        {
            all.push(town[t]);
            assert(town@.take(t + 1) =~= town@.take(t as int).push(town@[t as int]));
            t = t + 1;
        }
        assert(town@.take(t as int) =~= town@);
        let mut i: usize = 0;
        while i < street_ids.len()
            invariant
                i <= street_ids@.len(),
                street_ids@.len() <= 0x1_0000,
                all@.len() == tn + i,
                forall|x: int| 0 <= x < tn ==> all@[x] == town@[x],
                forall|x: int| tn <= x < all@.len() ==> is_echo(#[trigger] all@[x]) && (usize::MAX - all@[x]) < street_ids@.len(),
            decreases street_ids.len() - i,
        {
            all.push(anchor_index(i));
            i = i + 1;
        }
        proof {
            assert forall|j: int| 0 <= j < all@.len() implies member_ok(groups@, #[trigger] all@[j], street_ids@.len() as int) by {
                if j < tn {
                    assert(all@[j] == town@[j]);
                    assert(town@[j] < n);
                }
            }
        }
        let local = match merge_if_fits(groups, &all, map, &street_ids, &street_cells) {
            Some(l) => l,
            None => {
                return false;
            },
        };
        let ghost rr = merge_room(all@.len() as int);
        proof {
            assert(groups@ == g0);
            lemma_merge_room(all@.len() as int);
            assert forall|x1: int, x2: int, p: int, q: int|
                0 <= x1 < tn && 0 <= x2 < tn && x1 != x2 && 0 <= p < cells_of(g0[town@[x1] as int].positions@).len()
                    && 0 <= q < cells_of(g0[town@[x2] as int].positions@).len() implies ({
                    let c1 = #[trigger] cells_of(g0[town@[x1] as int].positions@)[p];
                    let c2 = #[trigger] cells_of(g0[town@[x2] as int].positions@)[q];
                    (c1.x + local@[x1].1.x, c1.y + local@[x1].1.y) != (c2.x + local@[x2].1.x, c2.y + local@[x2].1.y)
                }) by {
                assert(all@[x1] == town@[x1] && all@[x2] == town@[x2]);
                assert(!is_echo(all@[x1]) && !is_echo(all@[x2]));
                assert(member_cells(groups@, all@[x1]) == cells_of(g0[town@[x1] as int].positions@));
                assert(member_cells(groups@, all@[x2]) == cells_of(g0[town@[x2] as int].positions@));
                assert(cells_within(cells_of(g0[town@[x1] as int].positions@), rr));
                assert(cells_within(cells_of(g0[town@[x2] as int].positions@), rr));
                assert(shifted(member_cells(groups@, all@[x1])[p], local@[x1].1) != shifted(
                    member_cells(groups@, all@[x2])[q],
                    local@[x2].1,
                ));
            }
        }
        let mut max_y: i64 = below - 4;
        let mut j: usize = 0;
        while j < local.len()
            invariant
                g0 == old(groups)@,
                g0.len() == n,
                spans_within(g0, rr),
                0 <= rr,
                forall|x: int| 0 <= x < all@.len() ==> within((#[trigger] local@[x]).1, sheet_limit() - rr - 64),
                forall|a: int, b: int| 0 <= a < b < town@.len() ==> #[trigger] town@[a] < #[trigger] town@[b],
                forall|x: int|
                    0 <= x < j && x < tn ==> (#[trigger] groups@[town@[x] as int]).base_offset == Some(local@[x].1),
                forall|x: int, p: int|
                    0 <= x < j && x < tn && 0 <= p < cells_of(g0[town@[x] as int].positions@).len() ==> (#[trigger] cells_of(
                        g0[town@[x] as int].positions@,
                    )[p]).y + local@[x].1.y <= max_y,
                below - 4 <= max_y,
                j <= local@.len(),
                local@.len() == all@.len(),
                forall|x: int| 0 <= x < all@.len() ==> (#[trigger] local@[x]).0 == all@[x] && within(local@[x].1, sheet_limit()),
                forall|x: int| 0 <= x < tn ==> all@[x] == town@[x],
                forall|x: int| 0 <= x < town@.len() ==> (#[trigger] town@[x]) < n && flags@[town@[x] as int],
                tn == town@.len(),
                tn <= all@.len(),
                n == groups@.len(),
                n == flags@.len(),
                -0x2_0000_0000 <= max_y <= 0x2_0000_0000,
                shelf_kept(g0, groups@, flags@),
                forall|x: int| 0 <= x < j && x < tn ==> shelved(#[trigger] groups@[town@[x] as int]),
            decreases local.len() - j,
        {
            let (m, off) = local[j];
            if j < tn {
                let ghost before = groups@;
                assert(all@[j as int] == town@[j as int]);
                assert(m == town@[j as int]);
                let b = groups[m].bounds();
                shelve(groups, m, off);
                proof {
                    lemma_shelve_kept(g0, before, groups@, flags@, m as int, off);
                    assert forall|x: int| 0 <= x < j && x < tn implies (#[trigger] groups@[town@[x] as int]).base_offset
                        == Some(local@[x].1) by {
                        assert(town@[x] < town@[j as int]);
                        assert(groups@[town@[x] as int] == before[town@[x] as int]);
                    }
                }
                let bottom: i64 = if b.max_y >= b.min_y { b.max_y as i64 + off.y as i64 } else { off.y as i64 };
                if bottom > max_y {
                    max_y = bottom;
                }
                proof {
                    assert forall|p: int| 0 <= p < cells_of(g0[m as int].positions@).len() implies (#[trigger] cells_of(
                        g0[m as int].positions@,
                    )[p]).y + local@[j as int].1.y <= max_y by {
                        lemma_in_bounds(g0[m as int].positions@, p);
                        assert(g0[m as int].positions == before[m as int].positions);
                    }
                }
            } else if off.y as i64 > max_y {
                max_y = off.y as i64;
            }
            j = j + 1;
        }
        if max_y + 4 > below {
            below = max_y + 4;
        }
        proof {
            tloc = local@;
            tmax = max_y as int;
            assert forall|x: int, p: int|
                0 <= x < tn && 0 <= p < cells_of(g0[town@[x] as int].positions@).len() implies i32::MIN <= (
                #[trigger] cells_of(g0[town@[x] as int].positions@)[p]).x + tloc[x].1.x <= i32::MAX && i32::MIN
                <= cells_of(g0[town@[x] as int].positions@)[p].y + tloc[x].1.y <= i32::MAX by {
                assert(cells_within(cells_of(g0[town@[x] as int].positions@), rr));
                assert(within(local@[x].1, sheet_limit() - rr - 64));
            }
        }
    }
    proof {
        assert(town_ok(g0, groups@, town@, tloc, tmax, below as int));
    }
    proof {
        assert forall|h: int|
            0 <= h < n && #[trigger] flags@[h] && cluster_door@[(match clusters@[h] {
                Some(k) => k,
                None => h as usize,
            }) as int] implies shelved(groups@[h]) by {
            assert(town@.contains(h as usize));
            let t = choose|t: int| 0 <= t < town@.len() && town@[t] == h as usize;
        }
    }
    proof {
        assert forall|t: int| 0 <= t < town@.len() implies (#[trigger] town@[t]) < n && cluster_door@[cl_of(clusters@, town@[t] as int)] by {
        }
        assert forall|h: int| 0 <= h < n && #[trigger] flags@[h] && cluster_door@[cl_of(clusters@, h)] implies shelved(groups@[h]) by {
            assert(cl_of(clusters@, h) == (match clusters@[h] {
                Some(k) => k,
                None => h as usize,
            }) as int);
        }
        assert forall|h: int| 0 <= h < n && #[trigger] flags@[h] && cluster_door@[cl_of(clusters@, h)] implies town@.contains(h as usize) by {
            assert(cl_of(clusters@, h) == (match clusters@[h] {
                Some(k) => k,
                None => h as usize,
            }) as int);
        }
    }
    // Every other building, merged alone and normalised.
    let mut items: Vec<Item> = Vec::new();
    let ghost mut ic: Seq<usize> = Seq::empty();
    let mut c: usize = 0;
    while c < n
        invariant
            g0 == old(groups)@,
            g0.len() == n,
            forall|x: int| 0 <= x < n ==> (#[trigger] flags@[x] <==> listed(interior@, x)),
            shelf_kept(g0, groups@, flags@),
            n == groups@.len(),
            n == clusters@.len(),
            n == flags@.len(),
            n <= 0x1_0000,
            cluster_door@.len() == n,
            forall|h: int| 0 <= h < clusters@.len() ==> (#[trigger] clusters@[h] matches Some(k) ==> k < clusters@.len()),
            town_ok(g0, groups@, town@, tloc, tmax, below as int),
            -0x4000_0010 <= below,
            forall|t: int| 0 <= t < town@.len() ==> (#[trigger] town@[t]) < n && cluster_door@[cl_of(clusters@, town@[t] as int)],
            forall|h: int| 0 <= h < n && #[trigger] flags@[h] && cluster_door@[cl_of(clusters@, h)] ==> town@.contains(h as usize),
            forall|i: int| 0 <= i < items@.len() ==> item_ok(g0, #[trigger] items@[i]),
            forall|x: int| 0 <= x < items@.len() ==> 1 <= (#[trigger] items@[x]).width <= 0x4000_0000 && 1 <= items@[x].height
                <= 0x4000_0000,
            items_apart(items@, ic, clusters@, cluster_door@),
            forall|i: int, k: int|
                0 <= i < items@.len() && 0 <= k < items@[i].local@.len() ==> (#[trigger] items@[i].local@[k]).0 < n
                    && flags@[items@[i].local@[k].0 as int],
            c <= n,
            street_ids@.len() == street_cells@.len(),
            forall|i: int| 0 <= i < ic.len() ==> #[trigger] ic[i] < c,
            forall|h: int|
                0 <= h < n && #[trigger] flags@[h] && !cluster_door@[cl_of(clusters@, h)] && cl_of(clusters@, h) < c
                    ==> exists|i: int, k: int|
                    0 <= i < items@.len() && 0 <= k < items@[i].local@.len() && (#[trigger] items@[i].local@[k]).0 == h,
        decreases n - c,
    {
        if !cluster_door[c] {
            let mut members: Vec<usize> = Vec::new();
            let mut h: usize = 0;
            while h < n
                invariant
                    h <= n,
                    n == clusters@.len(),
                    n == flags@.len(),
                    n <= 0x1_0000,
                    forall|t: int| 0 <= t < members@.len() ==> (#[trigger] members@[t]) < h && flags@[members@[t] as int]
                        && cl_of(clusters@, members@[t] as int) == c,
                    forall|a: int, b: int| 0 <= a < b < members@.len() ==> #[trigger] members@[a] < #[trigger] members@[b],
                    forall|x: int|
                        0 <= x < h && #[trigger] flags@[x] && cl_of(clusters@, x) == c ==> members@.contains(x as usize),
                decreases n - h,
            {
                let ghost before = members@;
                if flags[h] && cluster_of(clusters, h) == c {
                    members.push(h);
                }
                proof {
                    assert forall|x: int|
                        0 <= x < h + 1 && #[trigger] flags@[x] && cl_of(clusters@, x) == c implies members@.contains(x as usize) by {
                        if x == h {
                            assert(members@[members@.len() - 1] == h);
                        } else {
                            let t = choose|t: int| 0 <= t < before.len() && before[t] == x as usize;
                            assert(members@[t] == before[t]);
                        }
                    }
                }
                h = h + 1;
            }
            if members.len() > 0 {
                let item = match lone_item(groups, &members, map, classes, &street_at) {
                    Some(it) => it,
                    None => {
                        return false;
                    },
                };
                proof {
                    lemma_item_ok_shape(groups@, g0, item);
                }
                let ghost before = items@;
                let ghost ic0 = ic;
                items.push(item);
                proof {
                    ic = ic.push(c);
                    assert forall|i: int| 0 <= i < items@.len() implies item_ok(g0, #[trigger] items@[i]) by {
                        if i < before.len() {
                            assert(items@[i] == before[i]);
                        }
                    }
                    assert forall|i: int, k: int|
                        0 <= i < items@.len() && 0 <= k < items@[i].local@.len() implies (#[trigger] items@[i].local@[
                            k
                        ]).0 < clusters@.len() && cl_of(clusters@, items@[i].local@[k].0 as int) == ic[i] && ic[i]
                        < cluster_door@.len() && !cluster_door@[ic[i] as int] by {
                        if i < before.len() {
                            assert(items@[i] == before[i]);
                            assert(ic[i] == ic0[i]);
                        } else {
                            assert(items@[i].local@[k].0 == members@[k]);
                        }
                    }
                    assert forall|a: int, b: int| 0 <= a < b < ic.len() implies #[trigger] ic[a] < #[trigger] ic[b] by {
                        if b == ic.len() - 1 {
                            assert(ic0[a] < c);
                        }
                    }
                    assert forall|i: int, k: int|
                        0 <= i < items@.len() && 0 <= k < items@[i].local@.len() implies (#[trigger] items@[i].local@[
                            k
                        ]).0 < n && flags@[items@[i].local@[k].0 as int] by {
                        if i < before.len() {
                            assert(items@[i] == before[i]);
                        } else {
                            assert(items@[i].local@[k].0 == members@[k]);
                        }
                    }
                    assert forall|x: int| 0 <= x < items@.len() implies 1 <= (#[trigger] items@[x]).width <= 0x4000_0000
                        && 1 <= items@[x].height <= 0x4000_0000 by {
                        if x < before.len() {
                            assert(items@[x] == before[x]);
                        }
                    }
                    assert forall|h: int|
                        0 <= h < n && #[trigger] flags@[h] && !cluster_door@[cl_of(clusters@, h)] && cl_of(clusters@, h)
                            < c + 1 implies exists|i: int, k: int|
                        0 <= i < items@.len() && 0 <= k < items@[i].local@.len() && (#[trigger] items@[i].local@[
                            k
                        ]).0 == h by {
                        if cl_of(clusters@, h) == c {
                            assert(members@.contains(h as usize));
                            let t = choose|t: int| 0 <= t < members@.len() && members@[t] == h as usize;
                            assert(items@[before.len() as int].local@[t].0 == h);
                        } else {
                            let (i, k) = choose|i: int, k: int|
                                0 <= i < before.len() && 0 <= k < before[i].local@.len() && (#[trigger] before[i].local@[
                                    k
                                ]).0 == h;
                            assert(items@[i] == before[i]);
                        }
                    }
                }
            }
        }
        c = c + 1;
    }
    // The rows, widest about the square root of the padded area.
    let mut total: i64 = 0;
    let mut i: usize = 0;
    while i < items.len()
        invariant
            g0 == old(groups)@,
            g0.len() == n,
            forall|x: int| 0 <= x < n ==> (#[trigger] flags@[x] <==> listed(interior@, x)),
            shelf_kept(g0, groups@, flags@),
            n == groups@.len(),
            n == clusters@.len(),
            n == flags@.len(),
            n <= 0x1_0000,
            cluster_door@.len() == n,
            forall|h: int| 0 <= h < clusters@.len() ==> (#[trigger] clusters@[h] matches Some(k) ==> k < clusters@.len()),
            town_ok(g0, groups@, town@, tloc, tmax, below as int),
            -0x4000_0010 <= below,
            forall|t: int| 0 <= t < town@.len() ==> (#[trigger] town@[t]) < n && cluster_door@[cl_of(clusters@, town@[t] as int)],
            forall|h: int| 0 <= h < n && #[trigger] flags@[h] && cluster_door@[cl_of(clusters@, h)] ==> town@.contains(h as usize),
            forall|i: int| 0 <= i < items@.len() ==> item_ok(g0, #[trigger] items@[i]),
            forall|x: int| 0 <= x < items@.len() ==> 1 <= (#[trigger] items@[x]).width <= 0x4000_0000 && 1 <= items@[x].height
                <= 0x4000_0000,
            items_apart(items@, ic, clusters@, cluster_door@),
            forall|i: int, k: int|
                0 <= i < items@.len() && 0 <= k < items@[i].local@.len() ==> (#[trigger] items@[i].local@[k]).0 < n
                    && flags@[items@[i].local@[k].0 as int],
            i <= items@.len(),
            0 <= total,
        decreases items.len() - i,
    {
        let w = items[i].width + 3;
        let h = items[i].height + 3;
        proof {
            assert(w * h <= 0x4000_0003 * 0x4000_0003) by (nonlinear_arith)
                requires
                    0 <= w <= 0x4000_0003,
                    0 <= h <= 0x4000_0003,
            ;
        }
        let area: i64 = w * h;
        total = match total.checked_add(area) {
            Some(t) => t,
            None => {
                return false;
            },
        };
        i = i + 1;
    }
    let root = ceil_sqrt(total);
    let row_width: i64 = if root < 20 { 20 } else { root };
    let mut used: Vec<bool> = Vec::new();
    let mut i: usize = 0;
    while i < items.len()
        invariant
            i <= items@.len(),
            used@.len() == i,
            forall|x: int| 0 <= x < i ==> !(#[trigger] used@[x]),
        decreases items.len() - i,
    {
        used.push(false);
        i = i + 1;
    }
    proof {
        lemma_count_none(used@);
    }
    let ghost mut at: Seq<(int, int)> = Seq::new(items@.len(), |i: int| (0int, 0int));
    let mut done: usize = 0;
    let mut cursor_x: i64 = 0;
    let mut cursor_y: i64 = below;
    let mut row_height: i64 = 0;
    while done < items.len()
        invariant
            g0 == old(groups)@,
            g0.len() == n,
            forall|x: int| 0 <= x < n ==> (#[trigger] flags@[x] <==> listed(interior@, x)),
            shelf_kept(g0, groups@, flags@),
            n == groups@.len(),
            n == clusters@.len(),
            n == flags@.len(),
            n <= 0x1_0000,
            cluster_door@.len() == n,
            forall|h: int| 0 <= h < clusters@.len() ==> (#[trigger] clusters@[h] matches Some(k) ==> k < clusters@.len()),
            town_ok(g0, groups@, town@, tloc, tmax, below as int),
            -0x4000_0010 <= below,
            forall|t: int| 0 <= t < town@.len() ==> (#[trigger] town@[t]) < n && cluster_door@[cl_of(clusters@, town@[t] as int)],
            forall|h: int| 0 <= h < n && #[trigger] flags@[h] && cluster_door@[cl_of(clusters@, h)] ==> town@.contains(h as usize),
            forall|i: int| 0 <= i < items@.len() ==> item_ok(g0, #[trigger] items@[i]),
            forall|x: int| 0 <= x < items@.len() ==> 1 <= (#[trigger] items@[x]).width <= 0x4000_0000 && 1 <= items@[x].height
                <= 0x4000_0000,
            items_apart(items@, ic, clusters@, cluster_door@),
            forall|i: int, k: int|
                0 <= i < items@.len() && 0 <= k < items@[i].local@.len() ==> (#[trigger] items@[i].local@[k]).0 < n
                    && flags@[items@[i].local@[k].0 as int],
            done <= items@.len(),
            used@.len() == items@.len(),
            at.len() == items@.len(),
            done == count_true(used@),
            0 <= cursor_x <= 0x1_0000_0000,
            below <= cursor_y <= 0x4_0000_0000,
            0 <= row_height <= 0x4000_0000,
            0 <= row_width <= 0x1_0000_0000,
            rows_placed(groups@, items@, used@, at),
            rows_apart(items@, used@, at, below as int, cursor_x as int, cursor_y as int, row_height as int),
            forall|h: int|
                0 <= h < n && #[trigger] flags@[h] && !cluster_door@[cl_of(clusters@, h)] ==> exists|i: int, k: int|
                    0 <= i < items@.len() && 0 <= k < items@[i].local@.len() && (#[trigger] items@[i].local@[k]).0 == h,
            forall|x: int, k: int|
                0 <= x < items@.len() && used@[x] && 0 <= k < items@[x].local@.len() ==> shelved(
                    #[trigger] groups@[items@[x].local@[k].0 as int],
                ),
            forall|h: int| 0 <= h < n && #[trigger] flags@[h] && cluster_door@[cl_of(clusters@, h)] ==> shelved(groups@[h]),
        decreases items.len() - done,
    {
        proof {
            lemma_count_le(used@);
        }
        let pick = next_item(&items, &used);
        let width = items[pick].width;
        let height = items[pick].height;
        if cursor_x > 0 && cursor_x + width > row_width {
            cursor_y = cursor_y + row_height + 3;
            cursor_x = 0;
            row_height = 0;
        }
        if cursor_y > 0x1000_0000 || cursor_x > 0x1000_0000 {
            return false;
        }
        let mut k: usize = 0;
        while k < items[pick].local.len()
            invariant
    g0 == old(groups)@,
                g0.len() == n,
                forall|x: int| 0 <= x < n ==> (#[trigger] flags@[x] <==> listed(interior@, x)),
                shelf_kept(g0, groups@, flags@),
                n == groups@.len(),
                n == clusters@.len(),
                n == flags@.len(),
                n <= 0x1_0000,
                cluster_door@.len() == n,
                forall|h: int| 0 <= h < clusters@.len() ==> (#[trigger] clusters@[h] matches Some(k) ==> k < clusters@.len()),
                town_ok(g0, groups@, town@, tloc, tmax, below as int),
                -0x4000_0010 <= below,
                forall|t: int| 0 <= t < town@.len() ==> (#[trigger] town@[t]) < n && cluster_door@[cl_of(clusters@, town@[t] as int)],
                forall|h: int| 0 <= h < n && #[trigger] flags@[h] && cluster_door@[cl_of(clusters@, h)] ==> town@.contains(h as usize),
                forall|i: int| 0 <= i < items@.len() ==> item_ok(g0, #[trigger] items@[i]),
                forall|x: int| 0 <= x < items@.len() ==> 1 <= (#[trigger] items@[x]).width <= 0x4000_0000 && 1 <= items@[x].height
                    <= 0x4000_0000,
                items_apart(items@, ic, clusters@, cluster_door@),
                forall|i: int, k: int|
                    0 <= i < items@.len() && 0 <= k < items@[i].local@.len() ==> (#[trigger] items@[i].local@[k]).0 < n
                        && flags@[items@[i].local@[k].0 as int],
                k <= items@[pick as int].local@.len(),
                pick < items@.len(),
                !used@[pick as int],
                used@.len() == items@.len(),
                at.len() == items@.len(),
                0 <= cursor_x <= 0x1000_0000,
                below <= cursor_y <= 0x1000_0000,
                rows_placed(groups@, items@, used@, at),
                forall|x: int, t: int|
                    0 <= x < items@.len() && used@[x] && 0 <= t < items@[x].local@.len() ==> shelved(
                        #[trigger] groups@[items@[x].local@[t].0 as int],
                    ),
                forall|t: int| 0 <= t < k ==> {
                    let e = #[trigger] items@[pick as int].local@[t];
                    &&& shelved(groups@[e.0 as int])
                    &&& -0x1000_0000 <= cursor_x + e.1.x <= 0x1000_0000
                    &&& -0x1000_0000 <= cursor_y + e.1.y <= 0x1000_0000
                    &&& groups@[e.0 as int].base_offset == Some(
                        Cell { x: (cursor_x + e.1.x) as i32, y: (cursor_y + e.1.y) as i32 },
                    )
                },
                forall|h: int| 0 <= h < n && #[trigger] flags@[h] && cluster_door@[cl_of(clusters@, h)] ==> shelved(groups@[h]),
            decreases items@[pick as int].local@.len() - k,
        {
            let (m, loc) = items[pick].local[k];
            let x: i64 = cursor_x + loc.x as i64;
            let y: i64 = cursor_y + loc.y as i64;
            if !(-0x1000_0000 <= x && x <= 0x1000_0000 && -0x1000_0000 <= y && y <= 0x1000_0000) {
                return false;
            }
            let ghost before = groups@;
            assert(items@[pick as int].local@[k as int].0 < n && flags@[m as int]);
            shelve(groups, m, Cell { x: x as i32, y: y as i32 });
            proof {
                lemma_shelve_kept(g0, before, groups@, flags@, m as int, Cell { x: x as i32, y: y as i32 });
                let mc = cl_of(clusters@, m as int);
                assert(mc == ic[pick as int] && !cluster_door@[mc]);
                // No other placed component moved.
                assert forall|x: int| 0 <= x < town@.len() implies (#[trigger] town@[x]) as int != m as int by {
                    assert(cluster_door@[cl_of(clusters@, town@[x] as int)]);
                }
                assert(town_ok(g0, groups@, town@, tloc, tmax, below as int)) by {
                    assert forall|x: int| 0 <= x < town@.len() implies (#[trigger] town@[x]) < g0.len() && town@[x]
                        < groups@.len() && groups@[town@[x] as int].base_offset == Some(tloc[x].1) by {
                        assert(town@[x] as int != m as int);
                        assert(groups@[town@[x] as int] == before[town@[x] as int]);
                    }
                }
                assert(rows_placed(groups@, items@, used@, at)) by {
                    assert forall|i: int, q: int| 0 <= i < items@.len() && used@[i] && 0 <= q < items@[i].local@.len() implies {
                        let e = #[trigger] items@[i].local@[q];
                        &&& -0x1000_0000 <= at[i].0 + e.1.x <= 0x1000_0000
                        &&& -0x1000_0000 <= at[i].1 + e.1.y <= 0x1000_0000
                        &&& e.0 < groups@.len()
                        &&& groups@[e.0 as int].base_offset == Some(
                            Cell { x: (at[i].0 + e.1.x) as i32, y: (at[i].1 + e.1.y) as i32 },
                        )
                    } by {
                        assert(i != pick);
                        let e = items@[i].local@[q];
                        if i < pick as int {
                            assert(ic[i] < ic[pick as int]);
                        } else {
                            assert(ic[pick as int] < ic[i]);
                        }
                        assert(e.0 != m);
                        assert(groups@[e.0 as int] == before[e.0 as int]);
                    }
                }
                assert forall|t: int| 0 <= t < k + 1 implies {
                    let e = #[trigger] items@[pick as int].local@[t];
                    &&& shelved(groups@[e.0 as int])
                    &&& -0x1000_0000 <= cursor_x + e.1.x <= 0x1000_0000
                    &&& -0x1000_0000 <= cursor_y + e.1.y <= 0x1000_0000
                    &&& groups@[e.0 as int].base_offset == Some(
                        Cell { x: (cursor_x + e.1.x) as i32, y: (cursor_y + e.1.y) as i32 },
                    )
                } by {
                    if t < k {
                        let e = items@[pick as int].local@[t];
                        assert(item_ok(g0, items@[pick as int]));
                        assert(e.0 != m);
                        assert(groups@[e.0 as int] == before[e.0 as int]);
                    }
                }
            }
            k = k + 1;
        }
        proof {
            lemma_count_set(used@, pick as int);
            let u1 = used@.update(pick as int, true);
            let a1 = at.update(pick as int, (cursor_x as int, cursor_y as int));
            assert(rows_placed(groups@, items@, u1, a1)) by {
                assert forall|i: int, q: int| 0 <= i < items@.len() && u1[i] && 0 <= q < items@[i].local@.len() implies {
                    let e = #[trigger] items@[i].local@[q];
                    &&& -0x1000_0000 <= a1[i].0 + e.1.x <= 0x1000_0000
                    &&& -0x1000_0000 <= a1[i].1 + e.1.y <= 0x1000_0000
                    &&& e.0 < groups@.len()
                    &&& groups@[e.0 as int].base_offset == Some(
                        Cell { x: (a1[i].0 + e.1.x) as i32, y: (a1[i].1 + e.1.y) as i32 },
                    )
                } by {
                    if i != pick as int {
                        assert(used@[i]);
                    }
                }
            }
            at = a1;
        }
        used.set(pick, true);
        let old_x = cursor_x;
        cursor_x = cursor_x + width + 3;
        if cursor_x > 0x1_0000_0000 {
            return false;
        }
        if height > row_height {
            row_height = height;
        }
        proof {
            assert(rows_apart(items@, used@, at, below as int, cursor_x as int, cursor_y as int, row_height as int)) by {
                assert forall|i: int| 0 <= i < items@.len() && #[trigger] used@[i] implies 0 <= at[i].0 <= 0x1000_0000
                    && below <= at[i].1 <= 0x1000_0000 && (at[i].1 + items@[i].height <= cursor_y || (at[i].1 == cursor_y && at[i].0 + items@[i].width
                    <= cursor_x && items@[i].height <= row_height)) by {
                }
                assert forall|i: int, j: int|
                    0 <= i < items@.len() && 0 <= j < items@.len() && i != j && #[trigger] used@[i] && #[trigger] used@[j]
                        implies at[i].0 + items@[i].width <= at[j].0 || at[j].0 + items@[j].width <= at[i].0 || at[i].1
                    + items@[i].height <= at[j].1 || at[j].1 + items@[j].height <= at[i].1 by {
                }
            }
            assert forall|x: int, t: int|
                0 <= x < items@.len() && used@[x] && 0 <= t < items@[x].local@.len() implies shelved(
                #[trigger] groups@[items@[x].local@[t].0 as int],
            ) by {
                if x == pick as int {
                    assert(shelved(groups@[items@[pick as int].local@[t].0 as int]));
                }
            }
        }
        done = done + 1;
    }
    proof {
        lemma_count_full(used@);
        assert forall|h: int| 0 <= h < groups@.len() && listed(interior@, h) implies shelved(#[trigger] groups@[h]) by {
            assert(flags@[h]);
            if !cluster_door@[cl_of(clusters@, h)] {
                let (x, k) = choose|x: int, k: int|
                    0 <= x < items@.len() && 0 <= k < items@[x].local@.len() && (#[trigger] items@[x].local@[k]).0 == h;
                assert(used@[x]);
            }
        }
        assert forall|g: int, h: int, a: int, b: int|
            0 <= g < groups@.len() && 0 <= h < groups@.len() && g != h && listed(interior@, g) && listed(interior@, h)
                && 0 <= a < groups@[g].positions@.len() && 0 <= b < groups@[h].positions@.len() implies #[trigger] placed_cells(
            groups@[g],
        )[a] != #[trigger] placed_cells(groups@[h])[b] by {
            lemma_shelf_apart(
                g0,
                groups@,
                flags@,
                clusters@,
                cluster_door@,
                town@,
                tloc,
                tmax,
                below as int,
                items@,
                used@,
                at,
                ic,
                cursor_x as int,
                cursor_y as int,
                row_height as int,
                g,
                h,
                a,
                b,
            );
        }
    }
    true
}

/// Whether the ids hold `id`.
fn holds_room(ids: &Vec<RoomId>, id: RoomId) -> (b: bool)
    ensures
        b == exists|k: int| 0 <= k < ids@.len() && ids@[k] == id,
{
    let mut k: usize = 0;
    while k < ids.len()
        invariant
            k <= ids@.len(),
            forall|t: int| 0 <= t < k ==> ids@[t] != id,
        decreases ids.len() - k,
    {
        if ids[k].0 == id.0 {
            return true;
        }
        k = k + 1;
    }
    false
}


/// The least `w` whose square reaches `total`.
fn ceil_sqrt(total: i64) -> (w: i64)
    requires
        0 <= total,
    ensures
        0 <= w <= 0x1_0000_0000,
        w * w >= total,
        w == 0 || (w - 1) * (w - 1) < total,
{
    let mut w: i64 = 0;
    loop
        invariant
            0 <= w <= total,
            w == 0 || (w - 1) * (w - 1) < total,
        ensures
            0 <= w <= total || w == 0,
            w * w >= total,
            w == 0 || (w - 1) * (w - 1) < total,
        decreases total - w,
    {
        proof {
            assert((w as int) * (w as int) <= 0x7fff_ffff_ffff_ffff * 0x7fff_ffff_ffff_ffff) by (nonlinear_arith)
                requires
                    0 <= w <= 0x7fff_ffff_ffff_ffff,
            ;
        }
        let sq: i128 = (w as i128) * (w as i128);
        if sq >= total as i128 {
            break;
        }
        proof {
            assert(w * w < total ==> w + 1 <= total) by (nonlinear_arith)
                requires
                    0 <= w,
            ;
        }
        w = w + 1;
    }
    proof {
        assert(w <= 0x1_0000_0000) by (nonlinear_arith)
            requires
                w == 0 || (w - 1) * (w - 1) < total,
                total <= i64::MAX,
                0 <= w,
        ;
    }
    w
}

/// The unused item that comes first on the shelf: the lowest key.
fn next_item(items: &Vec<Item>, used: &Vec<bool>) -> (pick: usize)
    requires
        used@.len() == items@.len(),
        count_true(used@) < used@.len(),
    ensures
        pick < items@.len(),
        !used@[pick as int],
{
    let mut best: Option<usize> = None;
    let mut i: usize = 0;
    while i < items.len()
        invariant
            i <= items@.len(),
            used@.len() == items@.len(),
            count_true(used@) < used@.len(),
            best matches Some(b) ==> b < items@.len() && !used@[b as int],
            best is None ==> forall|x: int| 0 <= x < i ==> #[trigger] used@[x],
        decreases items.len() - i,
    {
        if !used[i] {
            let better = match best {
                None => true,
                Some(b) => key_less(items[i].key, items[b].key),
            };
            if better {
                best = Some(i);
            }
        }
        i = i + 1;
    }
    match best {
        Some(b) => b,
        None => {
            proof {
                lemma_count_all(used@);
            }
            0
        },
    }
}

/// Whether key `a` orders before key `b`.
fn key_less(a: (i64, i64, u32, usize), b: (i64, i64, u32, usize)) -> (r: bool) {
    a.0 < b.0 || (a.0 == b.0 && (a.1 < b.1 || (a.1 == b.1 && (a.2 < b.2 || (a.2 == b.2 && a.3 < b.3)))))
}

/// Every cell of the component lies within its extent.
proof fn lemma_in_bounds(ps: Seq<(RoomId, Cell)>, k: int)
    requires
        0 <= k < ps.len(),
    ensures
        min_x_of(ps) <= ps[k].1.x <= max_x_of(ps),
        min_y_of(ps) <= ps[k].1.y <= max_y_of(ps),
    decreases ps.len(),
{
    if k < ps.len() - 1 {
        lemma_in_bounds(ps.drop_last(), k);
        assert(ps.drop_last()[k] == ps[k]);
    }
}

/// Cell `p` of the `k`-th member of the item, in the item's frame.
spec fn item_cell(groups: Seq<Group>, it: Item, k: int, p: int) -> (int, int) {
    let c = cells_of(groups[it.local@[k].0 as int].positions@)[p];
    (c.x + it.local@[k].1.x, c.y + it.local@[k].1.y)
}

/// The item's members are distinct components whose cells lie inside its
/// `width` by `height` frame, no two on one cell.
spec fn item_ok(groups: Seq<Group>, it: Item) -> bool {
    &&& forall|k: int| 0 <= k < it.local@.len() ==> (#[trigger] it.local@[k]).0 < groups.len()
    &&& forall|k: int, p: int|
        0 <= k < it.local@.len() && 0 <= p < cells_of(groups[it.local@[k].0 as int].positions@).len() ==> {
            let c = #[trigger] item_cell(groups, it, k, p);
            0 <= c.0 < it.width && 0 <= c.1 < it.height
        }
    &&& forall|a: int, b: int, p: int, q: int|
        0 <= a < it.local@.len() && 0 <= b < it.local@.len() && a != b && 0 <= p < cells_of(
            groups[it.local@[a].0 as int].positions@,
        ).len() && 0 <= q < cells_of(groups[it.local@[b].0 as int].positions@).len() ==> #[trigger] item_cell(
            groups,
            it,
            a,
            p,
        ) != #[trigger] item_cell(groups, it, b, q)
    &&& forall|a: int, b: int|
        0 <= a < it.local@.len() && 0 <= b < it.local@.len() && a != b ==> (#[trigger] it.local@[a]).0 != (
        #[trigger] it.local@[b]).0
    &&& forall|k: int| 0 <= k < it.local@.len() ==> within((#[trigger] it.local@[k]).1, sheet_limit())
}

/// One building that opens onto no street: merged, normalised to a
/// (0,0) top-left, and keyed by where its lowest-id doorway sits on the
/// outdoor sheet. `None` when it reaches off the sheet.
fn lone_item(
    groups: &Vec<Group>,
    members: &Vec<usize>,
    map: &RoomMap,
    classes: &crate::classifier::Classification,
    street_at: &HashMapWithView<u32, Cell>,
) -> (item: Option<Item>)
    requires
        members@.len() > 0,
        groups@.len() <= 0x1_0000,
        forall|t: int| 0 <= t < members@.len() ==> (#[trigger] members@[t]) < groups@.len(),
        forall|a: int, b: int| 0 <= a < b < members@.len() ==> #[trigger] members@[a] < #[trigger] members@[b],
    ensures
        item matches Some(it) ==> {
            &&& it.local@.len() == members@.len()
            &&& forall|k: int| 0 <= k < members@.len() ==> (#[trigger] it.local@[k]).0 == members@[k]
            &&& 1 <= it.width <= 0x4000_0000
            &&& 1 <= it.height <= 0x4000_0000
            &&& item_ok(groups@, it)
        },
{
    let no_anchors: Vec<RoomId> = Vec::new();
    let no_skeleton: Vec<Cell> = Vec::new();
    let single = members.len() == 1;
    let local = if single {
        let mut l: Vec<(usize, Cell)> = Vec::new();
        l.push((members[0], Cell { x: 0, y: 0 }));
        l
    } else {
        proof {
            assert forall|j: int| 0 <= j < members@.len() implies member_ok(groups@, #[trigger] members@[j], 0) by {
                assert(members@[j] < groups@.len());
            }
        }
        match merge_if_fits(groups, members, map, &no_anchors, &no_skeleton) {
            Some(l) => l,
            None => {
                return None;
            },
        }
    };
    // The members' cells in the merged frame, as integers, apart.
    proof {
        assert forall|a: int, b: int, p: int, q: int|
            0 <= a < members@.len() && 0 <= b < members@.len() && a != b && 0 <= p < cells_of(
                groups@[members@[a] as int].positions@,
            ).len() && 0 <= q < cells_of(groups@[members@[b] as int].positions@).len() implies ({
                let ca = #[trigger] cells_of(groups@[members@[a] as int].positions@)[p];
                let cb = #[trigger] cells_of(groups@[members@[b] as int].positions@)[q];
                (ca.x + local@[a].1.x, ca.y + local@[a].1.y) != (cb.x + local@[b].1.x, cb.y + local@[b].1.y)
            }) by {
            assert(!single);
            let r = merge_room(members@.len() as int);
            assert(!is_echo(members@[a]) && !is_echo(members@[b]));
            assert(member_cells(groups@, members@[a]) == cells_of(groups@[members@[a] as int].positions@));
            assert(member_cells(groups@, members@[b]) == cells_of(groups@[members@[b] as int].positions@));
            assert(cells_within(cells_of(groups@[members@[a] as int].positions@), r));
            assert(cells_within(cells_of(groups@[members@[b] as int].positions@), r));
            assert(shifted(member_cells(groups@, members@[a])[p], local@[a].1) != shifted(
                member_cells(groups@, members@[b])[q],
                local@[b].1,
            ));
        }
    }
    assert(forall|j: int| 0 <= j < members@.len() ==> (#[trigger] local@[j]).0 == members@[j] && within(local@[j].1, sheet_limit()));
    let mut lo_x: i64 = 0;
    let mut lo_y: i64 = 0;
    let mut hi_x: i64 = 0;
    let mut hi_y: i64 = 0;
    let mut any = false;
    let mut j: usize = 0;
    while j < local.len()
        invariant
            j <= local@.len(),
            local@.len() == members@.len(),
            forall|t: int| 0 <= t < members@.len() ==> (#[trigger] members@[t]) < groups@.len(),
            forall|t: int| 0 <= t < members@.len() ==> (#[trigger] local@[t]).0 == members@[t] && within(local@[t].1, sheet_limit()),
            -0x1_0000_0000 <= lo_x <= 0x1_0000_0000,
            -0x1_0000_0000 <= lo_y <= 0x1_0000_0000,
            -0x1_0000_0000 <= hi_x <= 0x1_0000_0000,
            -0x1_0000_0000 <= hi_y <= 0x1_0000_0000,
            any ==> lo_x <= hi_x && lo_y <= hi_y,
            forall|t: int|
                0 <= t < j && (#[trigger] groups@[members@[t] as int]).positions@.len() > 0 ==> any && lo_x <= min_x_of(
                    groups@[members@[t] as int].positions@,
                ) + local@[t].1.x && max_x_of(groups@[members@[t] as int].positions@) + local@[t].1.x <= hi_x && lo_y
                    <= min_y_of(groups@[members@[t] as int].positions@) + local@[t].1.y && max_y_of(
                    groups@[members@[t] as int].positions@,
                ) + local@[t].1.y <= hi_y,
        decreases local.len() - j,
    {
        let (m, off) = local[j];
        let b = groups[m].bounds();
        if groups[m].positions.len() > 0 {
            proof {
                lemma_in_bounds(groups@[m as int].positions@, 0);
            }
            let ax = b.min_x as i64 + off.x as i64;
            let ay = b.min_y as i64 + off.y as i64;
            let bx = b.max_x as i64 + off.x as i64;
            let by = b.max_y as i64 + off.y as i64;
            if !any || ax < lo_x {
                lo_x = ax;
            }
            if !any || ay < lo_y {
                lo_y = ay;
            }
            if !any || bx > hi_x {
                hi_x = bx;
            }
            if !any || by > hi_y {
                hi_y = by;
            }
            any = true;
        }
        j = j + 1;
    }
    let width = hi_x - lo_x + 1;
    let height = hi_y - lo_y + 1;
    if !(1 <= width && width <= 0x4000_0000 && 1 <= height && height <= 0x4000_0000) {
        return None;
    }
    let mut shifted_local: Vec<(usize, Cell)> = Vec::new();
    let mut j: usize = 0;
    while j < local.len()
        invariant
            j <= local@.len(),
            local@.len() == members@.len(),
            forall|t: int| 0 <= t < members@.len() ==> (#[trigger] local@[t]).0 == members@[t] && within(local@[t].1, sheet_limit()),
            -0x1_0000_0000 <= lo_x <= 0x1_0000_0000,
            -0x1_0000_0000 <= lo_y <= 0x1_0000_0000,
            shifted_local@.len() == j,
            forall|t: int|
                0 <= t < j ==> (#[trigger] shifted_local@[t]).0 == members@[t] && shifted_local@[t].1.x == local@[t].1.x
                    - lo_x && shifted_local@[t].1.y == local@[t].1.y - lo_y && within(shifted_local@[t].1, sheet_limit()),
        decreases local.len() - j,
    {
        let (m, off) = local[j];
        let x: i64 = off.x as i64 - lo_x;
        let y: i64 = off.y as i64 - lo_y;
        if !(-0x1000_0000 <= x && x <= 0x1000_0000 && -0x1000_0000 <= y && y <= 0x1000_0000) {
            return None;
        }
        shifted_local.push((m, Cell { x: x as i32, y: y as i32 }));
        j = j + 1;
    }
    // The doorway with the lowest room id, and where it sits outdoors.
    let mut door_room: Option<u32> = None;
    let mut j: usize = 0;
    while j < members.len()
        decreases members.len() - j,
    {
        let m = members[j];
        if m < classes.entrances.len() {
            let es = &classes.entrances[m];
            let mut q: usize = 0;
            while q < es.len()
                decreases es.len() - q,
            {
                let id = es[q].outdoor_room_id.0;
                door_room = match door_room {
                    None => Some(id),
                    Some(d) => if id < d { Some(id) } else { Some(d) },
                };
                q = q + 1;
            }
        }
        j = j + 1;
    }
    let (dy, dx): (i64, i64) = match door_room {
        Some(id) => match street_at.get(&id) {
            Some(cell) => (cell.y as i64, cell.x as i64),
            None => (i32::MAX as i64, i32::MAX as i64),
        },
        None => (i32::MAX as i64, i32::MAX as i64),
    };
    let tie_room: u32 = match door_room {
        Some(id) => id,
        None => u32::MAX,
    };
    let it = Item { local: shifted_local, width, height, key: (dy, dx, tie_room, members[0]) };
    proof {
        assert forall|k: int, p: int|
            0 <= k < it.local@.len() && 0 <= p < cells_of(groups@[it.local@[k].0 as int].positions@).len() implies {
            let c = #[trigger] item_cell(groups@, it, k, p);
            0 <= c.0 < it.width && 0 <= c.1 < it.height
        } by {
            let ps = groups@[members@[k] as int].positions@;
            lemma_in_bounds(ps, p);
            assert(cells_of(ps)[p] == ps[p].1);
            assert(ps.len() > 0);
        }
        assert forall|a: int, b: int, p: int, q: int|
            0 <= a < it.local@.len() && 0 <= b < it.local@.len() && a != b && 0 <= p < cells_of(
                groups@[it.local@[a].0 as int].positions@,
            ).len() && 0 <= q < cells_of(groups@[it.local@[b].0 as int].positions@).len() implies #[trigger] item_cell(
            groups@,
            it,
            a,
            p,
        ) != #[trigger] item_cell(groups@, it, b, q) by {
            let ca = cells_of(groups@[members@[a] as int].positions@)[p];
            let cb = cells_of(groups@[members@[b] as int].positions@)[q];
            assert((ca.x + local@[a].1.x, ca.y + local@[a].1.y) != (cb.x + local@[b].1.x, cb.y + local@[b].1.y));
        }
        assert forall|a: int, b: int|
            0 <= a < it.local@.len() && 0 <= b < it.local@.len() && a != b implies (#[trigger] it.local@[a]).0 != (
            #[trigger] it.local@[b]).0 by {
            if a < b {
                assert(members@[a] < members@[b]);
            } else {
                assert(members@[b] < members@[a]);
            }
        }
    }
    Some(it)
}

} // verus!
