//! Cluster packing, outdoor half: the components placed relative to each
//! other on one shared sheet. Connector edges between components prove
//! that their rooms are adjacent; each component lands beside the placed
//! neighbour it is most likely to touch, where its connector lines are
//! short and cross little, and whatever finds no room goes to a strip.

use vstd::prelude::*;
use vstd::hash_map::HashMapWithView;

use crate::direction::{DirectionMap, dir_at, key_of, pair_key};
use crate::geometry::{
    max, min, Bounds, Cell, PackMethod, chebyshev, chebyshev_of, cross_fits, crosses, ring, ring_cells, ring_fits, segments_cross,
};
use crate::group::{Group, max_x_of, max_y_of, min_x_of, min_y_of};
use crate::model::{Room, RoomId, RoomMap, room_of};
use crate::positioner::{cell_key, cells_of, find_position, finds_positions, key_of_cell, lemma_cell_key, position_index};

verus! {

/// Cells between strip-placed groups.
pub const GROUP_PADDING: i32 = 3;

/// How far the search for a free offset spirals out.
pub const SEARCH_RADIUS: i32 = 30;

/// Committed connector lines are at most this long.
pub const CONNECTOR_COMMIT_CAP: i32 = 30;

/// Committed lines inside a group are at most this long.
pub const DIRECTIONAL_COMMIT_CAP: i32 = 8;

/// What a connector line crossing a committed line costs.
pub const CROSSING_PENALTY: i64 = 1000;

/// What each cell landing inside another group's box costs.
pub const COURTYARD_PENALTY: i64 = 4;

/// How many contacts of one excluded component are paired up.
pub const BRIDGED_CONTACT_CAP: usize = 10;

/// How far from zero any cell of the sheet may lie.
pub open spec fn sheet_limit() -> int {
    0x1000_0000
}

/// `c` moved by `off`.
pub open spec fn shifted(c: Cell, off: Cell) -> Cell {
    Cell { x: (c.x + off.x) as i32, y: (c.y + off.y) as i32 }
}

/// Every cell lies within `b` of zero.
pub open spec fn cells_within(cells: Seq<Cell>, b: int) -> bool {
    forall|k: int| 0 <= k < cells.len() ==> -b <= (#[trigger] cells[k]).x <= b && -b <= cells[k].y <= b
}

/// The group's cells, moved by `off`, land on no occupied cell.
pub open spec fn fits_at(cells: Seq<Cell>, off: Cell, occupied: Seq<Cell>) -> bool {
    forall|k: int| 0 <= k < cells.len() ==> !occupied.contains(shifted(#[trigger] cells[k], off))
}

/// The occupied cells of the shared sheet, with a lookup by cell.
pub struct Sheet {
    list: Vec<Cell>,
    occ: HashMapWithView<u64, bool>,
}

impl Sheet {
    /// The occupied cells, in the order they were taken.
    pub closed spec fn cells(&self) -> Seq<Cell> {
        self.list@
    }

    /// The occupied cells.
    pub fn occupied(&self) -> (r: &Vec<Cell>)
        ensures
            r@ == self.cells(),
    {
        &self.list
    }

    /// The lookup finds exactly the occupied cells.
    pub closed spec fn wf(&self) -> bool {
        forall|key: u64| #[trigger] self.occ@.contains_key(key) <==> exists|j: int|
            0 <= j < self.list@.len() && cell_key(self.list@[j]) == key
    }

    /// An empty sheet.
    pub fn new() -> (s: Sheet)
        ensures
            s.wf(),
            s.cells().len() == 0,
    {
        Sheet { list: Vec::new(), occ: HashMapWithView::new() }
    }

    /// Whether `c` is occupied.
    pub fn taken(&self, c: Cell) -> (b: bool)
        requires
            self.wf(),
        ensures
            b == self.cells().contains(c),
    {
        let key = key_of_cell(c);
        let b = self.occ.contains_key(&key);
        proof {
            if b {
                let j = choose|j: int| 0 <= j < self.list@.len() && cell_key(self.list@[j]) == key;
                lemma_cell_key(self.list@[j], c);
            }
            if self.list@.contains(c) {
                let j = choose|j: int| 0 <= j < self.list@.len() && self.list@[j] == c;
                assert(cell_key(self.list@[j]) == key);
            }
        }
        b
    }

    /// Occupies `c`.
    pub fn take(&mut self, c: Cell)
        requires
            old(self).wf(),
        ensures
            final(self).wf(),
            final(self).cells() == old(self).cells().push(c),
    {
        let ghost before = self.list@;
        self.list.push(c);
        let key = key_of_cell(c);
        self.occ.insert(key, true);
        proof {
            assert forall|k: u64| #[trigger] self.occ@.contains_key(k) <==> exists|j: int|
                0 <= j < self.list@.len() && cell_key(self.list@[j]) == k by {
                if k == key {
                    assert(cell_key(self.list@[before.len() as int]) == k);
                }
                if k != key && (exists|j: int| 0 <= j < self.list@.len() && cell_key(self.list@[j]) == k) {
                    let j = choose|j: int| 0 <= j < self.list@.len() && cell_key(self.list@[j]) == k;
                    assert(j < before.len());
                    assert(cell_key(before[j]) == k);
                }
                if k != key && self.occ@.contains_key(k) {
                    let j = choose|j: int| 0 <= j < before.len() && cell_key(before[j]) == k;
                    assert(cell_key(self.list@[j]) == k);
                }
            }
        }
    }
}

/// Whether the group's cells, moved by `off`, all land on free cells.
pub fn fits(cells: &Vec<Cell>, off: Cell, sheet: &Sheet) -> (b: bool)
    requires
        sheet.wf(),
        cells_within(cells@, sheet_limit()),
        -sheet_limit() <= off.x <= sheet_limit(),
        -sheet_limit() <= off.y <= sheet_limit(),
    ensures
        b == fits_at(cells@, off, sheet.cells()),
{
    let mut k: usize = 0;
    while k < cells.len()
        invariant
            k <= cells@.len(),
            sheet.wf(),
            cells_within(cells@, sheet_limit()),
            -sheet_limit() <= off.x <= sheet_limit(),
            -sheet_limit() <= off.y <= sheet_limit(),
            forall|q: int| 0 <= q < k ==> !sheet.cells().contains(shifted(#[trigger] cells@[q], off)),
        decreases cells.len() - k,
    {
        let c = cells[k];
        assert(-sheet_limit() <= c.x <= sheet_limit() && -sheet_limit() <= c.y <= sheet_limit());
        let moved = Cell { x: c.x + off.x, y: c.y + off.y };
        if sheet.taken(moved) {
            return false;
        }
        k = k + 1;
    }
    true
}

/// The offsets the search tries, in order: the proposed one, then ring by
/// ring out to `r`.
pub open spec fn search_cells(p: Cell, r: int) -> Seq<Cell>
    decreases r,
{
    if r <= 0 {
        seq![p]
    } else {
        search_cells(p, r - 1) + ring_cells(p, r)
    }
}

/// The first of the candidate offsets at which the group fits.
pub open spec fn first_fit(cands: Seq<Cell>, cells: Seq<Cell>, occupied: Seq<Cell>) -> Option<Cell>
    decreases cands.len(),
{
    if cands.len() == 0 {
        None
    } else {
        match first_fit(cands.drop_last(), cells, occupied) {
            Some(c) => Some(c),
            None => if fits_at(cells, cands.last(), occupied) {
                Some(cands.last())
            } else {
                None
            },
        }
    }
}

/// A fit among the first candidates stays the first fit.
proof fn lemma_first_fit_append(a: Seq<Cell>, b: Seq<Cell>, cells: Seq<Cell>, occupied: Seq<Cell>)
    ensures
        first_fit(a + b, cells, occupied) == match first_fit(a, cells, occupied) {
            Some(c) => Some(c),
            None => first_fit(b, cells, occupied),
        },
    decreases b.len(),
{
    if b.len() == 0 {
        assert(a + b =~= a);
    } else {
        assert((a + b).drop_last() =~= a + b.drop_last());
        assert((a + b).last() == b.last());
        lemma_first_fit_append(a, b.drop_last(), cells, occupied);
    }
}

/// The cells of ring `r` lie within `r` of the centre.
proof fn lemma_ring_near(p: Cell, r: int)
    requires
        0 <= r,
        ring_fits(p, r),
    ensures
        forall|k: int| 0 <= k < ring_cells(p, r).len() ==> p.x - r <= (#[trigger] ring_cells(p, r)[k]).x <= p.x + r
            && p.y - r <= ring_cells(p, r)[k].y <= p.y + r,
{
    lemma_ring_upto_near(p, r, (2 * r + 1) as nat);
}

proof fn lemma_ring_upto_near(p: Cell, r: int, m: nat)
    requires
        0 <= r,
        ring_fits(p, r),
        m <= 2 * r + 1,
    ensures
        forall|k: int| 0 <= k < crate::geometry::ring_upto(p, r, m).len() ==> p.x - r <= (
        #[trigger] crate::geometry::ring_upto(p, r, m)[k]).x <= p.x + r && p.y - r
            <= crate::geometry::ring_upto(p, r, m)[k].y <= p.y + r,
    decreases m,
{
    if m > 0 {
        lemma_ring_upto_near(p, r, (m - 1) as nat);
        let prev = crate::geometry::ring_upto(p, r, (m - 1) as nat);
        let col = crate::geometry::ring_column(p, r, -r + m - 1);
        assert(crate::geometry::ring_upto(p, r, m) == prev + col);
        assert forall|k: int| 0 <= k < (prev + col).len() implies p.x - r <= (#[trigger] (prev + col)[k]).x <= p.x
            + r && p.y - r <= (prev + col)[k].y <= p.y + r by {
            if k >= prev.len() {
                assert((prev + col)[k] == col[k - prev.len()]);
            }
        }
    }
}

/// The nearest offset, spiralling out from `proposed` ring by ring, at
/// which the group's cells all land on free cells.
pub fn find_free_offset(cells: &Vec<Cell>, proposed: Cell, sheet: &Sheet) -> (r: Option<Cell>)
    requires
        sheet.wf(),
        cells_within(cells@, sheet_limit()),
        -sheet_limit() + 64 <= proposed.x <= sheet_limit() - 64,
        -sheet_limit() + 64 <= proposed.y <= sheet_limit() - 64,
    ensures
        r == first_fit(search_cells(proposed, SEARCH_RADIUS as int), cells@, sheet.cells()),
        r matches Some(c) ==> fits_at(cells@, c, sheet.cells()) && chebyshev_of(c, proposed) <= SEARCH_RADIUS,
{
    proof {
        lemma_first_fit_near(proposed, SEARCH_RADIUS as int, cells@, sheet.cells());
    }
    if fits(cells, proposed, sheet) {
        proof {
            lemma_first_fit_prefix_some(proposed, SEARCH_RADIUS as int, cells@, sheet.cells());
        }
        return Some(proposed);
    }
    assert(first_fit(search_cells(proposed, 0), cells@, sheet.cells()) is None) by {
        assert(search_cells(proposed, 0).drop_last() =~= Seq::<Cell>::empty());
        assert(search_cells(proposed, 0).last() == proposed);
        assert(first_fit(Seq::<Cell>::empty(), cells@, sheet.cells()) is None);
    }
    let mut r: i32 = 1;
    while r <= SEARCH_RADIUS
        invariant
            1 <= r <= SEARCH_RADIUS + 1,
            sheet.wf(),
            cells_within(cells@, sheet_limit()),
            -sheet_limit() + 64 <= proposed.x <= sheet_limit() - 64,
            -sheet_limit() + 64 <= proposed.y <= sheet_limit() - 64,
            first_fit(search_cells(proposed, r - 1), cells@, sheet.cells()) is None,
        decreases SEARCH_RADIUS + 1 - r,
    {
        let ring_at = ring(proposed, r);
        proof {
            lemma_ring_near(proposed, r as int);
        }
        let mut k: usize = 0;
        while k < ring_at.len()
            invariant
                1 <= r <= SEARCH_RADIUS,
                sheet.wf(),
                cells_within(cells@, sheet_limit()),
                -sheet_limit() + 64 <= proposed.x <= sheet_limit() - 64,
                -sheet_limit() + 64 <= proposed.y <= sheet_limit() - 64,
                ring_at@ == ring_cells(proposed, r as int),
                forall|q: int| 0 <= q < ring_at@.len() ==> proposed.x - r <= (#[trigger] ring_at@[q]).x <= proposed.x + r
                    && proposed.y - r <= ring_at@[q].y <= proposed.y + r,
                k <= ring_at@.len(),
                first_fit(search_cells(proposed, r - 1) + ring_at@.take(k as int), cells@, sheet.cells()) is None,
            decreases ring_at.len() - k,
        {
            let cand = ring_at[k];
            let ghost pre = search_cells(proposed, r - 1) + ring_at@.take(k as int);
            assert(search_cells(proposed, r - 1) + ring_at@.take(k + 1) =~= pre.push(cand));
            assert((pre.push(cand)).drop_last() =~= pre);
            if fits(cells, cand, sheet) {
                proof {
                    let whole = search_cells(proposed, r as int);
                    assert(whole =~= pre.push(cand) + ring_at@.skip(k + 1));
                    lemma_first_fit_append(pre.push(cand), ring_at@.skip(k + 1), cells@, sheet.cells());
                    lemma_first_fit_prefix_some_from(proposed, r as int, SEARCH_RADIUS as int, cells@, sheet.cells());
                }
                return Some(cand);
            }
            k = k + 1;
        }
        assert(ring_at@.take(k as int) =~= ring_at@);
        r = r + 1;
    }
    None
}

/// A first fit is one of the candidates, and fits.
proof fn lemma_first_fit_in(cands: Seq<Cell>, cells: Seq<Cell>, occupied: Seq<Cell>)
    ensures
        first_fit(cands, cells, occupied) matches Some(c) ==> cands.contains(c) && fits_at(cells, c, occupied),
    decreases cands.len(),
{
    if cands.len() > 0 {
        lemma_first_fit_in(cands.drop_last(), cells, occupied);
        if let Some(c) = first_fit(cands.drop_last(), cells, occupied) {
            let j = choose|j: int| 0 <= j < cands.drop_last().len() && cands.drop_last()[j] == c;
            assert(cands[j] == c);
        } else if first_fit(cands, cells, occupied) is Some {
            assert(cands[cands.len() - 1] == cands.last());
        }
    }
}

/// Every offset the search tries lies within `r` of the proposed one.
proof fn lemma_search_near(p: Cell, r: int)
    requires
        0 <= r,
        ring_fits(p, r),
    ensures
        forall|k: int| 0 <= k < search_cells(p, r).len() ==> chebyshev_of(#[trigger] search_cells(p, r)[k], p) <= r,
    decreases r,
{
    if r > 0 {
        lemma_search_near(p, r - 1);
        lemma_ring_near(p, r);
        let a = search_cells(p, r - 1);
        let b = ring_cells(p, r);
        assert forall|k: int| 0 <= k < (a + b).len() implies chebyshev_of(#[trigger] (a + b)[k], p) <= r by {
            if k < a.len() {
                assert((a + b)[k] == a[k]);
            } else {
                assert((a + b)[k] == b[k - a.len()]);
            }
        }
    }
}

/// The search's first fit lies within `r` of the proposed offset.
pub proof fn lemma_first_fit_near(p: Cell, r: int, cells: Seq<Cell>, occupied: Seq<Cell>)
    requires
        0 <= r,
        ring_fits(p, r),
    ensures
        first_fit(search_cells(p, r), cells, occupied) matches Some(c) ==> fits_at(cells, c, occupied)
            && chebyshev_of(c, p) <= r,
{
    lemma_first_fit_in(search_cells(p, r), cells, occupied);
    lemma_search_near(p, r);
}

/// With no first fit among the candidates, none of them fits.
proof fn lemma_first_fit_none(cands: Seq<Cell>, cells: Seq<Cell>, occupied: Seq<Cell>)
    requires
        first_fit(cands, cells, occupied) is None,
    ensures
        forall|q: int| 0 <= q < cands.len() ==> !fits_at(cells, #[trigger] cands[q], occupied),
    decreases cands.len(),
{
    if cands.len() > 0 {
        lemma_first_fit_none(cands.drop_last(), cells, occupied);
        assert forall|q: int| 0 <= q < cands.len() implies !fits_at(cells, #[trigger] cands[q], occupied) by {
            if q < cands.len() - 1 {
                assert(cands[q] == cands.drop_last()[q]);
            }
        }
    }
}

/// Ring `f` is the first whose search fits when the ring before it does
/// not.
proof fn lemma_first_ring(p: Cell, cells: Seq<Cell>, occupied: Seq<Cell>, g: int, f: int)
    requires
        0 <= g <= f <= SEARCH_RADIUS,
        first_fit(search_cells(p, f), cells, occupied) is Some,
        f == 0 || first_fit(search_cells(p, f - 1), cells, occupied) is None,
    ensures
        first_fit_ring(p, cells, occupied, g, SEARCH_RADIUS as int) == f,
    decreases f - g,
{
    if g < f {
        if first_fit(search_cells(p, g), cells, occupied) is Some {
            lemma_first_fit_prefix_some_from(p, g, f - 1, cells, occupied);
        }
        lemma_first_ring(p, cells, occupied, g + 1, f);
    }
}

/// Once a fit is found among the first rings, later rings do not change
/// it.
proof fn lemma_first_fit_prefix_some_from(p: Cell, r: int, big: int, cells: Seq<Cell>, occupied: Seq<Cell>)
    requires
        0 <= r <= big,
        first_fit(search_cells(p, r), cells, occupied) is Some,
    ensures
        first_fit(search_cells(p, big), cells, occupied) == first_fit(search_cells(p, r), cells, occupied),
    decreases big - r,
{
    if r < big {
        lemma_first_fit_prefix_some_from(p, r, big - 1, cells, occupied);
        lemma_first_fit_append(search_cells(p, big - 1), ring_cells(p, big), cells, occupied);
    }
}

proof fn lemma_first_fit_prefix_some(p: Cell, big: int, cells: Seq<Cell>, occupied: Seq<Cell>)
    requires
        0 <= big,
        fits_at(cells, p, occupied),
    ensures
        first_fit(search_cells(p, big), cells, occupied) == Some(p),
{
    assert(search_cells(p, 0).drop_last() =~= Seq::<Cell>::empty());
    assert(search_cells(p, 0).last() == p);
    assert(first_fit(Seq::<Cell>::empty(), cells, occupied) is None);
    assert(first_fit(search_cells(p, 0), cells, occupied) == Some(p));
    lemma_first_fit_prefix_some_from(p, 0, big, cells, occupied);
}

// ---------------------------------------------------------------------
// Connector edges
// ---------------------------------------------------------------------

/// The list holds group `g`.
pub open spec fn listed(list: Seq<usize>, g: int) -> bool {
    exists|i: int| 0 <= i < list.len() && list[i] as int == g
}

/// An exit between rooms of two different components: it states no
/// bearing, but proves the two rooms adjacent. `at` and `other_at` are
/// the rooms' places in their components.
#[derive(Debug, Clone, Copy)]
pub struct Edge {
    pub other_group: usize,
    pub room_id: RoomId,
    pub other_room_id: RoomId,
    pub uid_delta: u64,
    pub at: usize,
    pub other_at: usize,
}

/// Each component's positions stand beside its rooms, in order.
pub open spec fn aligned(groups: Seq<Group>) -> bool {
    forall|g: int|
        0 <= g < groups.len() ==> (#[trigger] groups[g]).positions@.len() == groups[g].room_ids@.len() && forall|k: int|
            0 <= k < groups[g].positions@.len() ==> (#[trigger] groups[g].positions@[k]).0 == groups[g].room_ids@[k]
}

/// The edge leaves room `at` of component `g` for room `other_at` of
/// another component.
pub open spec fn edge_ok(e: Edge, g: int, groups: Seq<Group>) -> bool {
    &&& 0 <= g < groups.len()
    &&& e.other_group < groups.len()
    &&& e.other_group != g
    &&& e.at < groups[g].room_ids@.len()
    &&& groups[g].room_ids@[e.at as int] == e.room_id
    &&& e.other_at < groups[e.other_group as int].room_ids@.len()
    &&& groups[e.other_group as int].room_ids@[e.other_at as int] == e.other_room_id
}

/// How far apart two rooms' first uids are; the largest value when
/// either has none.
pub open spec fn uid_gap(a: Option<Room>, b: Option<Room>) -> u64 {
    match (a, b) {
        (Some(ra), Some(rb)) => if ra.uid@.len() > 0 && rb.uid@.len() > 0 {
            let d = ra.uid@[0].0 - rb.uid@[0].0;
            (if d < 0 {
                -d
            } else {
                d
            }) as u64
        } else {
            u64::MAX
        },
        _ => u64::MAX,
    }
}

pub fn uid_delta(a: Option<&Room>, b: Option<&Room>) -> (d: u64)
    ensures
        d == uid_gap(
            match a {
                Some(r) => Some(*r),
                None => None,
            },
            match b {
                Some(r) => Some(*r),
                None => None,
            },
        ),
{
    match (a, b) {
        (Some(ra), Some(rb)) => {
            if ra.uid.len() > 0 && rb.uid.len() > 0 {
                let d = ra.uid[0].0 as i128 - rb.uid[0].0 as i128;
                let m = if d < 0 {
                    -d
                } else {
                    d
                };
                m as u64
            } else {
                u64::MAX
            }
        },
        _ => u64::MAX,
    }
}

/// The last place below `k` where `ids` holds the room with id `key`.
pub open spec fn last_index(ids: Seq<RoomId>, key: u32, k: int) -> Option<int>
    decreases k,
{
    if k <= 0 {
        None
    } else if ids[k - 1].0 == key {
        Some(k - 1)
    } else {
        last_index(ids, key, k - 1)
    }
}

/// The group, among the first `i` listed, and the place in it, that the
/// index records for room id `key`: the last listed group holding it, at
/// its last place there.
pub open spec fn home_upto(groups: Seq<Group>, list: Seq<usize>, i: int, key: u32) -> Option<(usize, usize)>
    decreases i,
{
    if i <= 0 {
        None
    } else {
        let g = list[i - 1];
        match last_index(groups[g as int].room_ids@, key, groups[g as int].room_ids@.len() as int) {
            Some(k) => Some((g, k as usize)),
            None => home_upto(groups, list, i - 1, key),
        }
    }
}

/// Room id to its group and place, over the listed groups.
pub open spec fn home_map(groups: Seq<Group>, list: Seq<usize>) -> Map<u32, (usize, usize)> {
    Map::new(
        |key: u32| home_upto(groups, list, list.len() as int, key) is Some,
        |key: u32| home_upto(groups, list, list.len() as int, key).unwrap(),
    )
}

/// Which component, and which place in it, each room of the listed
/// components has.
fn component_index(groups: &Vec<Group>, list: &Vec<usize>) -> (m: HashMapWithView<u32, (usize, usize)>)
    requires
        forall|i: int| 0 <= i < list@.len() ==> #[trigger] list@[i] < groups@.len(),
    ensures
        forall|key: u32|
            #[trigger] m@.contains_key(key) ==> m@[key].0 < groups@.len() && list@.contains(m@[key].0) && m@[key].1
                < groups@[m@[key].0 as int].room_ids@.len() && groups@[m@[key].0 as int].room_ids@[m@[key].1 as int].0
                == key,
        m@ == home_map(groups@, list@),
{
    let mut m: HashMapWithView<u32, (usize, usize)> = HashMapWithView::new();
    let mut i: usize = 0;
    while i < list.len()
        invariant
            i <= list@.len(),
            forall|q: int| 0 <= q < list@.len() ==> #[trigger] list@[q] < groups@.len(),
            forall|key: u32|
                #[trigger] m@.contains_key(key) ==> m@[key].0 < groups@.len() && list@.contains(m@[key].0) && m@[key].1
                    < groups@[m@[key].0 as int].room_ids@.len() && groups@[m@[key].0 as int].room_ids@[m@[key].1 as int].0
                    == key,
            forall|key: u32|
                #[trigger] m@.contains_key(key) == (home_upto(groups@, list@, i as int, key) is Some) && (m@.contains_key(key)
                    ==> m@[key] == home_upto(groups@, list@, i as int, key).unwrap()),
        decreases list.len() - i,
    {
        let g = list[i];
        assert(list@.contains(g));
        let ids = &groups[g].room_ids;
        let mut k: usize = 0;
        while k < ids.len()
            invariant
                k <= ids@.len(),
                g < groups@.len(),
                i < list@.len(),
                g == list@[i as int],
                list@.contains(g),
                *ids == groups@[g as int].room_ids,
                forall|key: u32|
                    #[trigger] m@.contains_key(key) ==> m@[key].0 < groups@.len() && list@.contains(m@[key].0) && m@[key].1
                        < groups@[m@[key].0 as int].room_ids@.len()
                        && groups@[m@[key].0 as int].room_ids@[m@[key].1 as int].0 == key,
                forall|key: u32|
                    #[trigger] m@.contains_key(key) == (last_index(ids@, key, k as int) is Some || home_upto(
                        groups@,
                        list@,
                        i as int,
                        key,
                    ) is Some) && (m@.contains_key(key) ==> m@[key] == match last_index(ids@, key, k as int) {
                        Some(q) => (g, q as usize),
                        None => home_upto(groups@, list@, i as int, key).unwrap(),
                    }),
            decreases ids.len() - k,
        {
            m.insert(ids[k].0, (g, k));
            k = k + 1;
        }
        proof {
            assert forall|key: u32| #[trigger] m@.contains_key(key) == (home_upto(groups@, list@, i + 1, key) is Some)
                && (m@.contains_key(key) ==> m@[key] == home_upto(groups@, list@, i + 1, key).unwrap()) by {
                assert(ids@.len() == groups@[g as int].room_ids@.len());
            }
        }
        i = i + 1;
    }
    assert(m@ =~= home_map(groups@, list@));
    m
}

/// Pushing a sound edge between packed groups onto one group's list
/// keeps every list sound.
proof fn lemma_pushed_edge(
    before: Seq<Vec<Edge>>,
    after: Seq<Vec<Edge>>,
    idx: int,
    edge: Edge,
    groups: Seq<Group>,
    packed: Seq<usize>,
)
    requires
        0 <= idx < before.len(),
        after.len() == before.len(),
        after[idx]@ == before[idx]@.push(edge),
        forall|q: int| 0 <= q < before.len() && q != idx ==> after[q] == before[q],
        edge_ok(edge, idx, groups),
        listed(packed, idx),
        listed(packed, edge.other_group as int),
        forall|q: int, j: int|
            0 <= q < before.len() && 0 <= j < before[q]@.len() ==> edge_ok(#[trigger] before[q]@[j], q, groups)
                && listed(packed, q) && listed(packed, before[q]@[j].other_group as int),
    ensures
        forall|q: int, j: int|
            0 <= q < after.len() && 0 <= j < after[q]@.len() ==> edge_ok(#[trigger] after[q]@[j], q, groups)
                && listed(packed, q) && listed(packed, after[q]@[j].other_group as int),
{
    assert forall|q: int, j: int| 0 <= q < after.len() && 0 <= j < after[q]@.len() implies edge_ok(
        #[trigger] after[q]@[j],
        q,
        groups,
    ) && listed(packed, q) && listed(packed, after[q]@[j].other_group as int) by {
        if q == idx && j == before[q]@.len() {
            assert(after[q]@[j] == edge);
        } else if q == idx {
            assert(after[q]@[j] == before[q]@[j]);
        } else {
            assert(after[q] == before[q]);
        }
    }
}

/// The edges of one room's exits, `exits`, from place `k` of group `g`:
/// one for each exit to a room the index files under another group.
pub open spec fn exit_edges(
    exits: Seq<crate::model::Exit>,
    g: usize,
    k: usize,
    room: Room,
    index: Map<u32, (usize, usize)>,
    map: Seq<Room>,
) -> Seq<Edge>
    decreases exits.len(),
{
    if exits.len() == 0 {
        Seq::empty()
    } else {
        let r = exit_edges(exits.drop_last(), g, k, room, index, map);
        let t = exits.last().to;
        if index.contains_key(t.0) && index[t.0].0 != g {
            r.push(
                Edge {
                    other_group: index[t.0].0,
                    room_id: room.id,
                    other_room_id: t,
                    uid_delta: uid_gap(Some(room), room_of(map, t)),
                    at: k,
                    other_at: index[t.0].1,
                },
            )
        } else {
            r
        }
    }
}

/// The edges of the first `k` rooms of group `g`, room by room.
pub open spec fn room_edges(groups: Seq<Group>, g: usize, k: int, index: Map<u32, (usize, usize)>, map: Seq<Room>) -> Seq<
    Edge,
>
    decreases k,
{
    if k <= 0 {
        Seq::empty()
    } else {
        room_edges(groups, g, k - 1, index, map) + match room_of(map, groups[g as int].room_ids@[k - 1]) {
            Some(room) => exit_edges(room.exits@, g, (k - 1) as usize, room, index, map),
            None => Seq::empty(),
        }
    }
}

/// Group `g`'s connector edges after the first `i` packed entries: its
/// rooms' edges once for each time it is listed.
pub open spec fn packed_edges(
    groups: Seq<Group>,
    packed: Seq<usize>,
    g: usize,
    i: int,
    index: Map<u32, (usize, usize)>,
    map: Seq<Room>,
) -> Seq<Edge>
    decreases i,
{
    if i <= 0 {
        Seq::empty()
    } else {
        packed_edges(groups, packed, g, i - 1, index, map) + if packed[i - 1] == g {
            room_edges(groups, g, groups[g as int].room_ids@.len() as int, index, map)
        } else {
            Seq::empty()
        }
    }
}

/// The connector edges of each packed component: every exit from one of
/// its rooms to a room of another packed component.
#[verifier::spinoff_prover]
#[verifier::rlimit(40)]
pub fn connector_edges(groups: &Vec<Group>, packed: &Vec<usize>, map: &RoomMap) -> (edges: Vec<Vec<Edge>>)
    requires
        forall|i: int| 0 <= i < packed@.len() ==> #[trigger] packed@[i] < groups@.len(),
    ensures
        edges@.len() == groups@.len(),
        forall|g: int, j: int|
            0 <= g < edges@.len() && 0 <= j < edges@[g]@.len() ==> edge_ok(#[trigger] edges@[g]@[j], g, groups@)
                && listed(packed@, g) && listed(packed@, edges@[g]@[j].other_group as int),
        forall|g: int|
            0 <= g < edges@.len() ==> (#[trigger] edges@[g])@ == packed_edges(
                groups@,
                packed@,
                g as usize,
                packed@.len() as int,
                home_map(groups@, packed@),
                map@,
            ),
{
    let m = component_index(groups, packed);
    let ghost hm = m@;
    let mut edges: Vec<Vec<Edge>> = Vec::new();
    let mut g: usize = 0;
    while g < groups.len()
        invariant
            g <= groups@.len(),
            edges@.len() == g,
            forall|q: int| 0 <= q < g ==> (#[trigger] edges@[q])@.len() == 0,
        decreases groups.len() - g,
    {
        edges.push(Vec::new());
        g = g + 1;
    }
    let mut i: usize = 0;
    while i < packed.len()
        invariant
            i <= packed@.len(),
            hm == m@,
            hm == home_map(groups@, packed@),
            forall|q: int| 0 <= q < packed@.len() ==> #[trigger] packed@[q] < groups@.len(),
            forall|key: u32|
                #[trigger] m@.contains_key(key) ==> m@[key].0 < groups@.len() && packed@.contains(m@[key].0) && m@[key].1
                    < groups@[m@[key].0 as int].room_ids@.len() && groups@[m@[key].0 as int].room_ids@[m@[key].1 as int].0
                    == key,
            edges@.len() == groups@.len(),
            forall|q: int, j: int|
                0 <= q < edges@.len() && 0 <= j < edges@[q]@.len() ==> edge_ok(#[trigger] edges@[q]@[j], q, groups@)
                    && listed(packed@, q) && listed(packed@, edges@[q]@[j].other_group as int),
            forall|q: int|
                0 <= q < edges@.len() ==> (#[trigger] edges@[q])@ == packed_edges(groups@, packed@, q as usize, i as int, hm, map@),
        decreases packed.len() - i,
    {
        let idx = packed[i];
        assert(packed@.contains(idx));
        let ghost base = edges@[idx as int]@;
        let mut k: usize = 0;
        while k < groups[idx].room_ids.len()
            invariant
                k <= groups@[idx as int].room_ids@.len(),
                idx < groups@.len(),
                i < packed@.len(),
                packed@[i as int] == idx,
                packed@.contains(idx),
                hm == m@,
                forall|key: u32|
                    #[trigger] m@.contains_key(key) ==> m@[key].0 < groups@.len() && packed@.contains(m@[key].0)
                        && m@[key].1 < groups@[m@[key].0 as int].room_ids@.len()
                        && groups@[m@[key].0 as int].room_ids@[m@[key].1 as int].0 == key,
                edges@.len() == groups@.len(),
                forall|q: int, j: int|
                    0 <= q < edges@.len() && 0 <= j < edges@[q]@.len() ==> edge_ok(#[trigger] edges@[q]@[j], q, groups@)
                        && listed(packed@, q) && listed(packed@, edges@[q]@[j].other_group as int),
                base == packed_edges(groups@, packed@, idx, i as int, hm, map@),
                edges@[idx as int]@ == base + room_edges(groups@, idx, k as int, hm, map@),
                forall|q: int|
                    0 <= q < edges@.len() && q != idx ==> (#[trigger] edges@[q])@ == packed_edges(
                        groups@,
                        packed@,
                        q as usize,
                        i as int,
                        hm,
                        map@,
                    ),
            decreases groups@[idx as int].room_ids@.len() - k,
        {
            let room_id = groups[idx].room_ids[k];
            let ghost before_room = edges@[idx as int]@;
            if let Some(room) = map.room(room_id) {
                assert(room.id == room_id) by {
                    crate::model::lemma_room_of_id(map@, room_id);
                }
                let mut e: usize = 0;
                while e < room.exits.len()
                    invariant
                        e <= room.exits@.len(),
                        k < groups@[idx as int].room_ids@.len(),
                        room_id == groups@[idx as int].room_ids@[k as int],
                        room.id == room_id,
                        idx < groups@.len(),
                        i < packed@.len(),
                        packed@[i as int] == idx,
                        packed@.contains(idx),
                        hm == m@,
                        forall|key: u32|
                            #[trigger] m@.contains_key(key) ==> m@[key].0 < groups@.len() && packed@.contains(m@[key].0)
                                && m@[key].1 < groups@[m@[key].0 as int].room_ids@.len()
                                && groups@[m@[key].0 as int].room_ids@[m@[key].1 as int].0 == key,
                        edges@.len() == groups@.len(),
                        forall|q: int, j: int|
                            0 <= q < edges@.len() && 0 <= j < edges@[q]@.len() ==> edge_ok(
                                #[trigger] edges@[q]@[j],
                                q,
                                groups@,
                            ) && listed(packed@, q) && listed(packed@, edges@[q]@[j].other_group as int),
                        edges@[idx as int]@ == before_room + exit_edges(room.exits@.take(e as int), idx, k, *room, hm, map@),
                        forall|q: int|
                            0 <= q < edges@.len() && q != idx ==> (#[trigger] edges@[q])@ == packed_edges(
                                groups@,
                                packed@,
                                q as usize,
                                i as int,
                                hm,
                                map@,
                            ),
                    decreases room.exits@.len() - e,
                {
                    let target = room.exits[e].to;
                    proof {
                        assert(room.exits@.take(e + 1).drop_last() =~= room.exits@.take(e as int));
                        assert(room.exits@.take(e + 1).last() == room.exits@[e as int]);
                    }
                    e = e + 1;
                    if let Some(pair) = m.get(&target.0) {
                        let (other, other_at) = *pair;
                        if other != idx {
                            let delta = uid_delta(Some(room), map.room(target));
                            let edge = Edge {
                                other_group: other,
                                room_id,
                                other_room_id: target,
                                uid_delta: delta,
                                at: k,
                                other_at,
                            };
                            assert(groups@[other as int].room_ids@[other_at as int].0 == target.0);
                            assert(groups@[other as int].room_ids@[other_at as int] == target);
                            let ghost before = edges@;
                            edges[idx].push(edge);
                            proof {
                                assert(edges@[idx as int]@ =~= before_room + exit_edges(
                                    room.exits@.take(e as int),
                                    idx,
                                    k,
                                    *room,
                                    hm,
                                    map@,
                                ));
                                assert forall|q: int| 0 <= q < edges@.len() && q != idx implies (#[trigger] edges@[q])@
                                    == packed_edges(groups@, packed@, q as usize, i as int, hm, map@) by {
                                    assert(edges@[q] == before[q]);
                                }
                                assert(edge_ok(edge, idx as int, groups@));
                                assert(packed@[i as int] as int == idx as int);
                                assert(listed(packed@, idx as int));
                                let w = choose|w: int| 0 <= w < packed@.len() && packed@[w] == other;
                                assert(packed@[w] as int == other as int);
                                assert(listed(packed@, other as int));
                                lemma_pushed_edge(before, edges@, idx as int, edge, groups@, packed@);
                            }
                        }
                    }
                }
                assert(room.exits@.take(e as int) =~= room.exits@);
            }
            proof {
                assert(edges@[idx as int]@ =~= base + room_edges(groups@, idx, k + 1, hm, map@));
            }
            k = k + 1;
        }
        proof {
            assert forall|q: int| 0 <= q < edges@.len() implies (#[trigger] edges@[q])@ == packed_edges(
                groups@,
                packed@,
                q as usize,
                i + 1,
                hm,
                map@,
            ) by {
                if q == idx {
                    assert(edges@[q]@ =~= packed_edges(groups@, packed@, q as usize, i + 1, hm, map@));
                } else {
                    assert(q < edges.len());
                    assert((q as usize) as int == q);
                    assert(packed@[i as int] as int != q);
                    assert(packed_edges(groups@, packed@, q as usize, i + 1, hm, map@) =~= packed_edges(
                        groups@,
                        packed@,
                        q as usize,
                        i as int,
                        hm,
                        map@,
                    ));
                }
            }
        }
        i = i + 1;
    }
    proof {
        assert forall|q: int| 0 <= q < edges@.len() implies (#[trigger] edges@[q])@ == packed_edges(
            groups@,
            packed@,
            q as usize,
            packed@.len() as int,
            home_map(groups@, packed@),
            map@,
        ) by {}
    }
    edges
}

/// A packed room touching an excluded component, and its packed group.
#[derive(Clone, Copy)]
struct Contact {
    group: usize,
    room_id: RoomId,
    at: usize,
}

/// The contact is a room of a packed group.
spec fn contact_ok(c: Contact, groups: Seq<Group>, packed: Seq<usize>) -> bool {
    &&& c.group < groups.len()
    &&& listed(packed, c.group as int)
    &&& c.at < groups[c.group as int].room_ids@.len()
    &&& groups[c.group as int].room_ids@[c.at as int] == c.room_id
}

/// The list holds a contact of `c`'s group and room.
spec fn holds_contact(list: Seq<Contact>, c: Contact) -> bool {
    exists|j: int| 0 <= j < list.len() && list[j].group == c.group && list[j].room_id == c.room_id
}

/// Whether the list already holds this group's room.
fn has_contact(list: &Vec<Contact>, c: Contact) -> (b: bool)
    ensures
        b == holds_contact(list@, c),
{
    let mut i: usize = 0;
    while i < list.len()
        invariant
            i <= list@.len(),
            forall|j: int| 0 <= j < i ==> !(list@[j].group == c.group && list@[j].room_id == c.room_id),
        decreases list.len() - i,
    {
        if list[i].group == c.group && list[i].room_id.0 == c.room_id.0 {
            return true;
        }
        i = i + 1;
    }
    false
}

/// Whether group `g` is one of the packed ones.
fn in_list(list: &Vec<usize>, g: usize) -> (b: bool)
    ensures
        b == listed(list@, g as int),
{
    let mut i: usize = 0;
    while i < list.len()
        invariant
            i <= list@.len(),
            forall|q: int| 0 <= q < i ==> list@[q] != g,
        decreases list.len() - i,
    {
        if list[i] == g {
            return true;
        }
        i = i + 1;
    }
    false
}

/// Records that the packed room `c` touches the excluded component `ex`,
/// once, noting `ex` in first-encounter order.
fn add_contact(
    contacts: &mut Vec<Vec<Contact>>,
    order: &mut Vec<usize>,
    ex: usize,
    c: Contact,
    Ghost(groups): Ghost<Seq<Group>>,
    Ghost(packed): Ghost<Seq<usize>>,
)
    requires
        ex < old(contacts)@.len(),
        contact_ok(c, groups, packed),
        forall|e: int, j: int|
            0 <= e < old(contacts)@.len() && 0 <= j < old(contacts)@[e]@.len() ==> contact_ok(
                #[trigger] old(contacts)@[e]@[j],
                groups,
                packed,
            ),
        forall|k: int| 0 <= k < old(order)@.len() ==> #[trigger] old(order)@[k] < old(contacts)@.len(),
    ensures
        final(contacts)@.len() == old(contacts)@.len(),
        forall|e: int, j: int|
            0 <= e < final(contacts)@.len() && 0 <= j < final(contacts)@[e]@.len() ==> contact_ok(
                #[trigger] final(contacts)@[e]@[j],
                groups,
                packed,
            ),
        forall|k: int| 0 <= k < final(order)@.len() ==> #[trigger] final(order)@[k] < final(contacts)@.len(),
        final(order)@ == if old(contacts)@[ex as int]@.len() == 0 {
            old(order)@.push(ex)
        } else {
            old(order)@
        },
        final(contacts)@[ex as int]@ == if holds_contact(old(contacts)@[ex as int]@, c) {
            old(contacts)@[ex as int]@
        } else {
            old(contacts)@[ex as int]@.push(c)
        },
        forall|e: int| 0 <= e < old(contacts)@.len() && e != ex ==> #[trigger] final(contacts)@[e] == old(contacts)@[e],
{
    if contacts[ex].len() == 0 {
        order.push(ex);
    }
    if !has_contact(&contacts[ex], c) {
        let ghost before = contacts@;
        contacts[ex].push(c);
        assert forall|e: int, j: int| 0 <= e < contacts@.len() && 0 <= j < contacts@[e]@.len() implies contact_ok(
            #[trigger] contacts@[e]@[j],
            groups,
            packed,
        ) by {
            if e == ex && j == before[e]@.len() {
                assert(contacts@[e]@[j] == c);
            } else {
                assert(contacts@[e]@[j] == before[e]@[j]);
            }
        }
    }
}

/// Virtual edges between packed groups whose only link runs through an
/// excluded component, such as the two shores of a ferry: for each
/// excluded component, in the order first touched, each pair among its
/// first ten packed contacts in different groups is joined both ways.
#[verifier::spinoff_prover]
#[verifier::rlimit(40)]
pub fn add_bridged_edges(edges: &mut Vec<Vec<Edge>>, groups: &Vec<Group>, packed: &Vec<usize>, map: &RoomMap)
    requires
        old(edges)@.len() == groups@.len(),
        forall|i: int| 0 <= i < packed@.len() ==> #[trigger] packed@[i] < groups@.len(),
        forall|g: int, j: int|
            0 <= g < old(edges)@.len() && 0 <= j < old(edges)@[g]@.len() ==> edge_ok(#[trigger] old(edges)@[g]@[j], g, groups@)
                && listed(packed@, g) && listed(packed@, old(edges)@[g]@[j].other_group as int),
    ensures
        final(edges)@.len() == groups@.len(),
        forall|g: int, j: int|
            0 <= g < final(edges)@.len() && 0 <= j < final(edges)@[g]@.len() ==> edge_ok(
                #[trigger] final(edges)@[g]@[j],
                g,
                groups@,
            ) && listed(packed@, g) && listed(packed@, final(edges)@[g]@[j].other_group as int),
        forall|g: int|
            0 <= g < groups@.len() ==> old(edges)@[g]@.len() <= (#[trigger] final(edges)@[g])@.len() && forall|j: int|
                0 <= j < old(edges)@[g]@.len() ==> final(edges)@[g]@[j] == old(edges)@[g]@[j],
{
    let ghost e_in = edges@;
    let mut all: Vec<usize> = Vec::new();
    let mut g: usize = 0;
    while g < groups.len()
        invariant
            g <= groups@.len(),
            all@.len() == g,
            forall|q: int| 0 <= q < g ==> #[trigger] all@[q] == q,
        decreases groups.len() - g,
    {
        all.push(g);
        g = g + 1;
    }
    let comp = component_index(groups, &all);
    let mut contacts: Vec<Vec<Contact>> = Vec::new();
    let mut g: usize = 0;
    while g < groups.len()
        invariant
            g <= groups@.len(),
            contacts@.len() == g,
            forall|q: int| 0 <= q < g ==> (#[trigger] contacts@[q])@.len() == 0,
        decreases groups.len() - g,
    {
        contacts.push(Vec::new());
        g = g + 1;
    }
    let mut order: Vec<usize> = Vec::new();
    let mut g: usize = 0;
    while g < groups.len()
        invariant
            edges@ == e_in,
            g <= groups@.len(),
            contacts@.len() == groups@.len(),
            forall|key: u32|
                #[trigger] comp@.contains_key(key) ==> comp@[key].0 < groups@.len() && comp@[key].1
                    < groups@[comp@[key].0 as int].room_ids@.len() && groups@[comp@[key].0 as int].room_ids@[comp@[key].1 as int].0
                    == key,
            forall|e: int, j: int|
                0 <= e < contacts@.len() && 0 <= j < contacts@[e]@.len() ==> contact_ok(
                    #[trigger] contacts@[e]@[j],
                    groups@,
                    packed@,
                ),
            forall|k: int| 0 <= k < order@.len() ==> #[trigger] order@[k] < contacts@.len(),
        decreases groups.len() - g,
    {
        let group_packed = in_list(packed, g);
        let mut k: usize = 0;
        while k < groups[g].room_ids.len()
            invariant
                edges@ == e_in,
                g < groups@.len(),
                k <= groups@[g as int].room_ids@.len(),
                group_packed == listed(packed@, g as int),
                contacts@.len() == groups@.len(),
                forall|key: u32|
                    #[trigger] comp@.contains_key(key) ==> comp@[key].0 < groups@.len() && comp@[key].1
                        < groups@[comp@[key].0 as int].room_ids@.len()
                        && groups@[comp@[key].0 as int].room_ids@[comp@[key].1 as int].0 == key,
                forall|e: int, j: int|
                    0 <= e < contacts@.len() && 0 <= j < contacts@[e]@.len() ==> contact_ok(
                        #[trigger] contacts@[e]@[j],
                        groups@,
                        packed@,
                    ),
                forall|q: int| 0 <= q < order@.len() ==> #[trigger] order@[q] < contacts@.len(),
            decreases groups@[g as int].room_ids@.len() - k,
        {
            let room_id = groups[g].room_ids[k];
            if let Some(room) = map.room(room_id) {
                let mut e: usize = 0;
                while e < room.exits.len()
                    invariant
                        edges@ == e_in,
                        g < groups@.len(),
                        k < groups@[g as int].room_ids@.len(),
                        room_id == groups@[g as int].room_ids@[k as int],
                        group_packed == listed(packed@, g as int),
                        e <= room.exits@.len(),
                        contacts@.len() == groups@.len(),
                        forall|key: u32|
                            #[trigger] comp@.contains_key(key) ==> comp@[key].0 < groups@.len() && comp@[key].1
                                < groups@[comp@[key].0 as int].room_ids@.len()
                                && groups@[comp@[key].0 as int].room_ids@[comp@[key].1 as int].0 == key,
                        forall|x: int, j: int|
                            0 <= x < contacts@.len() && 0 <= j < contacts@[x]@.len() ==> contact_ok(
                                #[trigger] contacts@[x]@[j],
                                groups@,
                                packed@,
                            ),
                        forall|q: int| 0 <= q < order@.len() ==> #[trigger] order@[q] < contacts@.len(),
                    decreases room.exits@.len() - e,
                {
                    let target = room.exits[e].to;
                    e = e + 1;
                    if let Some(pair) = comp.get(&target.0) {
                        let (tg, tk) = *pair;
                        if tg != g {
                            let target_packed = in_list(packed, tg);
                            if group_packed && !target_packed {
                                add_contact(
                                    &mut contacts,
                                    &mut order,
                                    tg,
                                    Contact { group: g, room_id, at: k },
                                    Ghost(groups@),
                                    Ghost(packed@),
                                );
                            } else if !group_packed && target_packed {
                                assert(groups@[tg as int].room_ids@[tk as int] == target);
                                add_contact(
                                    &mut contacts,
                                    &mut order,
                                    g,
                                    Contact { group: tg, room_id: target, at: tk },
                                    Ghost(groups@),
                                    Ghost(packed@),
                                );
                            }
                        }
                    }
                }
            }
            k = k + 1;
        }
        g = g + 1;
    }
    let mut o: usize = 0;
    while o < order.len()
        invariant
            forall|x: int|
                0 <= x < groups@.len() ==> e_in[x]@.len() <= (#[trigger] edges@[x])@.len() && forall|q: int|
                    0 <= q < e_in[x]@.len() ==> edges@[x]@[q] == e_in[x]@[q],
            o <= order@.len(),
            contacts@.len() == groups@.len(),
            edges@.len() == groups@.len(),
            forall|e: int, j: int|
                0 <= e < contacts@.len() && 0 <= j < contacts@[e]@.len() ==> contact_ok(
                    #[trigger] contacts@[e]@[j],
                    groups@,
                    packed@,
                ),
            forall|q: int| 0 <= q < order@.len() ==> #[trigger] order@[q] < contacts@.len(),
            forall|x: int, j: int|
                0 <= x < edges@.len() && 0 <= j < edges@[x]@.len() ==> edge_ok(#[trigger] edges@[x]@[j], x, groups@)
                    && listed(packed@, x) && listed(packed@, edges@[x]@[j].other_group as int),
        decreases order.len() - o,
    {
        let ex = order[o];
        let list = &contacts[ex];
        let cap = if list.len() < BRIDGED_CONTACT_CAP {
            list.len()
        } else {
            BRIDGED_CONTACT_CAP
        };
        let mut i: usize = 0;
        while i < cap
            invariant
                forall|x: int|
                    0 <= x < groups@.len() ==> e_in[x]@.len() <= (#[trigger] edges@[x])@.len() && forall|q: int|
                        0 <= q < e_in[x]@.len() ==> edges@[x]@[q] == e_in[x]@[q],
                cap <= list@.len(),
                ex < contacts@.len(),
                *list == contacts@[ex as int],
                edges@.len() == groups@.len(),
                forall|j: int| 0 <= j < list@.len() ==> contact_ok(#[trigger] list@[j], groups@, packed@),
                forall|x: int, j: int|
                    0 <= x < edges@.len() && 0 <= j < edges@[x]@.len() ==> edge_ok(#[trigger] edges@[x]@[j], x, groups@)
                        && listed(packed@, x) && listed(packed@, edges@[x]@[j].other_group as int),
            decreases cap - i,
        {
            let mut j: usize = i + 1;
            while j < cap
                invariant
                    forall|x: int|
                        0 <= x < groups@.len() ==> e_in[x]@.len() <= (#[trigger] edges@[x])@.len() && forall|q: int|
                            0 <= q < e_in[x]@.len() ==> edges@[x]@[q] == e_in[x]@[q],
                    i < cap <= list@.len(),
                    i + 1 <= j <= cap,
                    edges@.len() == groups@.len(),
                    forall|q: int| 0 <= q < list@.len() ==> contact_ok(#[trigger] list@[q], groups@, packed@),
                    forall|x: int, q: int|
                        0 <= x < edges@.len() && 0 <= q < edges@[x]@.len() ==> edge_ok(#[trigger] edges@[x]@[q], x, groups@)
                            && listed(packed@, x) && listed(packed@, edges@[x]@[q].other_group as int),
                decreases cap - j,
            {
                let a = list[i];
                let b = list[j];
                assert(contact_ok(list@[i as int], groups@, packed@));
                assert(contact_ok(list@[j as int], groups@, packed@));
                if a.group != b.group {
                    let delta = uid_delta(map.room(a.room_id), map.room(b.room_id));
                    let ab = Edge {
                        other_group: b.group,
                        room_id: a.room_id,
                        other_room_id: b.room_id,
                        uid_delta: delta,
                        at: a.at,
                        other_at: b.at,
                    };
                    let ba = Edge {
                        other_group: a.group,
                        room_id: b.room_id,
                        other_room_id: a.room_id,
                        uid_delta: delta,
                        at: b.at,
                        other_at: a.at,
                    };
                    let ghost e0 = edges@;
                    edges[a.group].push(ab);
                    let ghost e1 = edges@;
                    edges[b.group].push(ba);
                    proof {
                        assert forall|x: int| 0 <= x < groups@.len() implies e_in[x]@.len() <= (#[trigger] edges@[x])@.len()
                            && forall|q: int| 0 <= q < e_in[x]@.len() ==> edges@[x]@[q] == e_in[x]@[q] by {
                            assert forall|q: int| 0 <= q < e_in[x]@.len() implies edges@[x]@[q] == e_in[x]@[q] by {
                                assert(e0[x]@[q] == e_in[x]@[q]);
                                if x == a.group as int {
                                    assert(e1[x]@[q] == e0[x]@[q]);
                                } else {
                                    assert(e1[x] == e0[x]);
                                }
                                if x == b.group as int {
                                    assert(edges@[x]@[q] == e1[x]@[q]);
                                } else {
                                    assert(edges@[x] == e1[x]);
                                }
                            }
                        }
                        assert forall|x: int, q: int|
                            0 <= x < edges@.len() && 0 <= q < edges@[x]@.len() implies edge_ok(
                            #[trigger] edges@[x]@[q],
                            x,
                            groups@,
                        ) && listed(packed@, x) && listed(packed@, edges@[x]@[q].other_group as int) by {
                            if x == b.group && q == e1[x]@.len() {
                                assert(edges@[x]@[q] == ba);
                                assert(edge_ok(ba, x, groups@));
                                assert(listed(packed@, b.group as int) && listed(packed@, a.group as int));
                            } else {
                                assert(edges@[x]@[q] == e1[x]@[q]);
                                if x == a.group && q == e0[x]@.len() {
                                    assert(e1[x]@[q] == ab);
                                    assert(edge_ok(ab, x, groups@));
                                    assert(listed(packed@, b.group as int) && listed(packed@, a.group as int));
                                } else {
                                    assert(e1[x]@[q] == e0[x]@[q]);
                                }
                            }
                        }
                    }
                }
                j = j + 1;
            }
            i = i + 1;
        }
        o = o + 1;
    }
    assert forall|g: int, j: int| 0 <= g < edges@.len() && 0 <= j < edges@[g]@.len() implies edge_ok(
        #[trigger] edges@[g]@[j],
        g,
        groups@,
    ) && listed(packed@, g) && listed(packed@, edges@[g]@[j].other_group as int) by {}
}

// ---------------------------------------------------------------------
// Placing a group and committing its lines
// ---------------------------------------------------------------------

/// A line committed to the sheet, between two rooms' cells.
#[derive(Debug, Clone, Copy)]
pub struct Segment {
    pub a: Cell,
    pub b: Cell,
    pub ra: RoomId,
    pub rb: RoomId,
}

/// A box a placed group covers on the sheet.
#[derive(Debug, Clone, Copy)]
pub struct BBox {
    pub min_x: i32,
    pub max_x: i32,
    pub min_y: i32,
    pub max_y: i32,
}

/// Every group's own cells lie within `span` of zero.
pub open spec fn spans_within(groups: Seq<Group>, span: int) -> bool {
    forall|g: int| 0 <= g < groups.len() ==> cells_within(cells_of((#[trigger] groups[g]).positions@), span)
}

/// The offset is set and lies within `b` of zero.
pub open spec fn offset_within(group: Group, b: int) -> bool {
    group.base_offset matches Some(off) && -b <= off.x <= b && -b <= off.y <= b
}

/// Every group marked placed has an offset within `b` of zero.
pub open spec fn offsets_within(groups: Seq<Group>, placed: Seq<bool>, b: int) -> bool {
    forall|g: int| 0 <= g < groups.len() && #[trigger] placed[g] ==> offset_within(groups[g], b)
}

/// Every committed line's ends lie within `b` of zero.
pub open spec fn segments_within(segs: Seq<Segment>, b: int) -> bool {
    forall|k: int|
        0 <= k < segs.len() ==> -b <= (#[trigger] segs[k]).a.x <= b && -b <= segs[k].a.y <= b && -b <= segs[k].b.x
            <= b && -b <= segs[k].b.y <= b
}

/// Every committed box lies within `b` of zero.
pub open spec fn boxes_within(boxes: Seq<BBox>, b: int) -> bool {
    forall|k: int|
        0 <= k < boxes.len() ==> -b <= (#[trigger] boxes[k]).min_x <= b && -b <= boxes[k].max_x <= b && -b
            <= boxes[k].min_y <= b && -b <= boxes[k].max_y <= b
}

/// The group's cells moved by `off`.
pub open spec fn shifted_cells(ps: Seq<(RoomId, Cell)>, off: Cell) -> Seq<Cell> {
    ps.map_values(|e: (RoomId, Cell)| shifted(e.1, off))
}

proof fn lemma_cells_of_index(ps: Seq<(RoomId, Cell)>, k: int)
    requires
        0 <= k < ps.len(),
    ensures
        cells_of(ps)[k] == ps[k].1,
{
}

/// Gives group `idx` its offset and packing method, marks it placed, and
/// occupies its cells on the sheet.
pub fn place_group(
    groups: &mut Vec<Group>,
    idx: usize,
    offset: Cell,
    method: PackMethod,
    sheet: &mut Sheet,
    placed: &mut Vec<bool>,
    Ghost(span): Ghost<int>,
)
    requires
        idx < old(groups)@.len(),
        old(placed)@.len() == old(groups)@.len(),
        old(sheet).wf(),
        spans_within(old(groups)@, span),
        0 <= span,
        -sheet_limit() <= offset.x <= sheet_limit(),
        -sheet_limit() <= offset.y <= sheet_limit(),
        span + sheet_limit() <= i32::MAX,
    ensures
        final(groups)@.len() == old(groups)@.len(),
        forall|g: int| 0 <= g < old(groups)@.len() && g != idx ==> #[trigger] final(groups)@[g] == old(groups)@[g],
        final(groups)@[idx as int].base_offset == Some(offset),
        final(groups)@[idx as int].packing == Some(method),
        final(groups)@[idx as int].room_ids == old(groups)@[idx as int].room_ids,
        final(groups)@[idx as int].positions == old(groups)@[idx as int].positions,
        final(groups)@[idx as int].index == old(groups)@[idx as int].index,
        final(groups)@[idx as int].violations == old(groups)@[idx as int].violations,
        final(groups)@[idx as int].name == old(groups)@[idx as int].name,
        final(placed)@ == old(placed)@.update(idx as int, true),
        final(sheet).wf(),
        final(sheet).cells() == old(sheet).cells() + shifted_cells(old(groups)@[idx as int].positions@, offset),
{
    let ghost ps = groups@[idx as int].positions@;
    let ghost start = sheet.cells();
    groups[idx].base_offset = Some(offset);
    groups[idx].packing = Some(method);
    placed.set(idx, true);
    let mut k: usize = 0;
    while k < groups[idx].positions.len()
        invariant
            idx < groups@.len(),
            groups@[idx as int].positions@ == ps,
            sheet.wf(),
            k <= ps.len(),
            cells_within(cells_of(ps), span),
            0 <= span,
            -sheet_limit() <= offset.x <= sheet_limit(),
            -sheet_limit() <= offset.y <= sheet_limit(),
            span + sheet_limit() <= i32::MAX,
            sheet.cells() == start + shifted_cells(ps.take(k as int), offset),
        decreases ps.len() - k,
    {
        let c = groups[idx].positions[k].1;
        proof {
            lemma_cells_of_index(ps, k as int);
            assert(-span <= c.x <= span && -span <= c.y <= span);
        }
        sheet.take(Cell { x: c.x + offset.x, y: c.y + offset.y });
        assert(shifted_cells(ps.take(k + 1), offset) =~= shifted_cells(ps.take(k as int), offset).push(
            shifted(c, offset),
        ));
        k = k + 1;
    }
    assert(ps.take(k as int) =~= ps);
}

/// The cell on the sheet of room `k` of placed group `g`.
pub open spec fn final_at(groups: Seq<Group>, g: int, k: int) -> Cell {
    shifted(groups[g].positions@[k].1, groups[g].base_offset.unwrap())
}

pub(crate) fn final_cell_at(groups: &Vec<Group>, g: usize, k: usize, Ghost(span): Ghost<int>, Ghost(b): Ghost<int>) -> (c: Cell)
    requires
        g < groups@.len(),
        k < groups@[g as int].positions@.len(),
        offset_within(groups@[g as int], b),
        spans_within(groups@, span),
        0 <= span,
        0 <= b,
        span + b <= i32::MAX,
    ensures
        c == final_at(groups@, g as int, k as int),
        -(span + b) <= c.x <= span + b,
        -(span + b) <= c.y <= span + b,
{
    let p = groups[g].positions[k].1;
    let off = groups[g].base_offset.unwrap();
    proof {
        lemma_cells_of_index(groups@[g as int].positions@, k as int);
        assert(cells_within(cells_of(groups@[g as int].positions@), span));
    }
    Cell { x: p.x + off.x, y: p.y + off.y }
}

/// The connector lines `commit_segments` commits for group `idx`, from
/// its edges `es` in order: each edge to a placed packed group whose two
/// rooms' cells are at most 30 apart.
pub open spec fn connector_lines(
    groups: Seq<Group>,
    idx: int,
    es: Seq<Edge>,
    packed: Seq<usize>,
    placed: Seq<bool>,
) -> Seq<Segment>
    decreases es.len(),
{
    if es.len() == 0 {
        Seq::empty()
    } else {
        let r = connector_lines(groups, idx, es.drop_last(), packed, placed);
        let e = es.last();
        let a = final_at(groups, idx, e.at as int);
        let b = final_at(groups, e.other_group as int, e.other_at as int);
        if placed[e.other_group as int] && listed(packed, e.other_group as int) && chebyshev_of(a, b)
            <= CONNECTOR_COMMIT_CAP {
            r.push(Segment { a, b, ra: e.room_id, rb: e.other_room_id })
        } else {
            r
        }
    }
}

/// A line of the group's own: between the cells of two of its rooms
/// joined by a bearing, at most 8 apart.
pub open spec fn own_line(groups: Seq<Group>, idx: int, dirs: Map<u64, crate::direction::Dir>, seg: Segment) -> bool {
    exists|k1: int, k2: int|
        0 <= k1 < groups[idx].room_ids@.len() && 0 <= k2 < groups[idx].room_ids@.len() && seg.a == final_at(
            groups,
            idx,
            k1,
        ) && seg.b == final_at(groups, idx, k2) && seg.ra == groups[idx].room_ids@[k1] && seg.rb
            == groups[idx].room_ids@[k2] && dir_at(dirs, seg.ra, seg.rb) is Some && chebyshev_of(seg.a, seg.b)
            <= DIRECTIONAL_COMMIT_CAP
}

/// The group's box on the sheet.
pub open spec fn placed_box(g: Group) -> BBox {
    BBox {
        min_x: (min_x_of(g.positions@) + g.base_offset.unwrap().x) as i32,
        max_x: (max_x_of(g.positions@) + g.base_offset.unwrap().x) as i32,
        min_y: (min_y_of(g.positions@) + g.base_offset.unwrap().y) as i32,
        max_y: (max_y_of(g.positions@) + g.base_offset.unwrap().y) as i32,
    }
}

/// Commits the lines of the just-placed group `idx` as obstacles for later
/// placements: its connectors to placed packed groups, at most 30 cells
/// long; its own lines between rooms joined by a bearing, each pair once,
/// at most 8 cells long; and its bounding box.
#[verifier::rlimit(40)]
pub fn commit_segments(
    groups: &Vec<Group>,
    idx: usize,
    edges: &Vec<Vec<Edge>>,
    packed: &Vec<usize>,
    placed: &Vec<bool>,
    map: &RoomMap,
    dirs: &DirectionMap,
    segments: &mut Vec<Segment>,
    boxes: &mut Vec<BBox>,
    Ghost(span): Ghost<int>,
    Ghost(b): Ghost<int>,
)
    requires
        idx < groups@.len(),
        placed@[idx as int],
        groups@[idx as int].positions@.len() > 0,
        aligned(groups@),
        edges@.len() == groups@.len(),
        placed@.len() == groups@.len(),
        forall|g: int, j: int|
            0 <= g < edges@.len() && 0 <= j < edges@[g]@.len() ==> edge_ok(#[trigger] edges@[g]@[j], g, groups@),
        spans_within(groups@, span),
        offsets_within(groups@, placed@, b),
        0 <= span,
        0 <= b,
        span + b <= sheet_limit(),
        segments_within(old(segments)@, span + b),
        boxes_within(old(boxes)@, span + b),
    ensures
        segments_within(final(segments)@, span + b),
        boxes_within(final(boxes)@, span + b),
        final(segments)@.len() >= old(segments)@.len() + connector_lines(
            groups@,
            idx as int,
            edges@[idx as int]@,
            packed@,
            placed@,
        ).len(),
        final(segments)@.subrange(
            0,
            (old(segments)@.len() + connector_lines(groups@, idx as int, edges@[idx as int]@, packed@, placed@).len()) as int,
        ) == old(segments)@ + connector_lines(groups@, idx as int, edges@[idx as int]@, packed@, placed@),
        forall|k: int|
            old(segments)@.len() + connector_lines(groups@, idx as int, edges@[idx as int]@, packed@, placed@).len() <= k
                < final(segments)@.len() ==> own_line(groups@, idx as int, dirs@, #[trigger] final(segments)@[k]),
        final(boxes)@ == old(boxes)@.push(placed_box(groups@[idx as int])),
{
    let ghost s0 = segments@;
    let group = &groups[idx];
    let ghost lim = span + b;
    let mut j: usize = 0;
    while j < edges[idx].len()
        invariant
            idx < groups@.len(),
            *group == groups@[idx as int],
            placed@[idx as int],
            placed@.len() == groups@.len(),
            aligned(groups@),
            edges@.len() == groups@.len(),
            placed@.len() == groups@.len(),
            forall|g: int, q: int|
                0 <= g < edges@.len() && 0 <= q < edges@[g]@.len() ==> edge_ok(#[trigger] edges@[g]@[q], g, groups@),
            spans_within(groups@, span),
            offsets_within(groups@, placed@, b),
            0 <= span,
            0 <= b,
            lim == span + b,
            span + b <= sheet_limit(),
            segments_within(segments@, lim),
            j <= edges@[idx as int]@.len(),
            segments@ == s0 + connector_lines(groups@, idx as int, edges@[idx as int]@.take(j as int), packed@, placed@),
        decreases edges@[idx as int]@.len() - j,
    {
        let e = edges[idx][j];
        assert(edges@[idx as int]@.take(j + 1).drop_last() =~= edges@[idx as int]@.take(j as int));
        assert(edges@[idx as int]@.take(j + 1).last() == e);
        j = j + 1;
        assert(edge_ok(edges@[idx as int]@[j - 1], idx as int, groups@));
        if !placed[e.other_group] || !in_list(packed, e.other_group) {
            continue;
        }
        assert(groups@[e.other_group as int] == groups@[e.other_group as int]);
        assert((groups@[e.other_group as int]).positions@.len() == groups@[e.other_group as int].room_ids@.len());
        assert((groups@[idx as int]).positions@.len() == groups@[idx as int].room_ids@.len());
        let a = final_cell_at(groups, idx, e.at, Ghost(span), Ghost(b));
        let bc = final_cell_at(groups, e.other_group, e.other_at, Ghost(span), Ghost(b));
        if chebyshev(a, bc) > CONNECTOR_COMMIT_CAP {
            continue;
        }
        segments.push(Segment { a, b: bc, ra: e.room_id, rb: e.other_room_id });
        assert(segments@ =~= s0 + connector_lines(groups@, idx as int, edges@[idx as int]@.take(j as int), packed@, placed@));
        assert forall|q: int| 0 <= q < segments@.len() implies -lim <= (#[trigger] segments@[q]).a.x <= lim && -lim
            <= segments@[q].a.y <= lim && -lim <= segments@[q].b.x <= lim && -lim <= segments@[q].b.y <= lim by {
            if q < segments@.len() - 1 {
                assert(segments@[q] == segments@.drop_last()[q]);
            }
        }
    }
    assert(edges@[idx as int]@.take(j as int) =~= edges@[idx as int]@);
    let ghost c0 = s0 + connector_lines(groups@, idx as int, edges@[idx as int]@, packed@, placed@);
    assert(segments@.subrange(0, c0.len() as int) =~= c0);
    let index = position_index(&group.positions);
    let mut seen: HashMapWithView<u64, bool> = HashMapWithView::new();
    let mut k: usize = 0;
    while k < group.room_ids.len()
        invariant
            idx < groups@.len(),
            *group == groups@[idx as int],
            placed@[idx as int],
            placed@.len() == groups@.len(),
            aligned(groups@),
            finds_positions(index@, group.positions@),
            spans_within(groups@, span),
            offsets_within(groups@, placed@, b),
            0 <= span,
            0 <= b,
            lim == span + b,
            span + b <= sheet_limit(),
            segments_within(segments@, lim),
            k <= group.room_ids@.len(),
            c0 == s0 + connector_lines(groups@, idx as int, edges@[idx as int]@, packed@, placed@),
            segments@.len() >= c0.len(),
            segments@.subrange(0, c0.len() as int) == c0,
            forall|q: int| c0.len() <= q < segments@.len() ==> own_line(groups@, idx as int, dirs@, #[trigger] segments@[q]),
        decreases group.room_ids@.len() - k,
    {
        let room_id = group.room_ids[k];
        if let Some(room) = map.room(room_id) {
            let mut e: usize = 0;
            while e < room.exits.len()
                invariant
                    idx < groups@.len(),
                    *group == groups@[idx as int],
                    placed@[idx as int],
            placed@.len() == groups@.len(),
                    aligned(groups@),
                    finds_positions(index@, group.positions@),
                    spans_within(groups@, span),
                    offsets_within(groups@, placed@, b),
                    0 <= span,
                    0 <= b,
                    lim == span + b,
                    span + b <= sheet_limit(),
                    segments_within(segments@, lim),
                    k < group.room_ids@.len(),
                    room_id == group.room_ids@[k as int],
                    e <= room.exits@.len(),
                    segments@.len() >= c0.len(),
                    segments@.subrange(0, c0.len() as int) == c0,
                    forall|q: int| c0.len() <= q < segments@.len() ==> own_line(groups@, idx as int, dirs@, #[trigger] segments@[q]),
                decreases room.exits@.len() - e,
            {
                let target = room.exits[e].to;
                e = e + 1;
                let tk = match index.get(&target.0) {
                    Some(t) => *t,
                    None => {
                        continue;
                    },
                };
                let (lo, hi) = if room_id.0 <= target.0 {
                    (room_id, target)
                } else {
                    (target, room_id)
                };
                let key = key_of(lo, hi);
                if seen.contains_key(&key) {
                    continue;
                }
                if dirs.get(room_id, target).is_none() {
                    continue;
                }
                seen.insert(key, true);
                assert(groups@[idx as int].positions@.len() == groups@[idx as int].room_ids@.len());
                let a = final_cell_at(groups, idx, k, Ghost(span), Ghost(b));
                let bc = final_cell_at(groups, idx, tk, Ghost(span), Ghost(b));
                if chebyshev(a, bc) > DIRECTIONAL_COMMIT_CAP {
                    continue;
                }
                let ghost before = segments@;
                proof {
                    assert(group.positions@[tk as int].0.0 == target.0);
                    assert(groups@[idx as int].room_ids@[tk as int] == groups@[idx as int].positions@[tk as int].0);
                    assert(groups@[idx as int].room_ids@[tk as int] == target);
                }
                segments.push(Segment { a, b: bc, ra: room_id, rb: target });
                proof {
                    assert(own_line(groups@, idx as int, dirs@, Segment { a, b: bc, ra: room_id, rb: target }));
                    assert(segments@.subrange(0, c0.len() as int) =~= before.subrange(0, c0.len() as int));
                    assert forall|q: int| c0.len() <= q < segments@.len() implies own_line(groups@, idx as int, dirs@, #[trigger] segments@[q]) by {
                        if q < before.len() {
                            assert(segments@[q] == before[q]);
                        }
                    }
                }
                assert forall|q: int| 0 <= q < segments@.len() implies -lim <= (#[trigger] segments@[q]).a.x <= lim
                    && -lim <= segments@[q].a.y <= lim && -lim <= segments@[q].b.x <= lim && -lim <= segments@[q].b.y
                    <= lim by {
                    if q < segments@.len() - 1 {
                        assert(segments@[q] == segments@.drop_last()[q]);
                    }
                }
            }
        }
        k = k + 1;
    }
    let bounds = group.bounds();
    let off = group.base_offset.unwrap();
    proof {
        lemma_bounds_within(group.positions@, span);
    }
    assert(off == groups@[idx as int].base_offset.unwrap());
    boxes.push(BBox {
        min_x: bounds.min_x + off.x,
        max_x: bounds.max_x + off.x,
        min_y: bounds.min_y + off.y,
        max_y: bounds.max_y + off.y,
    });
    assert forall|q: int| 0 <= q < boxes@.len() implies -lim <= (#[trigger] boxes@[q]).min_x <= lim && -lim
        <= boxes@[q].max_x <= lim && -lim <= boxes@[q].min_y <= lim && -lim <= boxes@[q].max_y <= lim by {
        if q < boxes@.len() - 1 {
            assert(boxes@[q] == boxes@.drop_last()[q]);
        }
    }
}

/// The extent of a group's own cells lies within their span.
pub proof fn lemma_bounds_within(ps: Seq<(RoomId, Cell)>, span: int)
    requires
        ps.len() > 0,
        cells_within(cells_of(ps), span),
    ensures
        min_x_of(ps) <= max_x_of(ps),
        -span <= min_x_of(ps) <= span,
        -span <= max_x_of(ps) <= span,
        -span <= min_y_of(ps) <= span,
        -span <= max_y_of(ps) <= span,
    decreases ps.len(),
{
    let d = ps.drop_last();
    lemma_cells_of_index(ps, ps.len() - 1);
    let last = cells_of(ps)[ps.len() - 1];
    assert(-span <= last.x <= span && -span <= last.y <= span);
    assert(last == ps.last().1);
    if d.len() == 0 {
        assert(min_x_of(d) == i32::MAX as int);
        assert(max_x_of(d) == i32::MIN as int);
        assert(min_y_of(d) == i32::MAX as int);
        assert(max_y_of(d) == i32::MIN as int);
    }
    if d.len() > 0 {
        assert forall|k: int| 0 <= k < d.len() implies -span <= (#[trigger] cells_of(d)[k]).x <= span && -span
            <= cells_of(d)[k].y <= span by {
            lemma_cells_of_index(ps, k);
            lemma_cells_of_index(d, k);
            assert(d[k] == ps[k]);
            assert(-span <= cells_of(ps)[k].x <= span && -span <= cells_of(ps)[k].y <= span);
        }
        lemma_bounds_within(d, span);
    }
}

// ---------------------------------------------------------------------
// The best offset for a connected group
// ---------------------------------------------------------------------

/// A connector line a placement would create: the group's own end, and
/// the placed cell it must reach.
#[derive(Debug, Clone, Copy)]
pub struct AnchorLine {
    pub internal: Cell,
    pub target: Cell,
    pub room_id: RoomId,
    pub other_room_id: RoomId,
}

/// Every line's own end lies within `span` and its target within `lim`.
pub open spec fn lines_within(lines: Seq<AnchorLine>, span: int, lim: int) -> bool {
    forall|k: int|
        0 <= k < lines.len() ==> -span <= (#[trigger] lines[k]).internal.x <= span && -span <= lines[k].internal.y
            <= span && -lim <= lines[k].target.x <= lim && -lim <= lines[k].target.y <= lim
}

/// Coordinates this far from zero keep every cross product inside an
/// `i64`.
proof fn lemma_cross_fits(a: Cell, b: Cell, c: Cell)
    requires
        -0x2000_0000 <= a.x <= 0x2000_0000,
        -0x2000_0000 <= a.y <= 0x2000_0000,
        -0x2000_0000 <= b.x <= 0x2000_0000,
        -0x2000_0000 <= b.y <= 0x2000_0000,
        -0x2000_0000 <= c.x <= 0x2000_0000,
        -0x2000_0000 <= c.y <= 0x2000_0000,
    ensures
        cross_fits(a, b, c),
{
    let (p1, p2) = (b.x - a.x, c.y - a.y);
    let (q1, q2) = (b.y - a.y, c.x - a.x);
    assert(-0x1000_0000_0000_0000 <= p1 * p2 <= 0x1000_0000_0000_0000) by (nonlinear_arith)
        requires
            -0x4000_0000 <= p1 <= 0x4000_0000,
            -0x4000_0000 <= p2 <= 0x4000_0000,
    ;
    assert(-0x1000_0000_0000_0000 <= q1 * q2 <= 0x1000_0000_0000_0000) by (nonlinear_arith)
        requires
            -0x4000_0000 <= q1 <= 0x4000_0000,
            -0x4000_0000 <= q2 <= 0x4000_0000,
    ;
}

/// The sum of two costs, held at `i64::MAX` rather than wrapping.
fn saturating_sum(a: i64, b: i64) -> (r: i64)
    requires
        0 <= a,
        0 <= b,
    ensures
        r == (if a + b <= i64::MAX { a + b } else { i64::MAX as int }),
{
    match a.checked_add(b) {
        Some(t) => t,
        None => i64::MAX,
    }
}

/// `a + b`, held at `i64::MAX`.
pub open spec fn capped(a: int, b: int) -> int {
    if a + b <= i64::MAX {
        a + b
    } else {
        i64::MAX as int
    }
}

/// The committed line ends at one of the connector's rooms.
pub open spec fn touches_line(seg: Segment, line: AnchorLine) -> bool {
    seg.ra.0 == line.room_id.0 || seg.rb.0 == line.room_id.0 || seg.ra.0 == line.other_room_id.0 || seg.rb.0
        == line.other_room_id.0
}

/// One connector line's cost from `end`: its length, and 1000 for each
/// committed line it crosses that does not end at one of its rooms.
pub open spec fn line_cost(end: Cell, line: AnchorLine, segs: Seq<Segment>) -> int
    decreases segs.len(),
{
    if segs.len() == 0 {
        chebyshev_of(end, line.target)
    } else {
        let r = line_cost(end, line, segs.drop_last());
        let seg = segs.last();
        if !touches_line(seg, line) && crosses(end, line.target, seg.a, seg.b) {
            capped(r, CROSSING_PENALTY as int)
        } else {
            r
        }
    }
}

/// The connector lines' costs with the group at `cand`.
pub open spec fn lines_cost(cand: Cell, lines: Seq<AnchorLine>, segs: Seq<Segment>) -> int
    decreases lines.len(),
{
    if lines.len() == 0 {
        0
    } else {
        capped(lines_cost(cand, lines.drop_last(), segs), line_cost(shifted(lines.last().internal, cand), lines.last(), segs))
    }
}

/// The cell lies inside one of the boxes.
pub open spec fn in_some_box(c: Cell, boxes: Seq<BBox>) -> bool {
    exists|q: int|
        0 <= q < boxes.len() && c.x >= boxes[q].min_x && c.x <= boxes[q].max_x && c.y >= boxes[q].min_y && c.y
            <= boxes[q].max_y
}

/// `base`, plus 4 for each of the cells at `cand` inside a box.
pub open spec fn courtyard_cost(base: int, cand: Cell, cells: Seq<Cell>, boxes: Seq<BBox>) -> int
    decreases cells.len(),
{
    if cells.len() == 0 {
        base
    } else {
        let r = courtyard_cost(base, cand, cells.drop_last(), boxes);
        if in_some_box(shifted(cells.last(), cand), boxes) {
            capped(r, COURTYARD_PENALTY as int)
        } else {
            r
        }
    }
}

/// What landing the group at `cand` costs, each sum held at `i64::MAX`.
pub open spec fn landing_cost(
    cand: Cell,
    cells: Seq<Cell>,
    lines: Seq<AnchorLine>,
    segs: Seq<Segment>,
    boxes: Seq<BBox>,
) -> int {
    courtyard_cost(lines_cost(cand, lines, segs), cand, cells, boxes)
}

/// What landing the group at `cand` costs: each connector line's length,
/// 1000 for each committed line it crosses that does not end at one of
/// its rooms, and 4 for each of its cells inside another group's box.
fn score_at(
    cand: Cell,
    cells: &Vec<Cell>,
    lines: &Vec<AnchorLine>,
    segs: &Vec<Segment>,
    boxes: &Vec<BBox>,
    Ghost(span): Ghost<int>,
    Ghost(lim): Ghost<int>,
) -> (score: i64)
    requires
        cells_within(cells@, span),
        lines_within(lines@, span, lim),
        segments_within(segs@, lim),
        0 <= span,
        0 <= lim,
        span + lim + 64 <= sheet_limit(),
        -lim - 34 <= cand.x <= lim + 34,
        -lim - 34 <= cand.y <= lim + 34,
    ensures
        0 <= score,
        score == landing_cost(cand, cells@, lines@, segs@, boxes@),
{
    let mut score: i64 = 0;
    let mut i: usize = 0;
    while i < lines.len()
        invariant
            i <= lines@.len(),
            lines_within(lines@, span, lim),
            segments_within(segs@, lim),
            0 <= span,
            0 <= lim,
            span + lim + 64 <= sheet_limit(),
            -lim - 34 <= cand.x <= lim + 34,
            -lim - 34 <= cand.y <= lim + 34,
            0 <= score,
            score == lines_cost(cand, lines@.take(i as int), segs@),
        decreases lines.len() - i,
    {
        let line = lines[i];
        assert(lines@.take(i + 1).drop_last() =~= lines@.take(i as int));
        assert(lines@.take(i + 1).last() == line);
        assert(-span <= line.internal.x <= span && -lim <= line.target.x <= lim);
        let end = Cell { x: line.internal.x + cand.x, y: line.internal.y + cand.y };
        let mut add: i64 = chebyshev(end, line.target) as i64;
        let mut j: usize = 0;
        while j < segs.len()
            invariant
                j <= segs@.len(),
                segments_within(segs@, lim),
                0 <= span,
                0 <= lim,
                span + lim + 64 <= sheet_limit(),
                -(span + lim + 34) <= end.x <= span + lim + 34,
                -(span + lim + 34) <= end.y <= span + lim + 34,
                -lim <= line.target.x <= lim,
                -lim <= line.target.y <= lim,
                0 <= add,
                add == line_cost(end, line, segs@.take(j as int)),
            decreases segs.len() - j,
        {
            let seg = segs[j];
            assert(segs@.take(j + 1).drop_last() =~= segs@.take(j as int));
            assert(segs@.take(j + 1).last() == seg);
            j = j + 1;
            if seg.ra.0 == line.room_id.0 || seg.rb.0 == line.room_id.0 || seg.ra.0 == line.other_room_id.0
                || seg.rb.0 == line.other_room_id.0 {
                continue;
            }
            assert(-lim <= seg.a.x <= lim && -lim <= seg.a.y <= lim && -lim <= seg.b.x <= lim && -lim <= seg.b.y
                <= lim);
            proof {
                lemma_cross_fits(end, line.target, seg.a);
                lemma_cross_fits(end, line.target, seg.b);
                lemma_cross_fits(seg.a, seg.b, end);
                lemma_cross_fits(seg.a, seg.b, line.target);
            }
            if segments_cross(end, line.target, seg.a, seg.b) {
                add = saturating_sum(add, CROSSING_PENALTY);
            }
        }
        assert(segs@.take(j as int) =~= segs@);
        assert(end == shifted(line.internal, cand));
        score = saturating_sum(score, add);
        i = i + 1;
    }
    assert(lines@.take(i as int) =~= lines@);
    let ghost base = score as int;
    let mut k: usize = 0;
    while k < cells.len()
        invariant
            k <= cells@.len(),
            cells_within(cells@, span),
            0 <= span,
            0 <= lim,
            span + lim + 64 <= sheet_limit(),
            -lim - 34 <= cand.x <= lim + 34,
            -lim - 34 <= cand.y <= lim + 34,
            0 <= score,
            score == courtyard_cost(base, cand, cells@.take(k as int), boxes@),
        decreases cells.len() - k,
    {
        let c = cells[k];
        assert(cells@.take(k + 1).drop_last() =~= cells@.take(k as int));
        assert(cells@.take(k + 1).last() == c);
        assert(-span <= c.x <= span && -span <= c.y <= span);
        let cx = c.x + cand.x;
        let cy = c.y + cand.y;
        let mut inside = false;
        let mut q: usize = 0;
        while q < boxes.len() && !inside
            invariant
                q <= boxes@.len(),
                inside <==> exists|j: int|
                    0 <= j < q && cx >= boxes@[j].min_x && cx <= boxes@[j].max_x && cy >= boxes@[j].min_y && cy
                        <= boxes@[j].max_y,
            decreases boxes.len() - q,
        {
            let b = boxes[q];
            if cx >= b.min_x && cx <= b.max_x && cy >= b.min_y && cy <= b.max_y {
                inside = true;
            }
            q = q + 1;
        }
        assert(shifted(c, cand) == Cell { x: cx, y: cy });
        assert(inside == in_some_box(shifted(c, cand), boxes@));
        if inside {
            score = saturating_sum(score, COURTYARD_PENALTY);
        }
        k = k + 1;
    }
    assert(cells@.take(k as int) =~= cells@);
    score
}

/// The line's extent meets the window.
pub open spec fn segment_near(seg: Segment, lo_x: int, hi_x: int, lo_y: int, hi_y: int) -> bool {
    &&& max(seg.a.x as int, seg.b.x as int) >= lo_x
    &&& min(seg.a.x as int, seg.b.x as int) <= hi_x
    &&& max(seg.a.y as int, seg.b.y as int) >= lo_y
    &&& min(seg.a.y as int, seg.b.y as int) <= hi_y
}

/// The lines whose extent meets the window, in order.
pub open spec fn segments_near(segs: Seq<Segment>, lo_x: int, hi_x: int, lo_y: int, hi_y: int) -> Seq<Segment>
    decreases segs.len(),
{
    if segs.len() == 0 {
        Seq::empty()
    } else {
        let r = segments_near(segs.drop_last(), lo_x, hi_x, lo_y, hi_y);
        if segment_near(segs.last(), lo_x, hi_x, lo_y, hi_y) {
            r.push(segs.last())
        } else {
            r
        }
    }
}

/// The box meets the window.
pub open spec fn box_near(b: BBox, lo_x: int, hi_x: int, lo_y: int, hi_y: int) -> bool {
    b.max_x >= lo_x && b.min_x <= hi_x && b.max_y >= lo_y && b.min_y <= hi_y
}

/// The boxes that meet the window, in order.
pub open spec fn boxes_near(boxes: Seq<BBox>, lo_x: int, hi_x: int, lo_y: int, hi_y: int) -> Seq<BBox>
    decreases boxes.len(),
{
    if boxes.len() == 0 {
        Seq::empty()
    } else {
        let r = boxes_near(boxes.drop_last(), lo_x, hi_x, lo_y, hi_y);
        if box_near(boxes.last(), lo_x, hi_x, lo_y, hi_y) {
            r.push(boxes.last())
        } else {
            r
        }
    }
}

/// The committed lines near a window.
fn near_segments(segs: &Vec<Segment>, lo_x: i32, hi_x: i32, lo_y: i32, hi_y: i32, Ghost(lim): Ghost<int>) -> (out: Vec<Segment>)
    requires
        segments_within(segs@, lim),
    ensures
        segments_within(out@, lim),
        out@.len() <= segs@.len(),
        out@ == segments_near(segs@, lo_x as int, hi_x as int, lo_y as int, hi_y as int),
{
    let mut out: Vec<Segment> = Vec::new();
    let mut i: usize = 0;
    while i < segs.len()
        invariant
            i <= segs@.len(),
            segments_within(segs@, lim),
            segments_within(out@, lim),
            out@.len() <= i,
            out@ == segments_near(segs@.take(i as int), lo_x as int, hi_x as int, lo_y as int, hi_y as int),
        decreases segs.len() - i,
    {
        let seg = segs[i];
        assert(segs@.take(i + 1).drop_last() =~= segs@.take(i as int));
        assert(segs@.take(i + 1).last() == seg);
        let (ax, bx) = (seg.a.x, seg.b.x);
        let (ay, by) = (seg.a.y, seg.b.y);
        let max_x = if ax >= bx { ax } else { bx };
        let min_x = if ax <= bx { ax } else { bx };
        let max_y = if ay >= by { ay } else { by };
        let min_y = if ay <= by { ay } else { by };
        if max_x >= lo_x && min_x <= hi_x && max_y >= lo_y && min_y <= hi_y {
            out.push(seg);
            assert forall|k: int| 0 <= k < out@.len() implies -lim <= (#[trigger] out@[k]).a.x <= lim && -lim
                <= out@[k].a.y <= lim && -lim <= out@[k].b.x <= lim && -lim <= out@[k].b.y <= lim by {
                if k < out@.len() - 1 {
                    assert(out@[k] == out@.drop_last()[k]);
                }
            }
        }
        i = i + 1;
    }
    assert(segs@.take(i as int) =~= segs@);
    out
}

/// The committed boxes near a window.
fn near_boxes(boxes: &Vec<BBox>, lo_x: i32, hi_x: i32, lo_y: i32, hi_y: i32) -> (out: Vec<BBox>)
    ensures
        out@ == boxes_near(boxes@, lo_x as int, hi_x as int, lo_y as int, hi_y as int),
{
    let mut out: Vec<BBox> = Vec::new();
    let mut i: usize = 0;
    while i < boxes.len()
        invariant
            i <= boxes@.len(),
            out@ == boxes_near(boxes@.take(i as int), lo_x as int, hi_x as int, lo_y as int, hi_y as int),
        decreases boxes.len() - i,
    {
        let b = boxes[i];
        assert(boxes@.take(i + 1).drop_last() =~= boxes@.take(i as int));
        assert(boxes@.take(i + 1).last() == b);
        if b.max_x >= lo_x && b.min_x <= hi_x && b.max_y >= lo_y && b.min_y <= hi_y {
            out.push(b);
        }
        i = i + 1;
    }
    assert(boxes@.take(i as int) =~= boxes@);
    out
}

/// The window the connector search scores in: the proposed offset and
/// every line's target, as least and greatest column and row.
pub open spec fn window(p: Cell, lines: Seq<AnchorLine>) -> (int, int, int, int)
    decreases lines.len(),
{
    if lines.len() == 0 {
        (p.x as int, p.x as int, p.y as int, p.y as int)
    } else {
        let (lx, hx, ly, hy) = window(p, lines.drop_last());
        let t = lines.last().target;
        (min(lx, t.x as int), max(hx, t.x as int), min(ly, t.y as int), max(hy, t.y as int))
    }
}

/// What the connector search scores offset `c` at: `landing_cost` over the
/// committed lines and boxes within 34 cells of the window.
pub open spec fn offset_score(
    c: Cell,
    p: Cell,
    cells: Seq<Cell>,
    lines: Seq<AnchorLine>,
    segs: Seq<Segment>,
    boxes: Seq<BBox>,
) -> int {
    let (lx, hx, ly, hy) = window(p, lines);
    landing_cost(
        c,
        cells,
        lines,
        segments_near(segs, lx - 34, hx + 34, ly - 34, hy + 34),
        boxes_near(boxes, lx - 34, hx + 34, ly - 34, hy + 34),
    )
}

/// The least ring, from `f` up to `limit`, whose search finds a fit;
/// `limit + 1` when none does.
pub open spec fn first_fit_ring(p: Cell, cells: Seq<Cell>, occupied: Seq<Cell>, f: int, limit: int) -> int
    decreases limit + 1 - f,
{
    if f > limit {
        limit + 1
    } else if first_fit(search_cells(p, f), cells, occupied) is Some {
        f
    } else {
        first_fit_ring(p, cells, occupied, f + 1, limit)
    }
}

/// How far the connector search scans: two rings past the first that
/// fits, at most `SEARCH_RADIUS`.
pub open spec fn scan_radius(p: Cell, cells: Seq<Cell>, occupied: Seq<Cell>) -> int {
    let f = first_fit_ring(p, cells, occupied, 0, SEARCH_RADIUS as int);
    if f + 2 < SEARCH_RADIUS {
        f + 2
    } else {
        SEARCH_RADIUS as int
    }
}

/// `c` is at place `j` of the scan, fits, scores least among the fitting
/// offsets scanned, and strictly less than every fitting one before it.
pub open spec fn best_in_scan(
    scan: Seq<Cell>,
    j: int,
    c: Cell,
    sc: int,
    p: Cell,
    cells: Seq<Cell>,
    lines: Seq<AnchorLine>,
    segs: Seq<Segment>,
    boxes: Seq<BBox>,
    occupied: Seq<Cell>,
) -> bool {
    &&& 0 <= j < scan.len()
    &&& scan[j] == c
    &&& fits_at(cells, c, occupied)
    &&& sc == offset_score(c, p, cells, lines, segs, boxes)
    &&& forall|q: int|
        0 <= q < scan.len() && fits_at(cells, #[trigger] scan[q], occupied) ==> offset_score(scan[q], p, cells, lines, segs, boxes)
            >= sc
    &&& forall|q: int|
        0 <= q < j && fits_at(cells, #[trigger] scan[q], occupied) ==> offset_score(scan[q], p, cells, lines, segs, boxes)
            > sc
}

/// Connector-aware placement: among the free offsets near `proposed`, the
/// one whose connector lines are shortest and cross the fewest committed
/// lines, and whose cells land least inside other groups' boxes. The
/// search goes two rings past the nearest fit, so a clean spot can beat a
/// marginally closer tangled one. Returns the offset and its score.
#[verifier::rlimit(60)]
pub fn find_best_connector_offset(
    cells: &Vec<Cell>,
    proposed: Cell,
    sheet: &Sheet,
    lines: &Vec<AnchorLine>,
    segments: &Vec<Segment>,
    boxes: &Vec<BBox>,
    Ghost(span): Ghost<int>,
    Ghost(lim): Ghost<int>,
) -> (r: Option<(Cell, i64)>)
    requires
        sheet.wf(),
        cells_within(cells@, span),
        lines_within(lines@, span, lim),
        segments_within(segments@, lim),
        0 <= span,
        0 <= lim,
        span + lim + 128 <= sheet_limit(),
        -lim <= proposed.x <= lim,
        -lim <= proposed.y <= lim,
    ensures
        r is None <==> first_fit(search_cells(proposed, SEARCH_RADIUS as int), cells@, sheet.cells()) is None,
        r matches Some(p) ==> fits_at(cells@, p.0, sheet.cells()) && chebyshev_of(p.0, proposed) <= SEARCH_RADIUS,
        r matches Some(p) ==> exists|j: int|
            #[trigger] best_in_scan(
                search_cells(proposed, scan_radius(proposed, cells@, sheet.cells())),
                j,
                p.0,
                p.1 as int,
                proposed,
                cells@,
                lines@,
                segments@,
                boxes@,
                sheet.cells(),
            ),
{
    let reach: i32 = SEARCH_RADIUS + 4;
    let mut lo_x = proposed.x;
    let mut hi_x = proposed.x;
    let mut lo_y = proposed.y;
    let mut hi_y = proposed.y;
    let mut i: usize = 0;
    while i < lines.len()
        invariant
            i <= lines@.len(),
            lines_within(lines@, span, lim),
            -lim <= lo_x <= lim,
            -lim <= hi_x <= lim,
            -lim <= lo_y <= lim,
            -lim <= hi_y <= lim,
            (lo_x as int, hi_x as int, lo_y as int, hi_y as int) == window(proposed, lines@.take(i as int)),
        decreases lines.len() - i,
    {
        let t = lines[i].target;
        assert(lines@.take(i + 1).drop_last() =~= lines@.take(i as int));
        assert(lines@.take(i + 1).last() == lines@[i as int]);
        if t.x < lo_x {
            lo_x = t.x;
        }
        if t.x > hi_x {
            hi_x = t.x;
        }
        if t.y < lo_y {
            lo_y = t.y;
        }
        if t.y > hi_y {
            hi_y = t.y;
        }
        i = i + 1;
    }
    assert(lines@.take(i as int) =~= lines@);
    let near_segs = near_segments(segments, lo_x - reach, hi_x + reach, lo_y - reach, hi_y + reach, Ghost(lim));
    let near_bxs = near_boxes(boxes, lo_x - reach, hi_x + reach, lo_y - reach, hi_y + reach);
    let mut best: Option<(Cell, i64)> = None;
    let ghost occupied = sheet.cells();
    if fits(cells, proposed, sheet) {
        let score = score_at(proposed, cells, lines, &near_segs, &near_bxs, Ghost(span), Ghost(lim));
        assert(score as int == offset_score(proposed, proposed, cells@, lines@, segments@, boxes@));
        best = Some((proposed, score));
    }
    proof {
        assert(search_cells(proposed, 0).drop_last() =~= Seq::<Cell>::empty());
        assert(search_cells(proposed, 0).last() == proposed);
        assert(first_fit(Seq::<Cell>::empty(), cells@, occupied) is None);
        assert(search_cells(proposed, 0) =~= seq![proposed]);
    }
    let mut first_fit_radius: Option<i32> = None;
    let mut r: i32 = 1;
    proof {
        if best is Some {
            assert(search_cells(proposed, r - 1) =~= seq![proposed]);
            assert(best->Some_0.0 == proposed);
            assert(best_in_scan(search_cells(proposed, r - 1), 0, best->Some_0.0, best->Some_0.1 as int, proposed, cells@, lines@, segments@, boxes@, occupied));
        }
    }
    while r <= SEARCH_RADIUS
        invariant
            1 <= r <= SEARCH_RADIUS + 1,
            sheet.wf(),
            occupied == sheet.cells(),
            cells_within(cells@, span),
            lines_within(lines@, span, lim),
            segments_within(near_segs@, lim),
            0 <= span,
            0 <= lim,
            span + lim + 128 <= sheet_limit(),
            -lim <= proposed.x <= lim,
            -lim <= proposed.y <= lim,
            best is Some <==> first_fit(search_cells(proposed, r - 1), cells@, occupied) is Some,
            best matches Some(p) ==> fits_at(cells@, p.0, occupied) && chebyshev_of(p.0, proposed) <= SEARCH_RADIUS,
            first_fit_radius is Some ==> best is Some,
            first_fit_radius matches Some(f) ==> 0 <= f < r,
            first_fit_radius matches Some(f) ==> f == first_fit_ring(proposed, cells@, occupied, 0, SEARCH_RADIUS as int)
                && r <= f + 3,
            first_fit_radius is None && r >= 2 ==> first_fit(search_cells(proposed, r - 2), cells@, occupied) is None,
            best matches Some(p) ==> exists|j: int|
                #[trigger] best_in_scan(search_cells(proposed, r - 1), j, p.0, p.1 as int, proposed, cells@, lines@, segments@, boxes@, occupied),
            near_segs@ == segments_near(segments@, lo_x - reach, hi_x + reach, lo_y - reach, hi_y + reach),
            near_bxs@ == boxes_near(boxes@, lo_x - reach, hi_x + reach, lo_y - reach, hi_y + reach),
            (lo_x as int, hi_x as int, lo_y as int, hi_y as int) == window(proposed, lines@),
            reach == 34,
            best is Some && r == SEARCH_RADIUS + 1 ==> r - 1 == scan_radius(proposed, cells@, occupied),
        ensures
            1 <= r <= SEARCH_RADIUS + 1,
            occupied == sheet.cells(),
            best is Some <==> first_fit(search_cells(proposed, r - 1), cells@, occupied) is Some,
            best is None ==> r == SEARCH_RADIUS + 1,
            best matches Some(p) ==> fits_at(cells@, p.0, occupied) && chebyshev_of(p.0, proposed) <= SEARCH_RADIUS,
            best matches Some(p) ==> exists|j: int|
                #[trigger] best_in_scan(search_cells(proposed, r - 1), j, p.0, p.1 as int, proposed, cells@, lines@, segments@, boxes@, occupied),
            best is Some ==> r - 1 == scan_radius(proposed, cells@, occupied),
        decreases SEARCH_RADIUS + 1 - r,
    {
        if best.is_some() && first_fit_radius.is_none() {
            proof {
                lemma_first_ring(proposed, cells@, occupied, 0, r - 1);
            }
            first_fit_radius = Some(r - 1);
        }
        match first_fit_radius {
            Some(f) => {
                if r > f + 2 {
                    break;
                }
            },
            None => {},
        }
        let ghost was_none = best is None;
        let ring_at = ring(proposed, r);
        proof {
            lemma_ring_near(proposed, r as int);
        }
        let mut k: usize = 0;
        while k < ring_at.len()
            invariant
                1 <= r <= SEARCH_RADIUS,
                sheet.wf(),
                occupied == sheet.cells(),
                cells_within(cells@, span),
                lines_within(lines@, span, lim),
                segments_within(near_segs@, lim),
                0 <= span,
                0 <= lim,
                span + lim + 128 <= sheet_limit(),
                -lim <= proposed.x <= lim,
                -lim <= proposed.y <= lim,
                ring_at@ == ring_cells(proposed, r as int),
                forall|q: int| 0 <= q < ring_at@.len() ==> proposed.x - r <= (#[trigger] ring_at@[q]).x <= proposed.x + r
                    && proposed.y - r <= ring_at@[q].y <= proposed.y + r,
                k <= ring_at@.len(),
                best is Some <==> first_fit(search_cells(proposed, r - 1) + ring_at@.take(k as int), cells@, occupied) is Some,
                best matches Some(p) ==> fits_at(cells@, p.0, occupied) && chebyshev_of(p.0, proposed) <= SEARCH_RADIUS,
                first_fit_radius is Some ==> best is Some,
                first_fit_radius matches Some(f) ==> 0 <= f < r,
                first_fit_radius matches Some(f) ==> f == first_fit_ring(proposed, cells@, occupied, 0, SEARCH_RADIUS as int)
                    && r <= f + 2,
                first_fit_radius is None ==> first_fit(search_cells(proposed, r - 1), cells@, occupied) is None,
                best matches Some(p) ==> exists|j: int|
                    #[trigger] best_in_scan(search_cells(proposed, r - 1) + ring_at@.take(k as int), j, p.0, p.1 as int, proposed, cells@, lines@, segments@, boxes@, occupied),
                near_segs@ == segments_near(segments@, lo_x - reach, hi_x + reach, lo_y - reach, hi_y + reach),
                near_bxs@ == boxes_near(boxes@, lo_x - reach, hi_x + reach, lo_y - reach, hi_y + reach),
                (lo_x as int, hi_x as int, lo_y as int, hi_y as int) == window(proposed, lines@),
                reach == 34,
            decreases ring_at.len() - k,
        {
            let cand = ring_at[k];
            let ghost pre = search_cells(proposed, r - 1) + ring_at@.take(k as int);
            proof {
                assert(search_cells(proposed, r - 1) + ring_at@.take(k + 1) =~= pre.push(cand));
                assert((pre.push(cand)).drop_last() =~= pre);
                assert(proposed.x - r <= cand.x <= proposed.x + r && proposed.y - r <= cand.y <= proposed.y + r);
            }
            let ghost old_best = best;
            proof {
                if best is None {
                    lemma_first_fit_none(pre, cells@, occupied);
                }
            }
            if fits(cells, cand, sheet) {
                let score = score_at(cand, cells, lines, &near_segs, &near_bxs, Ghost(span), Ghost(lim));
                assert(score as int == offset_score(cand, proposed, cells@, lines@, segments@, boxes@));
                let better = match best {
                    None => true,
                    Some((_, s)) => score < s,
                };
                if better {
                    best = Some((cand, score));
                    proof {
                        let np = pre.push(cand);
                        assert(np[pre.len() as int] == cand);
                        assert forall|q: int| 0 <= q < np.len() && fits_at(cells@, #[trigger] np[q], occupied) implies offset_score(np[q], proposed, cells@, lines@, segments@, boxes@)
                            >= score as int by {
                            if q < pre.len() {
                                assert(np[q] == pre[q]);
                                if old_best is Some {
                                    let j0 = choose|j0: int| #[trigger] best_in_scan(pre, j0, old_best->Some_0.0, old_best->Some_0.1 as int, proposed, cells@, lines@, segments@, boxes@, occupied);
                                }
                            }
                        }
                        assert forall|q: int| 0 <= q < pre.len() && fits_at(cells@, #[trigger] np[q], occupied) implies offset_score(np[q], proposed, cells@, lines@, segments@, boxes@)
                            > score as int by {
                            assert(np[q] == pre[q]);
                            if old_best is Some {
                                let j0 = choose|j0: int| #[trigger] best_in_scan(pre, j0, old_best->Some_0.0, old_best->Some_0.1 as int, proposed, cells@, lines@, segments@, boxes@, occupied);
                            }
                        }
                        assert(best_in_scan(np, pre.len() as int, cand, score as int, proposed, cells@, lines@, segments@, boxes@, occupied));
                    }
                }
            }
            proof {
                let np = pre.push(cand);
                if best is Some && best == old_best {
                    let j0 = choose|j0: int| #[trigger] best_in_scan(pre, j0, old_best->Some_0.0, old_best->Some_0.1 as int, proposed, cells@, lines@, segments@, boxes@, occupied);
                    assert forall|q: int| 0 <= q < np.len() && fits_at(cells@, #[trigger] np[q], occupied) implies offset_score(np[q], proposed, cells@, lines@, segments@, boxes@)
                        >= old_best->Some_0.1 as int by {
                        if q < pre.len() {
                            assert(np[q] == pre[q]);
                        }
                    }
                    assert forall|q: int| 0 <= q < j0 && fits_at(cells@, #[trigger] np[q], occupied) implies offset_score(np[q], proposed, cells@, lines@, segments@, boxes@)
                        > old_best->Some_0.1 as int by {
                        assert(np[q] == pre[q]);
                    }
                    assert(best_in_scan(np, j0, old_best->Some_0.0, old_best->Some_0.1 as int, proposed, cells@, lines@, segments@, boxes@, occupied));
                }
            }
            k = k + 1;
            proof {
                if best is Some {
                    let bp = best->Some_0;
                    let j = choose|j: int| #[trigger] best_in_scan(pre.push(cand), j, bp.0, bp.1 as int, proposed, cells@, lines@, segments@, boxes@, occupied);
                    assert(search_cells(proposed, r - 1) + ring_at@.take(k as int) == pre.push(cand));
                    assert(best_in_scan(search_cells(proposed, r - 1) + ring_at@.take(k as int), j, bp.0, bp.1 as int, proposed, cells@, lines@, segments@, boxes@, occupied));
                }
            }
        }
        assert(ring_at@.take(k as int) =~= ring_at@);
        assert(search_cells(proposed, r as int) == search_cells(proposed, r - 1) + ring_cells(proposed, r as int));
        let ghost scanned = search_cells(proposed, r - 1) + ring_at@.take(k as int);
        r = r + 1;
        proof {
            assert(scanned == search_cells(proposed, r - 1));
            if best is Some {
                let bp = best->Some_0;
                let j = choose|j: int| #[trigger] best_in_scan(scanned, j, bp.0, bp.1 as int, proposed, cells@, lines@, segments@, boxes@, occupied);
                assert(best_in_scan(search_cells(proposed, r - 1), j, bp.0, bp.1 as int, proposed, cells@, lines@, segments@, boxes@, occupied));
                if r == SEARCH_RADIUS + 1 && first_fit_radius is None {
                    lemma_first_ring(proposed, cells@, occupied, 0, SEARCH_RADIUS as int);
                }
                if r == SEARCH_RADIUS + 1 {
                    assert(r - 1 == scan_radius(proposed, cells@, occupied));
                }
            }
        }
    }
    proof {
        if best is Some {
            lemma_first_fit_prefix_some_from(proposed, (r - 1) as int, SEARCH_RADIUS as int, cells@, occupied);
        }
    }
    best
}

} // verus!
