//! `pack_groups`: the packed components placed on one shared sheet in
//! three passes. Groups seated by hand-drawn image coordinates come first;
//! then, outward from a seed, each next component lands beside the placed
//! neighbour it most probably touches; whatever is left lines up in a
//! strip below everything else.

use vstd::prelude::*;

use crate::direction::DirectionMap;
use crate::geometry::{Cell, PackMethod, chebyshev_of};
use crate::model::RoomId;
use crate::group::{Group, min_x_of, min_y_of, max_x_of};
use crate::model::RoomMap;
use crate::packer::{
    add_bridged_edges, connector_edges, AnchorLine, BBox, Edge, final_at, final_cell_at, find_best_connector_offset, lines_within, GROUP_PADDING, SEARCH_RADIUS, Segment, Sheet, aligned, boxes_within, cells_within, commit_segments,
    edge_ok, find_free_offset, fits_at, lemma_bounds_within, listed, offset_within, offsets_within, place_group,
    segments_within, shifted, shifted_cells, sheet_limit, spans_within,
};
use crate::positioner::cells_of;

verus! {

/// How far from zero a component's own cells may lie for `n` components
/// to pack without leaving the sheet.
pub open spec fn sheet_room(n: int) -> int {
    sheet_limit() / (2 * (n + 2)) - 32
}

/// How many entries are set.
pub open spec fn count_true(s: Seq<bool>) -> nat
    decreases s.len(),
{
    if s.len() == 0 {
        0
    } else {
        count_true(s.drop_last()) + if s.last() {
            1nat
        } else {
            0nat
        }
    }
}

pub proof fn lemma_count_le(s: Seq<bool>)
    ensures
        count_true(s) <= s.len(),
    decreases s.len(),
{
    if s.len() > 0 {
        lemma_count_le(s.drop_last());
    }
}

pub proof fn lemma_count_set(s: Seq<bool>, i: int)
    requires
        0 <= i < s.len(),
        !s[i],
    ensures
        count_true(s.update(i, true)) == count_true(s) + 1,
        count_true(s) < s.len(),
    decreases s.len(),
{
    let t = s.update(i, true);
    if i == s.len() - 1 {
        assert(t.drop_last() =~= s.drop_last());
        lemma_count_le(s.drop_last());
    } else {
        lemma_count_set(s.drop_last(), i);
        assert(t.drop_last() =~= s.drop_last().update(i, true));
    }
}

/// The edges of each group: sound, and between packed groups.
pub open spec fn edges_ok(edges: Seq<Vec<Edge>>, groups: Seq<Group>, packed: Seq<usize>) -> bool {
    &&& edges.len() == groups.len()
    &&& forall|g: int, j: int|
        0 <= g < edges.len() && 0 <= j < edges[g]@.len() ==> edge_ok(#[trigger] edges[g]@[j], g, groups)
            && listed(packed, g) && listed(packed, edges[g]@[j].other_group as int)
}

/// Only offsets and packing methods differ.
pub open spec fn same_shape(a: Seq<Group>, b: Seq<Group>) -> bool {
    &&& a.len() == b.len()
    &&& forall|g: int|
        0 <= g < a.len() ==> (#[trigger] a[g]).room_ids == b[g].room_ids && a[g].positions == b[g].positions
            && a[g].index == b[g].index && a[g].violations == b[g].violations && a[g].name == b[g].name
}

/// Every packed index names a group with at least one room.
pub open spec fn packed_ok(groups: Seq<Group>, packed: Seq<usize>) -> bool {
    forall|i: int|
        0 <= i < packed.len() ==> #[trigger] packed[i] < groups.len() && groups[packed[i] as int].positions@.len()
            > 0
}

/// What holds of the groups for the whole packing: their cells within
/// `span`, and room on the sheet for every component to move `step`
/// further out than the last.
spec fn frame(groups: Seq<Group>, packed: Seq<usize>, span: int, step: int) -> bool {
    &&& 0 <= span
    &&& step == 2 * span + 64
    &&& (groups.len() + 2) * step <= sheet_limit()
    &&& spans_within(groups, span)
    &&& aligned(groups)
    &&& packed_ok(groups, packed)
}

/// The shared sheet and what the passes add to it.
struct PackingState {
    sheet: Sheet,
    placed: Vec<bool>,
    segments: Vec<Segment>,
    boxes: Vec<BBox>,
    /// The placed groups, in the order they were placed.
    order: Ghost<Seq<usize>>,
}

/// A placed group's cells on the sheet.
pub open spec fn placed_cells(g: Group) -> Seq<Cell> {
    shifted_cells(g.positions@, g.base_offset.unwrap())
}

/// The cells the groups in `order` occupy, in that order.
pub open spec fn sheet_of(groups: Seq<Group>, order: Seq<usize>) -> Seq<Cell>
    decreases order.len(),
{
    if order.len() == 0 {
        Seq::empty()
    } else {
        sheet_of(groups, order.drop_last()) + placed_cells(groups[order.last() as int])
    }
}

/// Placed by a search that found free cells: by the image pass or the
/// connector pass.
pub open spec fn fitted(m: Option<PackMethod>) -> bool {
    m == Some(PackMethod::Image) || m == Some(PackMethod::Connector)
}

/// The sheet holds exactly the placed groups' cells, in placement order,
/// and a group placed by a search that found free cells landed on none
/// of the groups placed before it.
spec fn order_ok(st: PackingState, groups: Seq<Group>) -> bool {
    let order = st.order@;
    &&& st.sheet.cells() == sheet_of(groups, order)
    &&& order.no_duplicates()
    &&& forall|i: int| 0 <= i < order.len() ==> #[trigger] order[i] < groups.len() && st.placed@[order[i] as int]
    &&& forall|g: int| 0 <= g < groups.len() && #[trigger] st.placed@[g] ==> order.contains(g as usize)
    &&& forall|j: int, k: int|
        0 <= j < order.len() && fitted(groups[order[j] as int].packing) && 0 <= k < placed_cells(groups[order[j] as int]).len()
            ==> !sheet_of(groups, order.take(j)).contains(#[trigger] placed_cells(groups[order[j] as int])[k])
}

proof fn lemma_sheet_of_same(a: Seq<Group>, b: Seq<Group>, order: Seq<usize>)
    requires
        forall|i: int| 0 <= i < order.len() ==> a[#[trigger] order[i] as int] == b[order[i] as int],
    ensures
        sheet_of(a, order) == sheet_of(b, order),
    decreases order.len(),
{
    if order.len() > 0 {
        let d = order.drop_last();
        assert forall|i: int| 0 <= i < d.len() implies a[#[trigger] d[i] as int] == b[d[i] as int] by {
            assert(d[i] == order[i]);
        }
        lemma_sheet_of_same(a, b, d);
        assert(order.last() == order[order.len() - 1]);
    }
}

/// The cells of a group placed before place `j` are on the sheet as it
/// stood then.
proof fn lemma_sheet_of_holds(groups: Seq<Group>, order: Seq<usize>, i: int, j: int, k: int)
    requires
        0 <= i < j <= order.len(),
        0 <= k < placed_cells(groups[order[i] as int]).len(),
    ensures
        sheet_of(groups, order.take(j)).contains(placed_cells(groups[order[i] as int])[k]),
    decreases j,
{
    let t = order.take(j);
    assert(t.drop_last() =~= order.take(j - 1));
    assert(t.last() == order[j - 1]);
    let prev = sheet_of(groups, order.take(j - 1));
    let here = placed_cells(groups[order[j - 1] as int]);
    assert(sheet_of(groups, t) == prev + here);
    if i == j - 1 {
        assert((prev + here)[prev.len() + k] == here[k]);
    } else {
        lemma_sheet_of_holds(groups, order, i, j - 1, k);
        let q = choose|q: int| 0 <= q < prev.len() && prev[q] == placed_cells(groups[order[i] as int])[k];
        assert((prev + here)[q] == prev[q]);
    }
}

/// Each placed component's offset lies within `b`, and so does everything
/// committed, give or take the components' own span; `b` grows by `step`
/// with each placement.
spec fn state_ok(st: PackingState, groups: Seq<Group>, span: int, b: int, step: int) -> bool {
    &&& st.sheet.wf()
    &&& st.placed@.len() == groups.len()
    &&& offsets_within(groups, st.placed@, b)
    &&& cells_within(st.sheet.cells(), span + b)
    &&& segments_within(st.segments@, span + b)
    &&& boxes_within(st.boxes@, span + b)
    &&& 0 <= b <= count_true(st.placed@) * step
    &&& order_ok(st, groups)
}

proof fn lemma_frame_kept(a: Seq<Group>, b: Seq<Group>, packed: Seq<usize>, span: int, step: int)
    requires
        frame(a, packed, span, step),
        same_shape(a, b),
    ensures
        frame(b, packed, span, step),
{
    assert forall|g: int| 0 <= g < b.len() implies cells_within(cells_of((#[trigger] b[g]).positions@), span) by {
        assert(a[g].positions == b[g].positions);
        assert(cells_within(cells_of(a[g].positions@), span));
    }
    assert forall|g: int| 0 <= g < b.len() implies (#[trigger] b[g]).positions@.len() == b[g].room_ids@.len()
        && forall|k: int| 0 <= k < b[g].positions@.len() ==> (#[trigger] b[g].positions@[k]).0 == b[g].room_ids@[k] by {
        assert(a[g].positions == b[g].positions && a[g].room_ids == b[g].room_ids);
        assert(a[g].positions@.len() == a[g].room_ids@.len());
        assert forall|k: int| 0 <= k < b[g].positions@.len() implies (#[trigger] b[g].positions@[k]).0
            == b[g].room_ids@[k] by {
            assert(a[g].positions@[k].0 == a[g].room_ids@[k]);
        }
    }
    assert forall|i: int| 0 <= i < packed.len() implies #[trigger] packed[i] < b.len() && b[packed[i] as int].positions@.len()
        > 0 by {
        assert(packed[i] < a.len() && a[packed[i] as int].positions@.len() > 0);
        assert(a[packed[i] as int].positions == b[packed[i] as int].positions);
    }
}

proof fn lemma_edges_kept(edges: Seq<Vec<Edge>>, a: Seq<Group>, b: Seq<Group>, packed: Seq<usize>)
    requires
        edges_ok(edges, a, packed),
        same_shape(a, b),
    ensures
        edges_ok(edges, b, packed),
{
    assert forall|g: int, j: int| 0 <= g < edges.len() && 0 <= j < edges[g]@.len() implies edge_ok(
        #[trigger] edges[g]@[j],
        g,
        b,
    ) && listed(packed, g) && listed(packed, edges[g]@[j].other_group as int) by {
        let e = edges[g]@[j];
        assert(edge_ok(e, g, a));
        assert(a[g].room_ids == b[g].room_ids);
        assert(a[e.other_group as int].room_ids == b[e.other_group as int].room_ids);
    }
}

/// The moved cells of a component lie within its span plus the move.
proof fn lemma_shifted_within(ps: Seq<(crate::model::RoomId, Cell)>, off: Cell, span: int, b: int)
    requires
        cells_within(cells_of(ps), span),
        -b <= off.x <= b,
        -b <= off.y <= b,
    ensures
        cells_within(shifted_cells(ps, off), span + b),
{
    assert forall|k: int| 0 <= k < shifted_cells(ps, off).len() implies -(span + b) <= (#[trigger] shifted_cells(
        ps,
        off,
    )[k]).x <= span + b && -(span + b) <= shifted_cells(ps, off)[k].y <= span + b by {
        assert(cells_of(ps)[k] == ps[k].1);
    }
}

proof fn lemma_cells_join(a: Seq<Cell>, c: Seq<Cell>, lo: int, hi: int)
    requires
        cells_within(a, lo),
        cells_within(c, hi),
        lo <= hi,
    ensures
        cells_within(a + c, hi),
{
    assert forall|k: int| 0 <= k < (a + c).len() implies -hi <= (#[trigger] (a + c)[k]).x <= hi && -hi <= (a
        + c)[k].y <= hi by {
        if k < a.len() {
            assert((a + c)[k] == a[k]);
        } else {
            assert((a + c)[k] == c[k - a.len()]);
        }
    }
}

proof fn lemma_lines_wider(segs: Seq<Segment>, boxes: Seq<BBox>, lo: int, hi: int)
    requires
        segments_within(segs, lo),
        boxes_within(boxes, lo),
        lo <= hi,
    ensures
        segments_within(segs, hi),
        boxes_within(boxes, hi),
{
    assert forall|k: int| 0 <= k < segs.len() implies -hi <= (#[trigger] segs[k]).a.x <= hi && -hi <= segs[k].a.y
        <= hi && -hi <= segs[k].b.x <= hi && -hi <= segs[k].b.y <= hi by {}
    assert forall|k: int| 0 <= k < boxes.len() implies -hi <= (#[trigger] boxes[k]).min_x <= hi && -hi
        <= boxes[k].max_x <= hi && -hi <= boxes[k].min_y <= hi && -hi <= boxes[k].max_y <= hi by {}
}

/// Room for one more placement: after `c` of `n`, the next offset bound
/// and everything built on it stay on the sheet.
proof fn lemma_budget(c: int, n: int, step: int)
    requires
        0 <= c < n,
        0 <= step,
        (n + 2) * step <= sheet_limit(),
    ensures
        (c + 1) * step == c * step + step,
        (c + 1) * step <= n * step,
        n * step + 2 * step <= sheet_limit(),
{
    assert((c + 1) * step == c * step + step) by (nonlinear_arith);
    assert((c + 1) * step <= n * step) by (nonlinear_arith)
        requires
            c + 1 <= n,
            0 <= step,
    ;
    assert((n + 2) * step == n * step + 2 * step) by (nonlinear_arith);
}

/// However many of the `n` components are placed, two more steps fit.
proof fn lemma_room_left(c: int, n: int, step: int)
    requires
        0 <= c <= n,
        0 <= step,
        (n + 2) * step <= sheet_limit(),
    ensures
        c * step + 2 * step <= sheet_limit(),
{
    assert(c * step + 2 * step <= (n + 2) * step) by (nonlinear_arith)
        requires
            c <= n,
            0 <= step,
    ;
}

/// The cells of a component, in order.
fn group_cells(group: &Group) -> (cells: Vec<Cell>)
    ensures
        cells@ == cells_of(group.positions@),
{
    let mut cells: Vec<Cell> = Vec::new();
    let mut k: usize = 0;
    while k < group.positions.len()
        invariant
            k <= group.positions@.len(),
            cells@ == cells_of(group.positions@.take(k as int)),
        decreases group.positions.len() - k,
    {
        cells.push(group.positions[k].1);
        assert(cells_of(group.positions@.take(k + 1)) =~= cells_of(group.positions@.take(k as int)).push(
            group.positions@[k as int].1,
        ));
        k = k + 1;
    }
    assert(group.positions@.take(k as int) =~= group.positions@);
    cells
}

/// Seats group `idx` at `offset`, marks it placed and, with `commit`,
/// commits its lines and box.
fn seat(
    groups: &mut Vec<Group>,
    idx: usize,
    offset: Cell,
    method: PackMethod,
    commit: bool,
    edges: &Vec<Vec<Edge>>,
    packed: &Vec<usize>,
    map: &RoomMap,
    dirs: &DirectionMap,
    st: &mut PackingState,
    Ghost(span): Ghost<int>,
    Ghost(b): Ghost<int>,
    Ghost(step): Ghost<int>,
)
    requires
        frame(old(groups)@, packed@, span, step),
        edges_ok(edges@, old(groups)@, packed@),
        state_ok(*old(st), old(groups)@, span, b, step),
        idx < old(groups)@.len(),
        listed(packed@, idx as int),
        !old(st).placed@[idx as int],
        -(b + step) <= offset.x <= b + step,
        -(b + step) <= offset.y <= b + step,
        fitted(Some(method)) ==> fits_at(cells_of(old(groups)@[idx as int].positions@), offset, old(st).sheet.cells()),
    ensures
        same_shape(old(groups)@, final(groups)@),
        frame(final(groups)@, packed@, span, step),
        edges_ok(edges@, final(groups)@, packed@),
        state_ok(*final(st), final(groups)@, span, b + step, step),
        final(st).placed@ == old(st).placed@.update(idx as int, true),
        final(groups)@[idx as int].base_offset == Some(offset),
        final(groups)@[idx as int].packing == Some(method),
        forall|g: int| 0 <= g < old(groups)@.len() && g != idx ==> #[trigger] final(groups)@[g] == old(groups)@[g],
{
    let ghost g0 = groups@;
    let ghost p0 = st.placed@;
    let ghost n = g0.len() as int;
    proof {
        lemma_count_set(p0, idx as int);
        lemma_count_le(p0);
        lemma_budget(count_true(p0) as int, n, step);
        let w = choose|w: int| 0 <= w < packed@.len() && packed@[w] as int == idx as int;
        assert(packed@[w] < g0.len() && g0[packed@[w] as int].positions@.len() > 0);
    }
    let ghost o0 = st.order@;
    let ghost s0 = st.sheet.cells();
    place_group(groups, idx, offset, method, &mut st.sheet, &mut st.placed, Ghost(span));
    proof {
        st.order = Ghost(o0.push(idx));
        let o1 = st.order@;
        assert(!o0.contains(idx)) by {
            if o0.contains(idx) {
                let i = choose|i: int| 0 <= i < o0.len() && o0[i] == idx;
                assert(p0[o0[i] as int]);
            }
        }
        assert forall|i: int| 0 <= i < o0.len() implies g0[#[trigger] o0[i] as int] == groups@[o0[i] as int] by {
            assert(p0[o0[i] as int]);
        }
        lemma_sheet_of_same(g0, groups@, o0);
        assert(o1.drop_last() =~= o0);
        assert(o1.last() == idx);
        assert(placed_cells(groups@[idx as int]) == shifted_cells(g0[idx as int].positions@, offset));
        assert(st.sheet.cells() == sheet_of(groups@, o1));
        assert forall|i: int| 0 <= i < o1.len() implies #[trigger] o1[i] < groups@.len() && st.placed@[o1[i] as int] by {
            if i < o0.len() {
                assert(o1[i] == o0[i]);
            }
        }
        assert forall|g: int| 0 <= g < groups@.len() && #[trigger] st.placed@[g] implies o1.contains(g as usize) by {
            if g == idx {
                assert(o1[o0.len() as int] == idx);
            } else {
                assert(p0[g]);
                let i = choose|i: int| 0 <= i < o0.len() && o0[i] == g as usize;
                assert(o1[i] == o0[i]);
            }
        }
        assert(o1.no_duplicates()) by {
            assert forall|a: int, c: int| 0 <= a < o1.len() && 0 <= c < o1.len() && a != c implies o1[a] != o1[c] by {
                if a < o0.len() && c < o0.len() {
                    assert(o1[a] == o0[a] && o1[c] == o0[c]);
                } else if a < o0.len() {
                    assert(o1[a] == o0[a]);
                    assert(o0.contains(o0[a]));
                } else if c < o0.len() {
                    assert(o1[c] == o0[c]);
                    assert(o0.contains(o0[c]));
                }
            }
        }
        assert forall|j: int, k: int|
            0 <= j < o1.len() && fitted(groups@[o1[j] as int].packing) && 0 <= k < placed_cells(
                groups@[o1[j] as int],
            ).len() implies !sheet_of(groups@, o1.take(j)).contains(#[trigger] placed_cells(groups@[o1[j] as int])[k]) by {
            if j < o0.len() {
                assert(o1[j] == o0[j]);
                assert(o1.take(j) =~= o0.take(j));
                assert forall|i: int| 0 <= i < o0.take(j).len() implies g0[#[trigger] o0.take(j)[i] as int]
                    == groups@[o0.take(j)[i] as int] by {
                    assert(o0.take(j)[i] == o0[i]);
                    assert(p0[o0[i] as int]);
                }
                lemma_sheet_of_same(g0, groups@, o0.take(j));
                assert(g0[o0[j] as int] == groups@[o0[j] as int]) by {
                    assert(p0[o0[j] as int]);
                }
            } else {
                assert(o1[j] == idx);
                assert(o1.take(j) =~= o0);
                let c = placed_cells(groups@[idx as int])[k];
                assert(c == shifted(cells_of(g0[idx as int].positions@)[k], offset));
            }
        }
        assert(same_shape(g0, groups@));
        lemma_frame_kept(g0, groups@, packed@, span, step);
        lemma_edges_kept(edges@, g0, groups@, packed@);
        assert forall|g: int| 0 <= g < groups@.len() && #[trigger] st.placed@[g] implies offset_within(
            groups@[g],
            b + step,
        ) by {
            if g != idx {
                assert(p0[g]);
                assert(offset_within(g0[g], b));
            }
        }
        assert(cells_within(cells_of(g0[idx as int].positions@), span));
        lemma_shifted_within(g0[idx as int].positions@, offset, span, b + step);
        lemma_cells_join(old(st).sheet.cells(), shifted_cells(g0[idx as int].positions@, offset), span + b, span + b + step);
        lemma_lines_wider(st.segments@, st.boxes@, span + b, span + b + step);
    }
    if commit {
        commit_segments(
            groups,
            idx,
            edges,
            packed,
            &st.placed,
            map,
            dirs,
            &mut st.segments,
            &mut st.boxes,
            Ghost(span),
            Ghost(b + step),
        );
    }
}

/// A method of the outdoor passes.
pub open spec fn outdoor_method(m: PackMethod) -> bool {
    m is Image || m is Connector || m is Seed || m is Strip
}

/// What the passes have done so far: each placed group is a packed one
/// with an outdoor packing method, and every other group is as it came.
spec fn marks_ok(st: PackingState, groups: Seq<Group>, start: Seq<Group>, packed: Seq<usize>) -> bool {
    &&& groups.len() == start.len()
    &&& st.placed@.len() == groups.len()
    &&& forall|g: int|
        0 <= g < groups.len() && #[trigger] st.placed@[g] ==> listed(packed, g) && groups[g].base_offset is Some && (
        groups[g].packing matches Some(m) && outdoor_method(m))
    &&& forall|g: int| 0 <= g < groups.len() && !st.placed@[g] ==> #[trigger] groups[g] == start[g]
}

/// Whether `g` is in the list.
fn in_packed(list: &Vec<usize>, g: usize) -> (b: bool)
    ensures
        b == listed(list@, g as int),
{
    let mut i: usize = 0;
    while i < list.len()
        invariant
            i <= list@.len(),
            forall|q: int| 0 <= q < i ==> list@[q] != g,
        decreases list.len() - i,
    {
        if list[i] == g {
            return true;
        }
        i = i + 1;
    }
    false
}

proof fn lemma_cells_wider(cells: Seq<Cell>, lo: int, hi: int)
    requires
        cells_within(cells, lo),
        lo <= hi,
    ensures
        cells_within(cells, hi),
{
    assert forall|k: int| 0 <= k < cells.len() implies -hi <= (#[trigger] cells[k]).x <= hi && -hi <= cells[k].y
        <= hi by {}
}

/// Pass one: each seat, a packed group and the offset its hand-drawn
/// coordinates imply, placed at the nearest free offset, in the order
/// given; a group already placed, or with no free offset near, is
/// skipped.
fn pack_image_seats(
    groups: &mut Vec<Group>,
    seats: &Vec<(usize, Cell)>,
    edges: &Vec<Vec<Edge>>,
    packed: &Vec<usize>,
    map: &RoomMap,
    dirs: &DirectionMap,
    st: &mut PackingState,
    Ghost(start): Ghost<Seq<Group>>,
    Ghost(span): Ghost<int>,
    Ghost(b): Ghost<int>,
    Ghost(step): Ghost<int>,
) -> (nb: Ghost<int>)
    requires
        frame(old(groups)@, packed@, span, step),
        edges_ok(edges@, old(groups)@, packed@),
        state_ok(*old(st), old(groups)@, span, b, step),
        marks_ok(*old(st), old(groups)@, start, packed@),
        same_shape(start, old(groups)@),
        forall|i: int| 0 <= i < seats@.len() ==> -span <= (#[trigger] seats@[i]).1.x <= span && -span <= seats@[i].1.y
            <= span,
    ensures
        frame(final(groups)@, packed@, span, step),
        edges_ok(edges@, final(groups)@, packed@),
        state_ok(*final(st), final(groups)@, span, nb@, step),
        marks_ok(*final(st), final(groups)@, start, packed@),
        same_shape(start, final(groups)@),
{
    let ghost mut bb = b;
    let mut i: usize = 0;
    while i < seats.len()
        invariant
            i <= seats@.len(),
            frame(groups@, packed@, span, step),
            edges_ok(edges@, groups@, packed@),
            state_ok(*st, groups@, span, bb, step),
            marks_ok(*st, groups@, start, packed@),
            same_shape(start, groups@),
            forall|q: int| 0 <= q < seats@.len() ==> -span <= (#[trigger] seats@[q]).1.x <= span && -span
                <= seats@[q].1.y <= span,
        decreases seats.len() - i,
    {
        let (idx, proposed) = seats[i];
        assert(-span <= seats@[i as int].1.x <= span && -span <= seats@[i as int].1.y <= span);
        i = i + 1;
        if idx >= groups.len() || !in_packed(packed, idx) || st.placed[idx] {
            continue;
        }
        let cells = group_cells(&groups[idx]);
        proof {
            lemma_count_set(st.placed@, idx as int);
            lemma_budget(count_true(st.placed@) as int, groups@.len() as int, step);
            assert(cells_within(cells_of(groups@[idx as int].positions@), span));
            lemma_cells_wider(cells@, span, sheet_limit());
        }
        match find_free_offset(&cells, proposed, &st.sheet) {
            Some(offset) => {
                let ghost g1 = groups@;
                let ghost s1 = *st;
                seat(groups, idx, offset, PackMethod::Image, true, edges, packed, map, dirs, st, Ghost(span), Ghost(bb), Ghost(step));
                proof {
                    bb = bb + step;
                    lemma_marks_after_seat(s1, *st, g1, groups@, start, packed@, idx as int);
                }
            },
            None => {},
        }
    }
    Ghost(bb)
}

/// The least column of the cells, counted from zero.
pub open spec fn least_column(cells: Seq<Cell>) -> int
    decreases cells.len(),
{
    if cells.len() == 0 {
        0
    } else {
        let m = least_column(cells.drop_last());
        if cells.last().x < m {
            cells.last().x as int
        } else {
            m
        }
    }
}

/// The greatest row of the cells, counted from zero.
pub open spec fn greatest_row(cells: Seq<Cell>) -> int
    decreases cells.len(),
{
    if cells.len() == 0 {
        0
    } else {
        let m = greatest_row(cells.drop_last());
        if cells.last().y > m {
            cells.last().y as int
        } else {
            m
        }
    }
}

/// The occupied extent as the seed and strip passes read it: the least
/// column and the greatest row, each counted from zero.
fn occupied_bounds(sheet: &Sheet, Ghost(lim): Ghost<int>) -> (r: (i32, i32))
    requires
        cells_within(sheet.cells(), lim),
        0 <= lim,
    ensures
        -lim <= r.0 <= 0,
        0 <= r.1 <= lim,
        r.0 == least_column(sheet.cells()),
        r.1 == greatest_row(sheet.cells()),
{
    let cells = sheet.occupied();
    let mut min_x: i32 = 0;
    let mut max_y: i32 = 0;
    let mut k: usize = 0;
    while k < cells.len()
        invariant
            k <= cells@.len(),
            cells@ == sheet.cells(),
            cells_within(cells@, lim),
            -lim <= min_x <= 0,
            0 <= max_y <= lim,
            min_x == least_column(cells@.take(k as int)),
            max_y == greatest_row(cells@.take(k as int)),
        decreases cells.len() - k,
    {
        let c = cells[k];
        assert(cells@.take(k + 1).drop_last() =~= cells@.take(k as int));
        assert(cells@.take(k + 1).last() == c);
        assert(-lim <= cells@[k as int].x <= lim && -lim <= cells@[k as int].y <= lim);
        if c.x < min_x {
            min_x = c.x;
        }
        if c.y > max_y {
            max_y = c.y;
        }
        k = k + 1;
    }
    assert(cells@.take(k as int) =~= cells@);
    (min_x, max_y)
}

/// The first unplaced packed group with the most rooms.
fn largest_unplaced(groups: &Vec<Group>, packed: &Vec<usize>, placed: &Vec<bool>) -> (r: Option<usize>)
    requires
        packed_ok(groups@, packed@),
        placed@.len() == groups@.len(),
    ensures
        r is None <==> forall|i: int| 0 <= i < packed@.len() ==> placed@[#[trigger] packed@[i] as int],
        r matches Some(g) ==> g < groups@.len() && listed(packed@, g as int) && !placed@[g as int],
{
    let mut pick: Option<usize> = None;
    let mut i: usize = 0;
    while i < packed.len()
        invariant
            i <= packed@.len(),
            packed_ok(groups@, packed@),
            placed@.len() == groups@.len(),
            pick is None <==> forall|q: int| 0 <= q < i ==> placed@[#[trigger] packed@[q] as int],
            pick matches Some(g) ==> g < groups@.len() && listed(packed@, g as int) && !placed@[g as int],
        decreases packed.len() - i,
    {
        let idx = packed[i];
        assert(packed@[i as int] < groups@.len());
        if !placed[idx] {
            let better = match pick {
                None => true,
                Some(p) => groups[idx].room_ids.len() > groups[p].room_ids.len(),
            };
            if better {
                pick = Some(idx);
            }
        }
        i = i + 1;
    }
    pick
}

/// Pass three: every packed group still unplaced, largest first, in a
/// strip below everything else, left to right from the least occupied
/// column, three cells apart.
fn pack_strip_fallback(
    groups: &mut Vec<Group>,
    edges: &Vec<Vec<Edge>>,
    packed: &Vec<usize>,
    map: &RoomMap,
    dirs: &DirectionMap,
    st: &mut PackingState,
    Ghost(start): Ghost<Seq<Group>>,
    Ghost(span): Ghost<int>,
    Ghost(b): Ghost<int>,
    Ghost(step): Ghost<int>,
)
    requires
        frame(old(groups)@, packed@, span, step),
        edges_ok(edges@, old(groups)@, packed@),
        state_ok(*old(st), old(groups)@, span, b, step),
        marks_ok(*old(st), old(groups)@, start, packed@),
        same_shape(start, old(groups)@),
    ensures
        marks_ok(*final(st), final(groups)@, start, packed@),
        same_shape(start, final(groups)@),
        forall|i: int| 0 <= i < packed@.len() ==> final(st).placed@[#[trigger] packed@[i] as int],
        order_ok(*final(st), final(groups)@),
{
    let ghost mut bb = b;
    proof {
        lemma_count_le(st.placed@);
        lemma_room_left(count_true(st.placed@) as int, groups@.len() as int, step);
    }
    let (min_x, max_y) = occupied_bounds(&st.sheet, Ghost(span + b));
    let strip_y = max_y + GROUP_PADDING;
    let mut cursor_x = min_x;
    loop
        invariant
            frame(groups@, packed@, span, step),
            edges_ok(edges@, groups@, packed@),
            state_ok(*st, groups@, span, bb, step),
            marks_ok(*st, groups@, start, packed@),
            same_shape(start, groups@),
            b <= bb,
            3 <= strip_y <= span + bb + 3,
            -(span + bb) <= cursor_x <= span + bb,
        ensures
            marks_ok(*st, groups@, start, packed@),
            same_shape(start, groups@),
            forall|i: int| 0 <= i < packed@.len() ==> st.placed@[#[trigger] packed@[i] as int],
            order_ok(*st, groups@),
        decreases groups@.len() - count_true(st.placed@),
    {
        let idx = match largest_unplaced(groups, packed, &st.placed) {
            None => {
                break;
            },
            Some(g) => g,
        };
        let bounds = groups[idx].bounds();
        let ghost n = groups@.len() as int;
        proof {
            lemma_count_set(st.placed@, idx as int);
            lemma_budget(count_true(st.placed@) as int, n, step);
            let w = choose|w: int| 0 <= w < packed@.len() && packed@[w] as int == idx as int;
            assert(packed@[w] < groups@.len() && groups@[packed@[w] as int].positions@.len() > 0);
            assert(cells_within(cells_of(groups@[idx as int].positions@), span));
            lemma_bounds_within(groups@[idx as int].positions@, span);
        }
        let proposed = Cell { x: cursor_x - bounds.min_x, y: strip_y - bounds.min_y };
        let cells = group_cells(&groups[idx]);
        proof {
            lemma_cells_wider(cells@, span, sheet_limit());
        }
        let offset = match find_free_offset(&cells, proposed, &st.sheet) {
            Some(c) => c,
            None => proposed,
        };
        let width = bounds.width();
        let ghost g1 = groups@;
        let ghost s1 = *st;
        seat(groups, idx, offset, PackMethod::Strip, false, edges, packed, map, dirs, st, Ghost(span), Ghost(bb), Ghost(step));
        proof {
            bb = bb + step;
            lemma_marks_after_seat(s1, *st, g1, groups@, start, packed@, idx as int);
        }
        cursor_x = cursor_x + width + GROUP_PADDING;
    }
}

/// The edges whose far group is placed, in order.
pub open spec fn placed_edges(es: Seq<Edge>, placed: Seq<bool>) -> Seq<Edge>
    decreases es.len(),
{
    if es.len() == 0 {
        Seq::empty()
    } else {
        let r = placed_edges(es.drop_last(), placed);
        if placed[es.last().other_group as int] {
            r.push(es.last())
        } else {
            r
        }
    }
}

/// The least uid gap among the edges; the largest value for none.
pub open spec fn least_gap(es: Seq<Edge>) -> u64
    decreases es.len(),
{
    if es.len() == 0 {
        u64::MAX
    } else {
        let m = least_gap(es.drop_last());
        if es.last().uid_delta < m {
            es.last().uid_delta
        } else {
            m
        }
    }
}

proof fn lemma_placed_edges_from(es: Seq<Edge>, placed: Seq<bool>)
    ensures
        forall|k: int| 0 <= k < placed_edges(es, placed).len() ==> es.contains(#[trigger] placed_edges(es, placed)[k])
            && placed[placed_edges(es, placed)[k].other_group as int],
    decreases es.len(),
{
    if es.len() > 0 {
        let d = es.drop_last();
        lemma_placed_edges_from(d, placed);
        let r = placed_edges(d, placed);
        assert forall|k: int| 0 <= k < placed_edges(es, placed).len() implies es.contains(
            #[trigger] placed_edges(es, placed)[k],
        ) && placed[placed_edges(es, placed)[k].other_group as int] by {
            if k < r.len() {
                assert(placed_edges(es, placed)[k] == r[k]);
                let j = choose|j: int| 0 <= j < d.len() && d[j] == r[k];
                assert(es[j] == d[j]);
            } else {
                assert(placed_edges(es, placed)[k] == es.last());
                assert(es[es.len() - 1] == es.last());
            }
        }
    }
}

/// The group's edges to placed groups, in order.
fn placed_edges_of(es: &Vec<Edge>, placed: &Vec<bool>) -> (out: Vec<Edge>)
    requires
        forall|j: int| 0 <= j < es@.len() ==> (#[trigger] es@[j]).other_group < placed@.len(),
    ensures
        out@ == placed_edges(es@, placed@),
{
    let mut out: Vec<Edge> = Vec::new();
    let mut j: usize = 0;
    while j < es.len()
        invariant
            j <= es@.len(),
            forall|q: int| 0 <= q < es@.len() ==> (#[trigger] es@[q]).other_group < placed@.len(),
            out@ == placed_edges(es@.take(j as int), placed@),
        decreases es.len() - j,
    {
        let e = es[j];
        assert(es@.take(j + 1).drop_last() =~= es@.take(j as int));
        assert(es@.take(j + 1).last() == e);
        if placed[e.other_group] {
            out.push(e);
        }
        j = j + 1;
    }
    assert(es@.take(j as int) =~= es@);
    out
}

/// The least uid gap among the edges.
fn least_gap_of(es: &Vec<Edge>) -> (m: u64)
    ensures
        m == least_gap(es@),
{
    let mut m: u64 = u64::MAX;
    let mut j: usize = 0;
    while j < es.len()
        invariant
            j <= es@.len(),
            m == least_gap(es@.take(j as int)),
        decreases es.len() - j,
    {
        assert(es@.take(j + 1).drop_last() =~= es@.take(j as int));
        assert(es@.take(j + 1).last() == es@[j as int]);
        if es[j].uid_delta < m {
            m = es[j].uid_delta;
        }
        j = j + 1;
    }
    assert(es@.take(j as int) =~= es@);
    m
}

/// Entry `i` of the packed list is an unplaced, undeferred group with an
/// edge to a placed one.
pub open spec fn connects(
    packed: Seq<usize>,
    edges: Seq<Vec<Edge>>,
    placed: Seq<bool>,
    deferred: Seq<bool>,
    i: int,
) -> bool {
    &&& 0 <= i < packed.len()
    &&& !placed[packed[i] as int]
    &&& !deferred[packed[i] as int]
    &&& placed_edges(edges[packed[i] as int]@, placed).len() > 0
}

/// Entry `i` is more connected than entry `q`: more edges to placed
/// groups, or as many with a smaller least uid gap.
pub open spec fn more_connected(packed: Seq<usize>, edges: Seq<Vec<Edge>>, placed: Seq<bool>, i: int, q: int) -> bool {
    let ei = placed_edges(edges[packed[i] as int]@, placed);
    let eq = placed_edges(edges[packed[q] as int]@, placed);
    ei.len() > eq.len() || (ei.len() == eq.len() && least_gap(ei) < least_gap(eq))
}

/// The unplaced group most connected to the placed ones, with its edges
/// to them and their least uid gap.
struct BestConnected {
    idx: usize,
    placed_edges: Vec<Edge>,
    min_uid_delta: u64,
}

/// The first packed entry that connects and that no other entry beats.
fn best_connected_to_placed(
    groups: &Vec<Group>,
    packed: &Vec<usize>,
    edges: &Vec<Vec<Edge>>,
    placed: &Vec<bool>,
    deferred: &Vec<bool>,
) -> (r: Option<BestConnected>)
    requires
        packed_ok(groups@, packed@),
        edges_ok(edges@, groups@, packed@),
        placed@.len() == groups@.len(),
        deferred@.len() == groups@.len(),
    ensures
        r is None <==> forall|i: int| !connects(packed@, edges@, placed@, deferred@, i),
        r matches Some(bc) ==> exists|i: int|
            #![trigger packed@[i]]
            connects(packed@, edges@, placed@, deferred@, i) && packed@[i] == bc.idx && (forall|q: int|
                connects(packed@, edges@, placed@, deferred@, q) ==> !more_connected(packed@, edges@, placed@, q, i))
                && (forall|q: int|
                0 <= q < i && connects(packed@, edges@, placed@, deferred@, q) ==> more_connected(
                    packed@,
                    edges@,
                    placed@,
                    i,
                    q,
                )),
        r matches Some(bc) ==> bc.idx < groups@.len() && bc.placed_edges@ == placed_edges(edges@[bc.idx as int]@, placed@)
            && bc.min_uid_delta == least_gap(bc.placed_edges@),
{
    let mut best: Option<BestConnected> = None;
    let ghost mut bi: int = -1;
    let mut i: usize = 0;
    while i < packed.len()
        invariant
            i <= packed@.len(),
            packed_ok(groups@, packed@),
            edges_ok(edges@, groups@, packed@),
            placed@.len() == groups@.len(),
            deferred@.len() == groups@.len(),
            best is None <==> forall|q: int| 0 <= q < i ==> !connects(packed@, edges@, placed@, deferred@, q),
            best is None ==> bi == -1,
            best matches Some(bc) ==> 0 <= bi < i && connects(packed@, edges@, placed@, deferred@, bi) && packed@[bi]
                == bc.idx && bc.idx < groups@.len() && bc.placed_edges@ == placed_edges(edges@[bc.idx as int]@, placed@)
                && bc.min_uid_delta == least_gap(bc.placed_edges@) && (forall|q: int|
                0 <= q < i && connects(packed@, edges@, placed@, deferred@, q) ==> !more_connected(
                    packed@,
                    edges@,
                    placed@,
                    q,
                    bi,
                )) && (forall|q: int|
                0 <= q < bi && connects(packed@, edges@, placed@, deferred@, q) ==> more_connected(
                    packed@,
                    edges@,
                    placed@,
                    bi,
                    q,
                )),
        decreases packed.len() - i,
    {
        let idx = packed[i];
        assert(packed@[i as int] < groups@.len());
        if !placed[idx] && !deferred[idx] {
            proof {
                assert forall|j: int| 0 <= j < edges@[idx as int]@.len() implies (#[trigger] edges@[idx as int]@[j]).other_group
                    < placed@.len() by {
                    assert(edge_ok(edges@[idx as int]@[j], idx as int, groups@));
                }
            }
            let pe = placed_edges_of(&edges[idx], placed);
            assert(packed@[i as int] == idx);
            assert(pe@.len() > 0 <==> connects(packed@, edges@, placed@, deferred@, i as int));
            if pe.len() > 0 {
                let m = least_gap_of(&pe);
                let better = match &best {
                    None => true,
                    Some(b) => pe.len() > b.placed_edges.len() || (pe.len() == b.placed_edges.len() && m
                        < b.min_uid_delta),
                };
                let ghost old_bi = bi;
                let ghost was_none = best is None;
                proof {
                    if !was_none {
                        let bc = best->Some_0;
                        assert(packed@[old_bi] == bc.idx);
                        assert(better == more_connected(packed@, edges@, placed@, i as int, old_bi));
                    }
                }
                if better {
                    proof {
                        bi = i as int;
                        assert forall|q: int| 0 <= q < i + 1 && connects(packed@, edges@, placed@, deferred@, q) implies !more_connected(
                            packed@,
                            edges@,
                            placed@,
                            q,
                            i as int,
                        ) by {
                            if q < i {
                                assert(!was_none);
                                assert(!more_connected(packed@, edges@, placed@, q, old_bi));
                            }
                        }
                        assert forall|q: int| 0 <= q < i && connects(packed@, edges@, placed@, deferred@, q) implies more_connected(
                            packed@,
                            edges@,
                            placed@,
                            i as int,
                            q,
                        ) by {
                            assert(!was_none);
                            assert(!more_connected(packed@, edges@, placed@, q, old_bi));
                        }
                    }
                    best = Some(BestConnected { idx, placed_edges: pe, min_uid_delta: m });
                } else {
                    assert(!more_connected(packed@, edges@, placed@, i as int, bi));
                }
            }
        } else {
            assert(!connects(packed@, edges@, placed@, deferred@, i as int));
        }
        i = i + 1;
    }
    best
}

/// The first packed group with edges, unplaced and undeferred, with the
/// most rooms.
fn largest_connected(
    groups: &Vec<Group>,
    packed: &Vec<usize>,
    edges: &Vec<Vec<Edge>>,
    placed: &Vec<bool>,
    deferred: &Vec<bool>,
) -> (r: Option<usize>)
    requires
        packed_ok(groups@, packed@),
        edges@.len() == groups@.len(),
        placed@.len() == groups@.len(),
        deferred@.len() == groups@.len(),
    ensures
        r is None <==> forall|i: int|
            0 <= i < packed@.len() ==> placed@[#[trigger] packed@[i] as int] || deferred@[packed@[i] as int]
                || edges@[packed@[i] as int]@.len() == 0,
        r matches Some(g) ==> g < groups@.len() && listed(packed@, g as int) && !placed@[g as int] && !deferred@[g as int]
            && edges@[g as int]@.len() > 0,
{
    let mut pick: Option<usize> = None;
    let mut i: usize = 0;
    while i < packed.len()
        invariant
            i <= packed@.len(),
            packed_ok(groups@, packed@),
            edges@.len() == groups@.len(),
            placed@.len() == groups@.len(),
            deferred@.len() == groups@.len(),
            pick is None <==> forall|q: int|
                0 <= q < i ==> placed@[#[trigger] packed@[q] as int] || deferred@[packed@[q] as int]
                    || edges@[packed@[q] as int]@.len() == 0,
            pick matches Some(g) ==> g < groups@.len() && listed(packed@, g as int) && !placed@[g as int]
                && !deferred@[g as int] && edges@[g as int]@.len() > 0,
        decreases packed.len() - i,
    {
        let idx = packed[i];
        assert(packed@[i as int] < groups@.len());
        if !placed[idx] && !deferred[idx] && edges[idx].len() > 0 {
            let better = match pick {
                None => true,
                Some(p) => groups[idx].room_ids.len() > groups[p].room_ids.len(),
            };
            if better {
                pick = Some(idx);
            }
        }
        i = i + 1;
    }
    pick
}

/// When nothing touches the placed groups: the largest remaining group
/// with connector edges is seeded below the map, every such seed on one
/// shared left edge. False when there is none.
fn seed_next_super_cluster(
    groups: &mut Vec<Group>,
    packed: &Vec<usize>,
    edges: &Vec<Vec<Edge>>,
    deferred: &Vec<bool>,
    map: &RoomMap,
    dirs: &DirectionMap,
    seed_base_x: &mut Option<i32>,
    st: &mut PackingState,
    Ghost(start): Ghost<Seq<Group>>,
    Ghost(span): Ghost<int>,
    Ghost(b): Ghost<int>,
    Ghost(step): Ghost<int>,
) -> (seeded: bool)
    requires
        frame(old(groups)@, packed@, span, step),
        edges_ok(edges@, old(groups)@, packed@),
        state_ok(*old(st), old(groups)@, span, b, step),
        marks_ok(*old(st), old(groups)@, start, packed@),
        same_shape(start, old(groups)@),
        deferred@.len() == old(groups)@.len(),
        *old(seed_base_x) matches Some(v) ==> -(span + b) <= v <= 0,
    ensures
        frame(final(groups)@, packed@, span, step),
        edges_ok(edges@, final(groups)@, packed@),
        state_ok(*final(st), final(groups)@, span, if seeded { b + step } else { b }, step),
        marks_ok(*final(st), final(groups)@, start, packed@),
        same_shape(start, final(groups)@),
        *final(seed_base_x) matches Some(v) ==> -(span + b) <= v <= 0,
        seeded ==> count_true(final(st).placed@) == count_true(old(st).placed@) + 1,
        forall|g: int| 0 <= g < old(groups)@.len() && old(st).placed@[g] ==> #[trigger] final(st).placed@[g],
        seeded <==> exists|i: int|
            0 <= i < packed@.len() && !old(st).placed@[#[trigger] packed@[i] as int] && !deferred@[packed@[i] as int]
                && edges@[packed@[i] as int]@.len() > 0,
        seeded ==> exists|g: int|
            0 <= g < old(groups)@.len() && final(st).placed@ == old(st).placed@.update(g, true) && !old(st).placed@[g]
                && !deferred@[g] && listed(packed@, g) && edges@[g]@.len() > 0 && final(groups)@[g].packing == Some(
                PackMethod::Seed,
            ) && final(groups)@[g].base_offset is Some,
        !seeded ==> final(groups)@ == old(groups)@ && *final(st) == *old(st) && *final(seed_base_x) == *old(seed_base_x),
{
    let idx = match largest_connected(groups, packed, edges, &st.placed, deferred) {
        None => {
            return false;
        },
        Some(g) => g,
    };
    let ghost n = groups@.len() as int;
    let bounds = groups[idx].bounds();
    proof {
        lemma_count_set(st.placed@, idx as int);
        lemma_budget(count_true(st.placed@) as int, n, step);
        let w = choose|w: int| 0 <= w < packed@.len() && packed@[w] as int == idx as int;
        assert(packed@[w] < groups@.len() && groups@[packed@[w] as int].positions@.len() > 0);
        assert(cells_within(cells_of(groups@[idx as int].positions@), span));
        lemma_bounds_within(groups@[idx as int].positions@, span);
    }
    let (extent_min_x, extent_max_y) = occupied_bounds(&st.sheet, Ghost(span + b));
    let base_x = match *seed_base_x {
        Some(v) => v,
        None => {
            *seed_base_x = Some(extent_min_x);
            extent_min_x
        },
    };
    let proposed = Cell { x: base_x - bounds.min_x, y: extent_max_y + GROUP_PADDING - bounds.min_y };
    let cells = group_cells(&groups[idx]);
    proof {
        lemma_cells_wider(cells@, span, sheet_limit());
    }
    let offset = match find_free_offset(&cells, proposed, &st.sheet) {
        Some(c) => c,
        None => proposed,
    };
    let ghost g1 = groups@;
    let ghost s1 = *st;
    seat(groups, idx, offset, PackMethod::Seed, true, edges, packed, map, dirs, st, Ghost(span), Ghost(b), Ghost(step));
    proof {
        lemma_marks_after_seat(s1, *st, g1, groups@, start, packed@, idx as int);
    }
    true
}

/// Whether any group is placed.
fn any_placed(placed: &Vec<bool>) -> (r: bool)
    ensures
        r <==> exists|g: int| 0 <= g < placed@.len() && placed@[g],
{
    let mut i: usize = 0;
    while i < placed.len()
        invariant
            i <= placed@.len(),
            forall|q: int| 0 <= q < i ==> !placed@[q],
        decreases placed.len() - i,
    {
        if placed[i] {
            return true;
        }
        i = i + 1;
    }
    false
}

/// The first packed group with the most rooms.
fn largest_packed(groups: &Vec<Group>, packed: &Vec<usize>) -> (r: usize)
    requires
        packed@.len() > 0,
        packed_ok(groups@, packed@),
    ensures
        listed(packed@, r as int),
        r < groups@.len(),
{
    let mut largest = packed[0];
    assert(packed@[0] < groups@.len());
    let mut i: usize = 0;
    while i < packed.len()
        invariant
            i <= packed@.len(),
            packed_ok(groups@, packed@),
            listed(packed@, largest as int),
            largest < groups@.len(),
        decreases packed.len() - i,
    {
        let idx = packed[i];
        assert(packed@[i as int] < groups@.len());
        if groups[idx].room_ids.len() > groups[largest].room_ids.len() {
            largest = idx;
        }
        i = i + 1;
    }
    largest
}

/// The place of the first edge with the least uid gap.
fn first_least_gap(es: &Vec<Edge>) -> (j: usize)
    requires
        es@.len() > 0,
    ensures
        j < es@.len(),
        es@[j as int].uid_delta == least_gap(es@),
{
    let mut best: usize = 0;
    let mut j: usize = 1;
    assert(es@.take(1).drop_last() =~= Seq::<Edge>::empty());
    assert(es@.take(1).last() == es@[0]);
    assert(least_gap(Seq::<Edge>::empty()) == u64::MAX);
    assert(least_gap(es@.take(1)) == es@[0].uid_delta);
    while j < es.len()
        invariant
            1 <= j <= es@.len(),
            best < j,
            es@[best as int].uid_delta == least_gap(es@.take(j as int)),
        decreases es.len() - j,
    {
        assert(es@.take(j + 1).drop_last() =~= es@.take(j as int));
        assert(es@.take(j + 1).last() == es@[j as int]);
        if es[j].uid_delta < es[best].uid_delta {
            best = j;
        }
        j = j + 1;
    }
    assert(es@.take(j as int) =~= es@);
    best
}

/// The connector lines placing group `idx` would draw: one per edge to a
/// placed group, from the edge's room to its placed neighbour's cell.
fn anchor_lines(
    groups: &Vec<Group>,
    idx: usize,
    pe: &Vec<Edge>,
    Ghost(placed): Ghost<Seq<bool>>,
    Ghost(span): Ghost<int>,
    Ghost(b): Ghost<int>,
    Ghost(lim): Ghost<int>,
) -> (lines: Vec<AnchorLine>)
    requires
        idx < groups@.len(),
        aligned(groups@),
        spans_within(groups@, span),
        offsets_within(groups@, placed, b),
        placed.len() == groups@.len(),
        0 <= span,
        0 <= b,
        span + b <= lim,
        lim <= i32::MAX,
        forall|k: int| 0 <= k < pe@.len() ==> edge_ok(#[trigger] pe@[k], idx as int, groups@) && placed[pe@[k].other_group as int],
    ensures
        lines_within(lines@, span, lim),
        lines@.len() == pe@.len(),
{
    let mut lines: Vec<AnchorLine> = Vec::new();
    let mut k: usize = 0;
    while k < pe.len()
        invariant
            k <= pe@.len(),
            lines@.len() == k,
            idx < groups@.len(),
            aligned(groups@),
            spans_within(groups@, span),
            offsets_within(groups@, placed, b),
            placed.len() == groups@.len(),
            0 <= span,
            0 <= b,
            span + b <= lim,
            lim <= i32::MAX,
            forall|q: int| 0 <= q < pe@.len() ==> edge_ok(#[trigger] pe@[q], idx as int, groups@) && placed[pe@[q].other_group as int],
            lines_within(lines@, span, lim),
        decreases pe.len() - k,
    {
        let e = pe[k];
        assert(edge_ok(pe@[k as int], idx as int, groups@) && placed[pe@[k as int].other_group as int]);
        assert(groups@[idx as int].positions@.len() == groups@[idx as int].room_ids@.len());
        assert(groups@[e.other_group as int].positions@.len() == groups@[e.other_group as int].room_ids@.len());
        assert(offset_within(groups@[e.other_group as int], b));
        let internal = groups[idx].positions[e.at].1;
        assert(cells_within(cells_of(groups@[idx as int].positions@), span));
        assert(cells_of(groups@[idx as int].positions@)[e.at as int] == internal);
        let target = final_cell_at(groups, e.other_group, e.other_at, Ghost(span), Ghost(b));
        lines.push(AnchorLine { internal, target, room_id: e.room_id, other_room_id: e.other_room_id });
        assert forall|q: int| 0 <= q < lines@.len() implies -span <= (#[trigger] lines@[q]).internal.x <= span && -span
            <= lines@[q].internal.y <= span && -lim <= lines@[q].target.x <= lim && -lim <= lines@[q].target.y <= lim by {
            if q < lines@.len() - 1 {
                assert(lines@[q] == lines@.drop_last()[q]);
            }
        }
        k = k + 1;
    }
    lines
}

proof fn lemma_marks_after_seat(
    before: PackingState,
    after: PackingState,
    g1: Seq<Group>,
    groups: Seq<Group>,
    start: Seq<Group>,
    packed: Seq<usize>,
    idx: int,
)
    requires
        marks_ok(before, g1, start, packed),
        same_shape(start, g1),
        same_shape(g1, groups),
        0 <= idx < g1.len(),
        listed(packed, idx),
        groups[idx].base_offset is Some,
        groups[idx].packing matches Some(m) && outdoor_method(m),
        after.placed@ == before.placed@.update(idx, true),
        forall|g: int| 0 <= g < g1.len() && g != idx ==> #[trigger] groups[g] == g1[g],
    ensures
        marks_ok(after, groups, start, packed),
        same_shape(start, groups),
{
    assert forall|g: int| 0 <= g < groups.len() && #[trigger] after.placed@[g] implies listed(packed, g)
        && groups[g].base_offset is Some && (groups[g].packing matches Some(m) && outdoor_method(m)) by {
        if g != idx {
            assert(groups[g] == g1[g]);
        }
    }
    assert forall|g: int| 0 <= g < groups.len() && !after.placed@[g] implies #[trigger] groups[g] == start[g] by {
        assert(g != idx);
        assert(groups[g] == g1[g]);
    }
    assert forall|g: int| 0 <= g < start.len() implies (#[trigger] start[g]).room_ids == groups[g].room_ids
        && start[g].positions == groups[g].positions && start[g].index == groups[g].index && start[g].violations
        == groups[g].violations && start[g].name == groups[g].name by {
        assert(start[g].room_ids == g1[g].room_ids);
        assert(g1[g].room_ids == groups[g].room_ids);
    }
}

/// Pass two. With nothing placed yet, the largest packed group is seeded
/// at the origin. Then, round by round, the group most connected to the
/// placed ones lands beside the placed neighbour its least uid gap points
/// to, at the offset `find_best_connector_offset` scores best; one with no
/// free offset near is deferred to the strip. When nothing touches the
/// placed groups, the next super-cluster is seeded below the map.
#[verifier::rlimit(30)]
fn pack_by_connectors(
    groups: &mut Vec<Group>,
    packed: &Vec<usize>,
    edges: &Vec<Vec<Edge>>,
    map: &RoomMap,
    dirs: &DirectionMap,
    st: &mut PackingState,
    Ghost(start): Ghost<Seq<Group>>,
    Ghost(span): Ghost<int>,
    Ghost(b): Ghost<int>,
    Ghost(step): Ghost<int>,
) -> (nb: Ghost<int>)
    requires
        packed@.len() > 0,
        frame(old(groups)@, packed@, span, step),
        edges_ok(edges@, old(groups)@, packed@),
        state_ok(*old(st), old(groups)@, span, b, step),
        marks_ok(*old(st), old(groups)@, start, packed@),
        same_shape(start, old(groups)@),
    ensures
        frame(final(groups)@, packed@, span, step),
        edges_ok(edges@, final(groups)@, packed@),
        state_ok(*final(st), final(groups)@, span, nb@, step),
        marks_ok(*final(st), final(groups)@, start, packed@),
        same_shape(start, final(groups)@),
{
    let ghost mut bb = b;
    if !any_placed(&st.placed) {
        let largest = largest_packed(groups, packed);
        let ghost g1 = groups@;
        let ghost s1 = *st;
        seat(groups, largest, Cell { x: 0, y: 0 }, PackMethod::Seed, false, edges, packed, map, dirs, st, Ghost(span), Ghost(bb), Ghost(step));
        proof {
            bb = bb + step;
            lemma_marks_after_seat(s1, *st, g1, groups@, start, packed@, largest as int);
        }
    }
    let mut deferred: Vec<bool> = Vec::new();
    let mut k: usize = 0;
    while k < groups.len()
        invariant
            k <= groups@.len(),
            deferred@.len() == k,
            forall|q: int| 0 <= q < k ==> !deferred@[q],
        decreases groups.len() - k,
    {
        deferred.push(false);
        k = k + 1;
    }
    proof {
        lemma_count_none(deferred@);
        lemma_count_le(st.placed@);
    }
    let mut seed_base_x: Option<i32> = None;
    loop
        invariant
            frame(groups@, packed@, span, step),
            edges_ok(edges@, groups@, packed@),
            state_ok(*st, groups@, span, bb, step),
            marks_ok(*st, groups@, start, packed@),
            same_shape(start, groups@),
            deferred@.len() == groups@.len(),
            b <= bb,
            seed_base_x matches Some(v) ==> -(span + bb) <= v <= 0,
            count_true(st.placed@) <= groups@.len(),
            count_true(deferred@) <= groups@.len(),
        decreases 2 * groups@.len() - count_true(st.placed@) - count_true(deferred@),
    {
        let best = match best_connected_to_placed(groups, packed, edges, &st.placed, &deferred) {
            None => {
                if seed_next_super_cluster(
                    groups,
                    packed,
                    edges,
                    &deferred,
                    map,
                    dirs,
                    &mut seed_base_x,
                    st,
                    Ghost(start),
                    Ghost(span),
                    Ghost(bb),
                    Ghost(step),
                ) {
                    proof {
                        bb = bb + step;
                        lemma_count_le(st.placed@);
                    }
                    continue;
                }
                proof {
                    lemma_count_le(st.placed@);
                }
                break;
            },
            Some(bc) => bc,
        };
        let idx = best.idx;
        let ghost n = groups@.len() as int;
        proof {
            let i = choose|i: int|
                #![trigger packed@[i]]
                connects(packed@, edges@, st.placed@, deferred@, i) && packed@[i] == idx && (forall|q: int|
                    connects(packed@, edges@, st.placed@, deferred@, q) ==> !more_connected(
                        packed@,
                        edges@,
                        st.placed@,
                        q,
                        i,
                    )) && (forall|q: int|
                    0 <= q < i && connects(packed@, edges@, st.placed@, deferred@, q) ==> more_connected(
                        packed@,
                        edges@,
                        st.placed@,
                        i,
                        q,
                    ));
            assert(listed(packed@, idx as int));
            lemma_placed_edges_from(edges@[idx as int]@, st.placed@);
            assert forall|q: int| 0 <= q < best.placed_edges@.len() implies edge_ok(
                #[trigger] best.placed_edges@[q],
                idx as int,
                groups@,
            ) && st.placed@[best.placed_edges@[q].other_group as int] by {
                let e = best.placed_edges@[q];
                assert(edges@[idx as int]@.contains(e));
                let j = choose|j: int| 0 <= j < edges@[idx as int]@.len() && edges@[idx as int]@[j] == e;
                assert(edge_ok(edges@[idx as int]@[j], idx as int, groups@));
            }
            lemma_count_set(st.placed@, idx as int);
            lemma_count_le(deferred@);
            lemma_budget(count_true(st.placed@) as int, n, step);
        }
        let j = first_least_gap(&best.placed_edges);
        let edge = best.placed_edges[j];
        assert(edge_ok(best.placed_edges@[j as int], idx as int, groups@));
        assert(offset_within(groups@[edge.other_group as int], bb));
        let neighbor = final_cell_at(groups, edge.other_group, edge.other_at, Ghost(span), Ghost(bb));
        assert(groups@[idx as int].positions@.len() == groups@[idx as int].room_ids@.len());
        let internal = groups[idx].positions[edge.at].1;
        assert(cells_within(cells_of(groups@[idx as int].positions@), span));
        assert(cells_of(groups@[idx as int].positions@)[edge.at as int] == internal);
        let lines = anchor_lines(groups, idx, &best.placed_edges, Ghost(st.placed@), Ghost(span), Ghost(bb), Ghost(2 * span + bb));
        let proposed = Cell { x: neighbor.x - internal.x, y: neighbor.y - internal.y };
        let cells = group_cells(&groups[idx]);
        proof {
            lemma_lines_wider(st.segments@, st.boxes@, span + bb, 2 * span + bb);
        }
        match find_best_connector_offset(
            &cells,
            proposed,
            &st.sheet,
            &lines,
            &st.segments,
            &st.boxes,
            Ghost(span),
            Ghost(2 * span + bb),
        ) {
            Some((offset, _)) => {
                let ghost g1 = groups@;
                let ghost s1 = *st;
                seat(groups, idx, offset, PackMethod::Connector, true, edges, packed, map, dirs, st, Ghost(span), Ghost(bb), Ghost(step));
                proof {
                    bb = bb + step;
                    lemma_marks_after_seat(s1, *st, g1, groups@, start, packed@, idx as int);
                    lemma_count_le(st.placed@);
                }
            },
            None => {
                proof {
                    lemma_count_set(deferred@, idx as int);
                }
                deferred.set(idx, true);
                proof {
                    lemma_count_le(deferred@);
                }
            },
        }
    }
    Ghost(bb)
}

pub proof fn lemma_count_none(s: Seq<bool>)
    requires
        forall|q: int| 0 <= q < s.len() ==> !s[q],
    ensures
        count_true(s) == 0,
    decreases s.len(),
{
    if s.len() > 0 {
        lemma_count_none(s.drop_last());
    }
}

/// With each component's cells within `sheet_room(n)`, `n` components
/// and two more fit on the sheet a step apart.
proof fn lemma_sheet_room(n: int)
    requires
        0 <= n,
    ensures
        (n + 2) * (2 * sheet_room(n) + 64) <= sheet_limit(),
{
    let d = 2 * (n + 2);
    let q = sheet_limit() / d;
    assert(d * q <= sheet_limit()) by (nonlinear_arith)
        requires
            d > 0,
            q == sheet_limit() / d,
            sheet_limit() >= 0,
    ;
    assert((n + 2) * (2 * q) == d * q) by (nonlinear_arith)
        requires
            d == 2 * (n + 2),
    ;
}

/// Two placed groups that both landed on free cells share no cell.
proof fn lemma_apart(st: PackingState, groups: Seq<Group>, g: int, h: int, a: int, b: int)
    requires
        order_ok(st, groups),
        groups.len() <= usize::MAX,
        0 <= g < groups.len(),
        0 <= h < groups.len(),
        g != h,
        st.placed@[g],
        st.placed@[h],
        fitted(groups[g].packing),
        fitted(groups[h].packing),
        0 <= a < placed_cells(groups[g]).len(),
        0 <= b < placed_cells(groups[h]).len(),
    ensures
        placed_cells(groups[g])[a] != placed_cells(groups[h])[b],
{
    let order = st.order@;
    assert((g as usize) as int == g && (h as usize) as int == h);
    assert(order.contains(g as usize));
    assert(order.contains(h as usize));
    let i = choose|i: int| 0 <= i < order.len() && order[i] == g as usize;
    let j = choose|j: int| 0 <= j < order.len() && order[j] == h as usize;
    assert(i != j);
    if i < j {
        lemma_sheet_of_holds(groups, order, i, j, a);
        assert(!sheet_of(groups, order.take(j)).contains(placed_cells(groups[order[j] as int])[b]));
    } else {
        lemma_sheet_of_holds(groups, order, j, i, b);
        assert(!sheet_of(groups, order.take(i)).contains(placed_cells(groups[order[i] as int])[a]));
    }
}

/// The connector edges of the packed groups, and, when some group is not
/// packed, the edges bridged through the unpacked ones.
fn all_edges(groups: &Vec<Group>, packed: &Vec<usize>, map: &RoomMap) -> (edges: Vec<Vec<Edge>>)
    requires
        forall|i: int| 0 <= i < packed@.len() ==> #[trigger] packed@[i] < groups@.len(),
    ensures
        edges_ok(edges@, groups@, packed@),
{
    let mut edges = connector_edges(groups, packed, map);
    if groups.len() > packed.len() {
        add_bridged_edges(&mut edges, groups, packed, map);
    }
    edges
}

/// Places the packed components on one shared sheet. `packed` lists
/// indices into `groups`; every group is consulted for edges bridged
/// through an unpacked one. `seats` are the packed groups anchored to the
/// primary image, in the order they are seated, each with the offset its
/// hand-drawn coordinates imply. The seats come first, each at the
/// nearest free offset; then the connector pass; then the strip. Every
/// packed group ends with an offset and an outdoor packing method; no
/// other group is touched.
#[verifier::spinoff_prover]
pub fn pack_groups(
    groups: &mut Vec<Group>,
    packed: &Vec<usize>,
    map: &RoomMap,
    dirs: &DirectionMap,
    seats: &Vec<(usize, Cell)>,
)
    requires
        packed_ok(old(groups)@, packed@),
        aligned(old(groups)@),
        spans_within(old(groups)@, sheet_room(old(groups)@.len() as int)),
        forall|i: int|
            0 <= i < seats@.len() ==> -sheet_room(old(groups)@.len() as int) <= (#[trigger] seats@[i]).1.x
                <= sheet_room(old(groups)@.len() as int) && -sheet_room(old(groups)@.len() as int) <= seats@[i].1.y
                <= sheet_room(old(groups)@.len() as int),
    ensures
        same_shape(old(groups)@, final(groups)@),
        forall|g: int|
            0 <= g < final(groups)@.len() && listed(packed@, g) ==> (#[trigger] final(groups)@[g]).base_offset is Some
                && (final(groups)@[g].packing matches Some(m) && outdoor_method(m)),
        forall|g: int| 0 <= g < final(groups)@.len() && !listed(packed@, g) ==> #[trigger] final(groups)@[g] == old(groups)@[g],
        forall|g: int, h: int, a: int, b: int|
            0 <= g < final(groups)@.len() && 0 <= h < final(groups)@.len() && g != h && listed(packed@, g) && listed(
                packed@,
                h,
            ) && fitted(final(groups)@[g].packing) && fitted(final(groups)@[h].packing) && 0 <= a < placed_cells(
                final(groups)@[g],
            ).len() && 0 <= b < placed_cells(final(groups)@[h]).len() ==> #[trigger] placed_cells(final(groups)@[g])[a]
                != #[trigger] placed_cells(final(groups)@[h])[b],
{
    if packed.len() == 0 {
        return;
    }
    let edges = all_edges(groups, packed, map);
    let ghost n = groups@.len() as int;
    let ghost span = sheet_room(n);
    let ghost step = 2 * span + 64;
    let ghost start = groups@;
    proof {
        lemma_sheet_room(n);
        assert(packed@[0] < groups@.len() && groups@[packed@[0] as int].positions@.len() > 0);
        let ps = groups@[packed@[0] as int].positions@;
        assert(cells_within(cells_of(ps), span));
        assert(cells_of(ps)[0] == ps[0].1);
        assert(span >= 0);
    }
    let mut placed: Vec<bool> = Vec::new();
    let mut k: usize = 0;
    while k < groups.len()
        invariant
            k <= groups@.len(),
            placed@.len() == k,
            forall|q: int| 0 <= q < k ==> !placed@[q],
        decreases groups.len() - k,
    {
        placed.push(false);
        k = k + 1;
    }
    let mut st = PackingState {
        sheet: Sheet::new(),
        placed,
        segments: Vec::new(),
        boxes: Vec::new(),
        order: Ghost(Seq::empty()),
    };
    proof {
        lemma_count_none(st.placed@);
        assert(st.sheet.cells() =~= sheet_of(groups@, st.order@));
        assert(order_ok(st, groups@));
    }
    let Ghost(b1) = pack_image_seats(
        groups,
        seats,
        &edges,
        packed,
        map,
        dirs,
        &mut st,
        Ghost(start),
        Ghost(span),
        Ghost(0),
        Ghost(step),
    );
    let Ghost(b2) = pack_by_connectors(
        groups,
        packed,
        &edges,
        map,
        dirs,
        &mut st,
        Ghost(start),
        Ghost(span),
        Ghost(b1),
        Ghost(step),
    );
    pack_strip_fallback(groups, &edges, packed, map, dirs, &mut st, Ghost(start), Ghost(span), Ghost(b2), Ghost(step));
    proof {
        assert forall|g: int| 0 <= g < groups@.len() && listed(packed@, g) implies (#[trigger] groups@[g]).base_offset is Some
            && (groups@[g].packing matches Some(m) && outdoor_method(m)) by {
            let i = choose|i: int| 0 <= i < packed@.len() && packed@[i] as int == g;
            assert(st.placed@[packed@[i] as int]);
        }
        assert forall|g: int, h: int, a: int, b: int|
            0 <= g < groups@.len() && 0 <= h < groups@.len() && g != h && listed(packed@, g) && listed(packed@, h)
                && fitted(groups@[g].packing) && fitted(groups@[h].packing) && 0 <= a < placed_cells(groups@[g]).len()
                && 0 <= b < placed_cells(groups@[h]).len() implies #[trigger] placed_cells(groups@[g])[a]
                != #[trigger] placed_cells(groups@[h])[b] by {
            let i = choose|i: int| 0 <= i < packed@.len() && packed@[i] as int == g;
            assert(st.placed@[packed@[i] as int]);
            let i2 = choose|i2: int| 0 <= i2 < packed@.len() && packed@[i2] as int == h;
            assert(st.placed@[packed@[i2] as int]);
            assert(groups@.len() == groups.len());
            lemma_apart(st, groups@, g, h, a, b);
        }
        assert forall|g: int| 0 <= g < groups@.len() && !listed(packed@, g) implies #[trigger] groups@[g] == start[g] by {
            if st.placed@[g] {
                assert(listed(packed@, g));
            }
        }
    }
}

} // verus!
