//! Room positioning: connected components over directional edges, built
//! breadth first with grid rips where a room's cell is taken, then a hill
//! climb that shortens stretched edges without breaking a bearing, a
//! re-weld of runs a rip stranded, and compaction of empty rows and
//! columns.

use vstd::prelude::*;
use vstd::hash_map::HashMapWithView;

use crate::direction::{Dir, DirectionMap, compass, dir_at, offset_of};
use crate::geometry::{
    Cell, abs, chebyshev_of, first_free_near, free_cell_near, near_candidate, ring_fits, sign, violated,
    violated_at,
};
use crate::group::{Group, Violation, position_of};
use crate::model::{Exit, Room, RoomId, RoomMap, has_room, ids_unique, room_of};
use crate::regions::{Sense, room_sense, sense_of};
use crate::satisfiable::place_by_order;

verus! {

// ---------------------------------------------------------------------
// Compaction
// ---------------------------------------------------------------------

/// Strictly increasing.
pub open spec fn increasing(d: Seq<i32>) -> bool {
    forall|i: int, j: int| 0 <= i < j < d.len() ==> d[i] < d[j]
}

/// The first index whose value is at least `v`.
fn lower_bound(d: &Vec<i32>, v: i32) -> (r: usize)
    requires
        increasing(d@),
    ensures
        r <= d@.len(),
        forall|k: int| 0 <= k < r ==> d@[k] < v,
        forall|k: int| r <= k < d@.len() ==> d@[k] >= v,
{
    let mut lo: usize = 0;
    let mut hi: usize = d.len();
    while lo < hi
        invariant
            lo <= hi <= d@.len(),
            increasing(d@),
            forall|k: int| 0 <= k < lo ==> d@[k] < v,
            forall|k: int| hi <= k < d@.len() ==> d@[k] >= v,
        decreases hi - lo,
    {
        let mid = lo + (hi - lo) / 2;
        if d[mid] < v {
            lo = mid + 1;
        } else {
            hi = mid;
        }
    }
    lo
}

/// The distinct values, in increasing order.
fn distinct_sorted(vals: &Vec<i32>) -> (d: Vec<i32>)
    ensures
        increasing(d@),
        forall|v: i32| d@.contains(v) <==> vals@.contains(v),
        d@.len() <= vals@.len(),
{
    let mut d: Vec<i32> = Vec::new();
    let mut i: usize = 0;
    while i < vals.len()
        invariant
            i <= vals@.len(),
            increasing(d@),
            d@.len() <= i,
            forall|v: i32| d@.contains(v) <==> vals@.take(i as int).contains(v),
        decreases vals.len() - i,
    {
        let v = vals[i];
        let r = lower_bound(&d, v);
        let ghost before = d@;
        let ghost t1 = vals@.take(i + 1);
        assert(t1 =~= vals@.take(i as int).push(v));
        assert forall|w: i32| t1.contains(w) <==> (w == v || vals@.take(i as int).contains(w)) by {
            if t1.contains(w) && w != v {
                let k = choose|k: int| 0 <= k < t1.len() && t1[k] == w;
                assert(vals@.take(i as int)[k] == w);
            }
            if vals@.take(i as int).contains(w) {
                let k = choose|k: int| 0 <= k < i && vals@.take(i as int)[k] == w;
                assert(t1[k] == w);
            }
            if w == v {
                assert(t1[i as int] == v);
            }
        }
        if r < d.len() && d[r] == v {
            assert forall|w: i32| d@.contains(w) <==> t1.contains(w) by {
                if w == v {
                    assert(d@[r as int] == v);
                }
                if t1.contains(w) && w != v {
                    let k = choose|k: int| 0 <= k < i + 1 && t1[k] == w;
                    assert(vals@.take(i as int)[k] == w);
                }
            }
        } else {
            d.insert(r, v);
            assert forall|a: int, b: int| 0 <= a < b < d@.len() implies d@[a] < d@[b] by {
                if b < r {
                    assert(d@[a] == before[a] && d@[b] == before[b]);
                } else if b == r {
                    assert(d@[a] == before[a]);
                } else if a == r {
                    assert(d@[b] == before[b - 1]);
                    assert(before[b - 1] >= v);
                    if b - 1 == r {
                        assert(before[r as int] != v);
                    } else {
                        assert(before[r as int] < before[b - 1]);
                    }
                } else if a < r {
                    assert(d@[a] == before[a] && d@[b] == before[b - 1]);
                } else {
                    assert(d@[a] == before[a - 1] && d@[b] == before[b - 1]);
                }
            }
            assert forall|w: i32| d@.contains(w) implies t1.contains(w) by {
                let k = choose|k: int| 0 <= k < d@.len() && d@[k] == w;
                if k < r {
                    assert(before[k] == w);
                    assert(before.contains(w));
                } else if k > r {
                    assert(before[k - 1] == w);
                    assert(before.contains(w));
                }
            }
            assert forall|w: i32| t1.contains(w) implies d@.contains(w) by {
                if w == v {
                    assert(d@[r as int] == v);
                } else {
                    assert(vals@.take(i as int).contains(w));
                    assert(before.contains(w));
                    let q = choose|q: int| 0 <= q < before.len() && before[q] == w;
                    if q < r {
                        assert(d@[q] == w);
                    } else {
                        assert(d@[q + 1] == w);
                    }
                }
            }
        }
        i = i + 1;
    }
    assert(vals@.take(i as int) =~= vals@);
    d
}

/// Some room stands in column `v`.
pub open spec fn column_used(cells: Seq<Cell>, v: int) -> bool {
    exists|j: int| 0 <= j < cells.len() && (#[trigger] cells[j]).x == v
}

/// Some room stands in row `v`.
pub open spec fn row_used(cells: Seq<Cell>, v: int) -> bool {
    exists|j: int| 0 <= j < cells.len() && (#[trigger] cells[j]).y == v
}

/// Every column up to a room's is used by some room, and likewise every
/// row: no empty row or column is left between or before the rooms.
pub open spec fn compact(cells: Seq<Cell>) -> bool {
    &&& forall|k: int| 0 <= k < cells.len() ==> 0 <= (#[trigger] cells[k]).x < cells.len() && 0 <= cells[k].y
        < cells.len()
    &&& forall|k: int, v: int|
        #![trigger cells[k], column_used(cells, v)]
        0 <= k < cells.len() && 0 <= v <= cells[k].x ==> column_used(cells, v)
    &&& forall|k: int, v: int|
        #![trigger cells[k], row_used(cells, v)]
        0 <= k < cells.len() && 0 <= v <= cells[k].y ==> row_used(cells, v)
}

/// `b` lies the same way from every cell along each axis as `a` does:
/// each pair of cells keeps the signs of its two deltas.
pub open spec fn same_order(a: Seq<Cell>, b: Seq<Cell>) -> bool {
    &&& a.len() == b.len()
    &&& forall|i: int, j: int|
        0 <= i < a.len() && 0 <= j < a.len() ==> sign(b[j].x - b[i].x) == sign(a[j].x - a[i].x) && sign(
            b[j].y - b[i].y,
        ) == sign(a[j].y - a[i].y)
}

/// Each coordinate's rank among the distinct values of its axis: empty
/// rows and columns collapse, and the relative order of the rooms is kept,
/// so every edge keeps the signs of its deltas.
pub fn compact_cells(cells: &Vec<Cell>) -> (out: Vec<Cell>)
    requires
        cells@.len() <= i32::MAX,
    ensures
        same_order(cells@, out@),
        compact(out@),
{
    let mut xs: Vec<i32> = Vec::new();
    let mut ys: Vec<i32> = Vec::new();
    let mut i: usize = 0;
    while i < cells.len()
        invariant
            i <= cells@.len(),
            xs@.len() == i && ys@.len() == i,
            forall|k: int| 0 <= k < i ==> xs@[k] == cells@[k].x && ys@[k] == cells@[k].y,
        decreases cells.len() - i,
    {
        xs.push(cells[i].x);
        ys.push(cells[i].y);
        i = i + 1;
    }
    let dx = distinct_sorted(&xs);
    let dy = distinct_sorted(&ys);
    let mut out: Vec<Cell> = Vec::new();
    let mut k: usize = 0;
    while k < cells.len()
        invariant
            k <= cells@.len(),
            cells@.len() <= i32::MAX,
            xs@.len() == cells@.len() && ys@.len() == cells@.len(),
            forall|q: int| 0 <= q < cells@.len() ==> xs@[q] == cells@[q].x && ys@[q] == cells@[q].y,
            increasing(dx@),
            increasing(dy@),
            forall|v: i32| dx@.contains(v) <==> xs@.contains(v),
            forall|v: i32| dy@.contains(v) <==> ys@.contains(v),
            dx@.len() <= cells@.len(),
            dy@.len() <= cells@.len(),
            out@.len() == k,
            forall|q: int|
                0 <= q < k ==> 0 <= (#[trigger] out@[q]).x < dx@.len() && dx@[out@[q].x as int] == cells@[q].x
                    && 0 <= out@[q].y < dy@.len() && dy@[out@[q].y as int] == cells@[q].y,
        decreases cells.len() - k,
    {
        let c = cells[k];
        assert(xs@[k as int] == c.x && ys@[k as int] == c.y);
        assert(dx@.contains(c.x));
        assert(dy@.contains(c.y));
        let rx = lower_bound(&dx, c.x);
        let ry = lower_bound(&dy, c.y);
        assert(rx < dx@.len() && dx@[rx as int] == c.x) by {
            let q = choose|q: int| 0 <= q < dx@.len() && dx@[q] == c.x;
            if q < rx {
                assert(dx@[q] < c.x);
            }
            if rx < dx@.len() && dx@[rx as int] != c.x {
                assert(dx@[rx as int] > c.x);
                assert(rx < q || rx == q || rx > q);
                if rx < q {
                    assert(dx@[rx as int] < dx@[q]);
                }
            }
        }
        assert(ry < dy@.len() && dy@[ry as int] == c.y) by {
            let q = choose|q: int| 0 <= q < dy@.len() && dy@[q] == c.y;
            if q < ry {
                assert(dy@[q] < c.y);
            }
            if ry < dy@.len() && dy@[ry as int] != c.y {
                if ry < q {
                    assert(dy@[ry as int] < dy@[q]);
                }
            }
        }
        out.push(Cell { x: rx as i32, y: ry as i32 });
        k = k + 1;
    }
    proof {
        let a = cells@;
        let b = out@;
        assert forall|i: int, j: int| 0 <= i < a.len() && 0 <= j < a.len() implies sign(b[j].x - b[i].x) == sign(
            a[j].x - a[i].x,
        ) && sign(b[j].y - b[i].y) == sign(a[j].y - a[i].y) by {
            let (bi, bj) = (b[i], b[j]);
            if bi.x < bj.x {
                assert(dx@[bi.x as int] < dx@[bj.x as int]);
            } else if bi.x > bj.x {
                assert(dx@[bj.x as int] < dx@[bi.x as int]);
            }
            if bi.y < bj.y {
                assert(dy@[bi.y as int] < dy@[bj.y as int]);
            } else if bi.y > bj.y {
                assert(dy@[bj.y as int] < dy@[bi.y as int]);
            }
        }
        assert forall|q: int, v: int| 0 <= q < b.len() && 0 <= v <= #[trigger] b[q].x implies #[trigger] column_used(b, v) by {
            let w = dx@[v];
            assert(dx@.contains(w));
            assert(xs@.contains(w));
            let j = choose|j: int| 0 <= j < xs@.len() && xs@[j] == w;
            assert(dx@[b[j].x as int] == w);
            if b[j].x < v {
                assert(dx@[b[j].x as int] < dx@[v]);
            } else if b[j].x > v {
                assert(dx@[v] < dx@[b[j].x as int]);
            }
        }
        assert forall|q: int, v: int| 0 <= q < b.len() && 0 <= v <= #[trigger] b[q].y implies #[trigger] row_used(b, v) by {
            let w = dy@[v];
            assert(dy@.contains(w));
            assert(ys@.contains(w));
            let j = choose|j: int| 0 <= j < ys@.len() && ys@[j] == w;
            assert(dy@[b[j].y as int] == w);
            if b[j].y < v {
                assert(dy@[b[j].y as int] < dy@[v]);
            } else if b[j].y > v {
                assert(dy@[v] < dy@[b[j].y as int]);
            }
        }
    }
    out
}

// ---------------------------------------------------------------------
// A component being placed
// ---------------------------------------------------------------------

/// The key a cell is looked up by: distinct cells have distinct keys.
pub open spec fn cell_key(c: Cell) -> u64 {
    ((c.x as int + 0x8000_0000) * 0x1_0000_0000 + (c.y as int + 0x8000_0000)) as u64
}

pub(crate) proof fn lemma_cell_key(a: Cell, b: Cell)
    ensures
        cell_key(a) == cell_key(b) ==> a == b,
{
    let (p, q) = (a.x as int + 0x8000_0000, a.y as int + 0x8000_0000);
    let (r, t) = (b.x as int + 0x8000_0000, b.y as int + 0x8000_0000);
    assert(0 <= p * 0x1_0000_0000 + q < 0x1_0000_0000_0000_0000) by (nonlinear_arith)
        requires
            0 <= p < 0x1_0000_0000,
            0 <= q < 0x1_0000_0000,
    ;
    assert(0 <= r * 0x1_0000_0000 + t < 0x1_0000_0000_0000_0000) by (nonlinear_arith)
        requires
            0 <= r < 0x1_0000_0000,
            0 <= t < 0x1_0000_0000,
    ;
    if p * 0x1_0000_0000 + q == r * 0x1_0000_0000 + t {
        assert(p == r && q == t) by (nonlinear_arith)
            requires
                p * 0x1_0000_0000 + q == r * 0x1_0000_0000 + t,
                0 <= q < 0x1_0000_0000,
                0 <= t < 0x1_0000_0000,
        ;
    }
}

pub(crate) fn key_of_cell(c: Cell) -> (k: u64)
    ensures
        k == cell_key(c),
{
    let p = (c.x as i64 + 0x8000_0000) as u64;
    let q = (c.y as i64 + 0x8000_0000) as u64;
    assert(p * 0x1_0000_0000 + q < 0x1_0000_0000_0000_0000) by (nonlinear_arith)
        requires
            p < 0x1_0000_0000,
            q < 0x1_0000_0000,
    ;
    p * 0x1_0000_0000 + q
}

/// No cell is taken twice.
pub open spec fn distinct_cells(cells: Seq<Cell>) -> bool {
    forall|i: int, j: int| 0 <= i < cells.len() && 0 <= j < cells.len() && i != j ==> cells[i] != cells[j]
}

/// Every coordinate lies within `lim` of zero.
pub open spec fn within(cells: Seq<Cell>, lim: int) -> bool {
    forall|k: int| 0 <= k < cells.len() ==> -lim <= (#[trigger] cells[k]).x <= lim && -lim <= cells[k].y <= lim
}

/// Recording one more cell, distinct from the others, keeps the lookup of
/// cells exact.
proof fn lemma_occ_push(occ: Map<u64, usize>, cells: Seq<Cell>, c: Cell)
    requires
        cells.len() < usize::MAX,
        forall|q: int|
            0 <= q < cells.len() ==> #[trigger] occ.contains_key(cell_key(cells[q])) && occ[cell_key(cells[q])] == q,
        forall|key: u64| #[trigger] occ.contains_key(key) ==> occ[key] < cells.len() && cell_key(cells[occ[key] as int]) == key,
        !cells.contains(c),
    ensures
        forall|q: int|
            0 <= q < cells.len() + 1 ==> #[trigger] occ.insert(cell_key(c), cells.len() as usize).contains_key(
                cell_key(cells.push(c)[q]),
            ) && occ.insert(cell_key(c), cells.len() as usize)[cell_key(cells.push(c)[q])] == q,
        forall|key: u64|
            #[trigger] occ.insert(cell_key(c), cells.len() as usize).contains_key(key) ==> occ.insert(
                cell_key(c),
                cells.len() as usize,
            )[key] < cells.len() + 1 && cell_key(
                cells.push(c)[occ.insert(cell_key(c), cells.len() as usize)[key] as int],
            ) == key,
{
    let occ2 = occ.insert(cell_key(c), cells.len() as usize);
    let cells2 = cells.push(c);
    assert forall|q: int| 0 <= q < cells.len() + 1 implies #[trigger] occ2.contains_key(cell_key(cells2[q]))
        && occ2[cell_key(cells2[q])] == q by {
        if q < cells.len() {
            assert(cells2[q] == cells[q]);
            assert(cells[q] != c);
            lemma_cell_key(cells[q], c);
            assert(occ.contains_key(cell_key(cells[q])));
        }
    }
    assert forall|key: u64| #[trigger] occ2.contains_key(key) implies occ2[key] < cells.len() + 1 && cell_key(
        cells2[occ2[key] as int],
    ) == key by {
        if key != cell_key(c) {
            assert(occ.contains_key(key));
        }
    }
}

/// The rooms of one component as they are placed: map indices in
/// placement order, their cells, each map room's place in the order, and
/// which room holds each cell.
struct Placing {
    order: Vec<usize>,
    cells: Vec<Cell>,
    slot: Vec<usize>,
    occ: HashMapWithView<u64, usize>,
}

impl Placing {
    spec fn wf(&self, n: nat) -> bool {
        &&& self.slot@.len() == n
        &&& self.order@.len() == self.cells@.len()
        &&& self.order@.len() < usize::MAX
        &&& forall|k: int|
            0 <= k < self.order@.len() ==> #[trigger] self.order@[k] < n && self.slot@[self.order@[k] as int] == k
        &&& forall|i: int|
            0 <= i < n && #[trigger] self.slot@[i] != usize::MAX ==> self.slot@[i] < self.order@.len()
                && self.order@[self.slot@[i] as int] == i
        &&& distinct_cells(self.cells@)
        &&& forall|k: int|
            0 <= k < self.cells@.len() ==> #[trigger] self.occ@.contains_key(cell_key(self.cells@[k]))
                && self.occ@[cell_key(self.cells@[k])] == k
        &&& forall|key: u64|
            #[trigger] self.occ@.contains_key(key) ==> self.occ@[key] < self.cells@.len() && cell_key(
                self.cells@[self.occ@[key] as int],
            ) == key
    }

    /// An empty component over a map of `n` rooms.
    fn new(n: usize) -> (p: Placing)
        requires
            n < usize::MAX,
        ensures
            p.wf(n as nat),
            p.order@.len() == 0,
            forall|i: int| 0 <= i < n ==> #[trigger] p.slot@[i] == usize::MAX,
    {
        let mut slot: Vec<usize> = Vec::new();
        let mut i: usize = 0;
        while i < n
            invariant
                i <= n,
                slot@.len() == i,
                forall|k: int| 0 <= k < i ==> #[trigger] slot@[k] == usize::MAX,
            decreases n - i,
        {
            slot.push(usize::MAX);
            i = i + 1;
        }
        Placing { order: Vec::new(), cells: Vec::new(), slot, occ: HashMapWithView::new() }
    }

    /// Whether no room of the component stands on `c`.
    fn is_free(&self, c: Cell, Ghost(n): Ghost<nat>) -> (b: bool)
        requires
            self.wf(n),
        ensures
            b == !self.cells@.contains(c),
    {
        let k = key_of_cell(c);
        let b = self.occ.contains_key(&k);
        proof {
            if b {
                let j = self.occ@[k];
                lemma_cell_key(self.cells@[j as int], c);
                assert(self.cells@[j as int] == c);
            }
            if self.cells@.contains(c) {
                let j = choose|j: int| 0 <= j < self.cells@.len() && self.cells@[j] == c;
                assert(self.occ@.contains_key(cell_key(self.cells@[j])));
            }
        }
        !b
    }

    /// Where map room `i` stands, if it is in the component.
    fn cell_of(&self, i: usize, Ghost(n): Ghost<nat>) -> (r: Option<Cell>)
        requires
            self.wf(n),
            i < n,
        ensures
            r is Some <==> self.slot@[i as int] != usize::MAX,
            r matches Some(c) ==> c == self.cells@[self.slot@[i as int] as int],
    {
        let k = self.slot[i];
        if k == usize::MAX {
            None
        } else {
            Some(self.cells[k])
        }
    }

    /// Puts map room `i` on the free cell `c`.
    fn place(&mut self, i: usize, c: Cell, Ghost(n): Ghost<nat>)
        requires
            old(self).wf(n),
            i < n,
            old(self).slot@[i as int] == usize::MAX,
            !old(self).cells@.contains(c),
            old(self).order@.len() + 1 < usize::MAX,
        ensures
            final(self).wf(n),
            final(self).order@ == old(self).order@.push(i),
            final(self).cells@ == old(self).cells@.push(c),
            final(self).slot@ == old(self).slot@.update(i as int, old(self).order@.len() as usize),
    {
        let at = self.order.len();
        let ghost before = self.cells@;
        self.order.push(i);
        self.cells.push(c);
        self.slot.set(i, at);
        let k = key_of_cell(c);
        self.occ.insert(k, at);
        proof {
            assert forall|a: int, b: int|
                0 <= a < self.cells@.len() && 0 <= b < self.cells@.len() && a != b implies self.cells@[a]
                != self.cells@[b] by {
                if a == at {
                    assert(before[b] != c);
                } else if b == at {
                    assert(before[a] != c);
                }
            }
            assert forall|q: int| 0 <= q < self.cells@.len() implies #[trigger] self.occ@.contains_key(
                cell_key(self.cells@[q]),
            ) && self.occ@[cell_key(self.cells@[q])] == q by {
                if q < at {
                    lemma_cell_key(before[q], c);
                }
            }
            assert forall|key: u64| #[trigger] self.occ@.contains_key(key) implies self.occ@[key]
                < self.cells@.len() && cell_key(self.cells@[self.occ@[key] as int]) == key by {
            }
        }
    }
}

/// Where a grid rip leaves the cell `c`: to free the cell one step
/// `(dx, dy)` from `parent`, the half-plane from that cell on slides one
/// further the same way along the step's leading axis; the parent is never
/// in it.
pub open spec fn ripped(c: Cell, parent: Cell, dx: int, dy: int) -> Cell {
    let tx = parent.x + dx;
    let ty = parent.y + dy;
    if dx > 0 {
        if c.x >= tx { Cell { x: (c.x + 1) as i32, y: c.y } } else { c }
    } else if dx < 0 {
        if c.x <= tx { Cell { x: (c.x - 1) as i32, y: c.y } } else { c }
    } else if dy > 0 {
        if c.y >= ty { Cell { x: c.x, y: (c.y + 1) as i32 } } else { c }
    } else if dy < 0 {
        if c.y <= ty { Cell { x: c.x, y: (c.y - 1) as i32 } } else { c }
    } else {
        c
    }
}

/// A rip keeps every pair of cells on the same sides of each other, and
/// moves no two cells onto one.
proof fn lemma_ripped_pair(a: Cell, b: Cell, parent: Cell, dx: int, dy: int, lim: int)
    requires
        -1 <= dx <= 1,
        -1 <= dy <= 1,
        -lim <= a.x <= lim && -lim <= a.y <= lim,
        -lim <= b.x <= lim && -lim <= b.y <= lim,
        lim < i32::MAX,
    ensures
        sign(ripped(b, parent, dx, dy).x - ripped(a, parent, dx, dy).x) == sign(b.x - a.x),
        sign(ripped(b, parent, dx, dy).y - ripped(a, parent, dx, dy).y) == sign(b.y - a.y),
        a != b ==> ripped(a, parent, dx, dy) != ripped(b, parent, dx, dy),
{
}

impl Placing {
    /// Slides every cell as [`ripped`] says, so the cell one step
    /// `(dx, dy)` from `parent` comes free.
    #[verifier::spinoff_prover]
    fn rip(&mut self, parent: Cell, dx: i32, dy: i32, Ghost(n): Ghost<nat>, Ghost(lim): Ghost<int>)
        requires
            old(self).wf(n),
            within(old(self).cells@, lim),
            0 <= lim < i32::MAX,
            -1 <= dx <= 1,
            -1 <= dy <= 1,
            -lim <= parent.x <= lim,
            -lim <= parent.y <= lim,
        ensures
            final(self).wf(n),
            final(self).order@ == old(self).order@,
            final(self).slot@ == old(self).slot@,
            final(self).cells@.len() == old(self).cells@.len(),
            forall|k: int|
                0 <= k < old(self).cells@.len() ==> #[trigger] final(self).cells@[k] == ripped(
                    old(self).cells@[k],
                    parent,
                    dx as int,
                    dy as int,
                ),
            within(final(self).cells@, lim + 1),
            same_order(old(self).cells@, final(self).cells@),
    {
        let ghost before = self.cells@;
        let tx = parent.x as i64 + dx as i64;
        let ty = parent.y as i64 + dy as i64;
        let mut cells: Vec<Cell> = Vec::new();
        let mut occ: HashMapWithView<u64, usize> = HashMapWithView::new();
        let mut k: usize = 0;
        while k < self.cells.len()
            invariant
                k <= before.len(),
                before == self.cells@,
                within(before, lim),
                0 <= lim < i32::MAX,
                tx == parent.x + dx,
                ty == parent.y + dy,
                -1 <= dx <= 1,
                -1 <= dy <= 1,
                distinct_cells(before),
                cells@.len() == k,
                forall|q: int| 0 <= q < k ==> #[trigger] cells@[q] == ripped(before[q], parent, dx as int, dy as int),
                forall|q: int|
                    0 <= q < k ==> #[trigger] occ@.contains_key(cell_key(cells@[q])) && occ@[cell_key(cells@[q])]
                        == q,
                forall|key: u64|
                    #[trigger] occ@.contains_key(key) ==> occ@[key] < k && cell_key(cells@[occ@[key] as int]) == key,
            decreases before.len() - k,
        {
            let c = self.cells[k];
            let x = c.x as i64;
            let y = c.y as i64;
            let moved = if dx > 0 {
                if x >= tx { Cell { x: c.x + 1, y: c.y } } else { c }
            } else if dx < 0 {
                if x <= tx { Cell { x: c.x - 1, y: c.y } } else { c }
            } else if dy > 0 {
                if y >= ty { Cell { x: c.x, y: c.y + 1 } } else { c }
            } else if dy < 0 {
                if y <= ty { Cell { x: c.x, y: c.y - 1 } } else { c }
            } else {
                c
            };
            assert(moved == ripped(before[k as int], parent, dx as int, dy as int));
            let ghost prior = cells@;
            let ghost occ_before = occ@;
            proof {
                assert forall|q: int| 0 <= q < k implies prior[q] != moved by {
                    assert(before[q] != before[k as int]);
                    lemma_ripped_pair(before[q], before[k as int], parent, dx as int, dy as int, lim);
                }
                lemma_occ_push(occ_before, prior, moved);
            }
            cells.push(moved);
            let key = key_of_cell(moved);
            occ.insert(key, k);
            assert(cells@ == prior.push(moved));
            assert(occ@ == occ_before.insert(cell_key(moved), prior.len() as usize));
            k = k + 1;
        }
        self.cells = cells;
        self.occ = occ;
        proof {
            assert forall|i: int, j: int|
                0 <= i < before.len() && 0 <= j < before.len() implies sign(self.cells@[j].x - self.cells@[i].x)
                == sign(before[j].x - before[i].x) && sign(self.cells@[j].y - self.cells@[i].y) == sign(
                before[j].y - before[i].y,
            ) by {
                lemma_ripped_pair(before[i], before[j], parent, dx as int, dy as int, lim);
            }
            assert forall|i: int, j: int|
                0 <= i < self.cells@.len() && 0 <= j < self.cells@.len() && i != j implies self.cells@[i]
                != self.cells@[j] by {
                lemma_ripped_pair(before[i], before[j], parent, dx as int, dy as int, lim);
            }
        }
    }
}

// ---------------------------------------------------------------------
// Breadth-first placement
// ---------------------------------------------------------------------

/// The most exits any room has.
pub open spec fn exits_cap(rooms: Seq<Room>) -> nat
    decreases rooms.len(),
{
    if rooms.len() == 0 {
        0
    } else {
        let c = exits_cap(rooms.drop_last());
        let e = rooms.last().exits@.len();
        if e > c {
            e
        } else {
            c
        }
    }
}

proof fn lemma_exits_cap(rooms: Seq<Room>)
    ensures
        forall|i: int| 0 <= i < rooms.len() ==> (#[trigger] rooms[i]).exits@.len() <= exits_cap(rooms),
    decreases rooms.len(),
{
    if rooms.len() > 0 {
        lemma_exits_cap(rooms.drop_last());
        assert forall|i: int| 0 <= i < rooms.len() implies (#[trigger] rooms[i]).exits@.len() <= exits_cap(rooms) by {
            if i < rooms.len() - 1 {
                assert(rooms.drop_last()[i] == rooms[i]);
            }
        }
    }
}

/// A layout of these rooms keeps its coordinates inside what a cell
/// holds: every placement, rip and move stays within a bound that grows
/// with the rooms and their exits.
pub open spec fn layout_fits(rooms: Seq<Room>) -> bool {
    128 * rooms.len() * (exits_cap(rooms) + 1) <= i32::MAX
}

/// `m` finds each room's index by its id.
pub open spec fn indexes(m: Map<u32, usize>, rooms: Seq<Room>) -> bool {
    &&& forall|k: u32| #[trigger] m.contains_key(k) ==> m[k] < rooms.len() && rooms[m[k] as int].id.0 == k
    &&& forall|i: int| 0 <= i < rooms.len() ==> #[trigger] m.contains_key(rooms[i].id.0)
}

fn index_rooms(rooms: &Vec<Room>) -> (m: HashMapWithView<u32, usize>)
    ensures
        indexes(m@, rooms@),
{
    let mut m: HashMapWithView<u32, usize> = HashMapWithView::new();
    let mut i: usize = 0;
    while i < rooms.len()
        invariant
            i <= rooms@.len(),
            forall|k: u32| #[trigger] m@.contains_key(k) ==> m@[k] < i && rooms@[m@[k] as int].id.0 == k,
            forall|k: int| 0 <= k < i ==> #[trigger] m@.contains_key(rooms@[k].id.0),
        decreases rooms.len() - i,
    {
        m.insert(rooms[i].id.0, i);
        i = i + 1;
    }
    m
}

/// The index of the room with this id.
fn index_of(m: &HashMapWithView<u32, usize>, rooms: &Vec<Room>, id: RoomId) -> (r: Option<usize>)
    requires
        indexes(m@, rooms@),
        ids_unique(rooms@),
    ensures
        r matches Some(i) ==> i < rooms@.len() && rooms@[i as int].id == id,
        r is None ==> forall|i: int| 0 <= i < rooms@.len() ==> #[trigger] rooms@[i].id != id,
{
    match m.get(&id.0) {
        Some(i) => Some(*i),
        None => {
            assert forall|i: int| 0 <= i < rooms@.len() implies #[trigger] rooms@[i].id != id by {
                assert(m@.contains_key(rooms@[i].id.0));
            }
            None
        },
    }
}

/// A bearingless doorway between rooms `a` and `b` is a building's front
/// door: one end indoors, the other in the open air.
pub open spec fn front_door(rooms: Seq<Room>, air: Seq<bool>, a: int, b: int) -> bool {
    (sense_of(rooms[a]) == Sense::Indoor && air[b]) || (sense_of(rooms[b]) == Sense::Indoor && air[a])
}

fn front_door_exec(sense: &Vec<Sense>, air: &Vec<bool>, a: usize, b: usize, Ghost(rooms): Ghost<Seq<Room>>) -> (r: bool)
    requires
        a < rooms.len(),
        b < rooms.len(),
        sense@.len() == rooms.len(),
        air@.len() == rooms.len(),
        forall|i: int| 0 <= i < rooms.len() ==> #[trigger] sense@[i] == sense_of(rooms[i]),
    ensures
        r == front_door(rooms, air@, a as int, b as int),
{
    (sense[a] == Sense::Indoor && air[b]) || (sense[b] == Sense::Indoor && air[a])
}

/// Each room is placed exactly when an earlier component took it or this
/// one holds it, and the two never share a room.
pub open spec fn placed_ok(placed: Seq<bool>, prev: Seq<bool>, slot: Seq<usize>) -> bool {
    &&& placed.len() == prev.len()
    &&& slot.len() == prev.len()
    &&& forall|i: int| 0 <= i < prev.len() ==> #[trigger] placed[i] == (prev[i] || slot[i] != usize::MAX)
    &&& forall|i: int| 0 <= i < prev.len() && #[trigger] prev[i] ==> slot[i] == usize::MAX
}

/// Every queued doorway joins two rooms of the map.
pub open spec fn pending_ok(pending: Seq<(usize, usize)>, n: nat) -> bool {
    forall|k: int| 0 <= k < pending.len() ==> (#[trigger] pending[k]).0 < n && pending[k].1 < n
}

proof fn lemma_mul_step(h: int, c: int)
    ensures
        (h + 1) * c == h * c + c,
{
    assert((h + 1) * c == h * c + c) by (nonlinear_arith);
}

proof fn lemma_budget(n: int, cap: int, len: int, rips: int)
    requires
        0 <= len <= n,
        0 <= cap,
        0 <= rips <= n * cap,
        128 * n * (cap + 1) <= i32::MAX,
    ensures
        6 * (len + rips) + 64 <= i32::MAX,
        6 * (len + rips) <= 6 * n * (cap + 1),
        6 * (len + rips) <= 6 * (n * (cap + 1)),
        n <= n * (cap + 1),
        n * (cap + 1) < 0x100_0000,
        n * cap < 0x100_0000,
        n <= i32::MAX,
{
    let m = n * (cap + 1);
    assert(128 * n * (cap + 1) == 128 * m && n <= m && n * cap + n == m && 6 * n * (cap + 1) == 6 * m) by (nonlinear_arith)
        requires
            m == n * (cap + 1),
            0 <= n,
            0 <= cap,
    ;
    assert(6 * (len + rips) <= 6 * m);
    if m >= 2 {
        assert(6 * m + 64 <= 128 * m);
    }
}

proof fn lemma_mul_le(a: int, b: int, c: int)
    requires
        0 <= a <= b,
        0 <= c,
    ensures
        a * c <= b * c,
{
    assert(a * c <= b * c) by (nonlinear_arith)
        requires
            0 <= a <= b,
            0 <= c,
    ;
}

/// The shared inputs of placement: the rooms, their index, bearings,
/// senses and open air.
pub open spec fn inputs_ok(
    rooms: Seq<Room>,
    ids: Map<u32, usize>,
    sense: Seq<Sense>,
    air: Seq<bool>,
    cap: nat,
) -> bool {
    &&& ids_unique(rooms)
    &&& indexes(ids, rooms)
    &&& sense.len() == rooms.len()
    &&& air.len() == rooms.len()
    &&& forall|i: int| 0 <= i < rooms.len() ==> #[trigger] sense[i] == sense_of(rooms[i])
    &&& forall|i: int| 0 <= i < rooms.len() ==> (#[trigger] rooms[i]).exits@.len() <= cap
    &&& 128 * rooms.len() * (cap + 1) <= i32::MAX
}

/// Places, breadth first from the room at `head` of the order, every room
/// a stated bearing reaches: a room whose cell is taken rips the grid, and
/// a bearingless doorway that is not a front door is queued in `pending`
/// for later.
#[verifier::rlimit(40)]
fn spread(
    rooms: &Vec<Room>,
    ids: &HashMapWithView<u32, usize>,
    dirs: &DirectionMap,
    sense: &Vec<Sense>,
    air: &Vec<bool>,
    p: &mut Placing,
    placed: &mut Vec<bool>,
    pending: &mut Vec<(usize, usize)>,
    head: usize,
    Ghost(prev): Ghost<Seq<bool>>,
    Ghost(cap): Ghost<nat>,
    Ghost(rips): Ghost<int>,
) -> (r: Ghost<int>)
    requires
        inputs_ok(rooms@, ids@, sense@, air@, cap),
        old(p).wf(rooms@.len()),
        placed_ok(old(placed)@, prev, old(p).slot@),
        prev.len() == rooms@.len(),
        head <= old(p).order@.len(),
        0 <= rips <= head * cap,
        within(old(p).cells@, 6 * (old(p).order@.len() + rips)),
        pending_ok(old(pending)@, rooms@.len()),
    ensures
        final(p).wf(rooms@.len()),
        placed_ok(final(placed)@, prev, final(p).slot@),
        final(p).order@.len() >= old(p).order@.len(),
        final(p).order@.take(old(p).order@.len() as int) == old(p).order@,
        rips <= r@ <= final(p).order@.len() * cap,
        within(final(p).cells@, 6 * (final(p).order@.len() + r@)),
        pending_ok(final(pending)@, rooms@.len()),
{
    let ghost n = rooms@.len();
    let ghost start = p.order@;
    let ghost rips0 = rips;
    let ghost mut rips = rips;
    let mut h = head;
    while h < p.order.len()
        invariant
            inputs_ok(rooms@, ids@, sense@, air@, cap),
            n == rooms@.len(),
            p.wf(n),
            placed_ok(placed@, prev, p.slot@),
            prev.len() == n,
            h <= p.order@.len(),
            p.order@.len() >= start.len(),
            p.order@.take(start.len() as int) == start,
            rips0 <= rips,
            0 <= rips <= h * cap,
            within(p.cells@, 6 * (p.order@.len() + rips)),
            pending_ok(pending@, n),
        decreases n - h, n - p.order@.len(),
    {
        proof {
            assert(p.order@.len() <= n) by {
                lemma_order_fits(p, n);
            }
        }
        let from = p.order[h];
        h = h + 1;
        proof {
            lemma_mul_step(h - 1, cap as int);
        }
        let room = &rooms[from];
        let mut e: usize = 0;
        while e < room.exits.len()
            invariant
                inputs_ok(rooms@, ids@, sense@, air@, cap),
                n == rooms@.len(),
                from < n,
                *room == rooms@[from as int],
                p.wf(n),
                p.slot@[from as int] != usize::MAX,
                placed_ok(placed@, prev, p.slot@),
                prev.len() == n,
                1 <= h <= p.order@.len(),
                p.order@.len() >= start.len(),
                p.order@.take(start.len() as int) == start,
                e <= room.exits@.len(),
                rips0 <= rips,
                0 <= rips <= (h - 1) * cap + e,
                (h - 1) * cap + cap == h * cap,
                within(p.cells@, 6 * (p.order@.len() + rips)),
                pending_ok(pending@, n),
            decreases room.exits@.len() - e,
        {
            proof {
                assert(room.exits@.len() <= cap);
                assert(p.order@.len() <= n) by {
                    lemma_order_fits(p, n);
                }
                lemma_mul_le(h as int, n as int, cap as int);
                lemma_budget(n as int, cap as int, p.order@.len() as int, rips + 1);
            }
            let to = room.exits[e].to;
            e = e + 1;
            let t = match index_of(ids, rooms, to) {
                Some(t) => t,
                None => {
                    continue;
                },
            };
            if placed[t] {
                continue;
            }
            match dirs.get(room.id, to) {
                None => {
                    if !front_door_exec(sense, air, from, t, Ghost(rooms@)) {
                        pending.push((from, t));
                    }
                },
                Some(d) => {
                    let (dx, dy) = d.offset();
                    let ghost lim = 6 * (p.order@.len() + rips);
                    let pos = p.cell_of(from, Ghost(n)).unwrap();
                    assert(within(p.cells@, lim));
                    assert(p.cells@[p.slot@[from as int] as int] == pos);
                    let mut target = Cell { x: pos.x + dx, y: pos.y + dy };
                    if !p.is_free(target, Ghost(n)) {
                        p.rip(pos, dx, dy, Ghost(n), Ghost(lim));
                        proof {
                            rips = rips + 1;
                        }
                        let fresh = p.cell_of(from, Ghost(n)).unwrap();
                        assert(p.cells@[p.slot@[from as int] as int] == fresh);
                        target = Cell { x: fresh.x + dx, y: fresh.y + dy };
                    }
                    if p.is_free(target, Ghost(n)) {
                        proof {
                            lemma_budget(n as int, cap as int, p.order@.len() as int, rips);
                        }
                        let ghost before = p.order@;
                        let ghost lim2 = 6 * (p.order@.len() + rips);
                        p.place(t, target, Ghost(n));
                        placed.set(t, true);
                        proof {
                            assert(p.order@.take(start.len() as int) =~= before.take(start.len() as int));
                            assert forall|k: int| 0 <= k < p.cells@.len() implies -(6 * (p.order@.len() + rips))
                                <= (#[trigger] p.cells@[k]).x <= 6 * (p.order@.len() + rips) && -(6 * (
                            p.order@.len() + rips)) <= p.cells@[k].y <= 6 * (p.order@.len() + rips) by {
                                if k < before.len() {
                                    assert(-lim2 <= p.cells@[k].x <= lim2);
                                }
                            }
                            assert forall|i: int| 0 <= i < n implies #[trigger] placed@[i] == (prev[i] || p.slot@[i]
                                != usize::MAX) by {
                            }
                        }
                    }
                },
            }
        }
        assert(room.exits@.len() <= cap);
    }
    Ghost(rips)
}

proof fn lemma_order_fits(p: &Placing, n: nat)
    requires
        p.wf(n),
    ensures
        p.order@.len() <= n,
{
    let ord = p.order@;
    let s = vstd::set_lib::set_int_range(0, ord.len() as int);
    let t = vstd::set_lib::set_int_range(0, n as int);
    let f = |k: int| ord[k] as int;
    assert forall|a: int, b: int| s.contains(a) && s.contains(b) && #[trigger] f(a) == #[trigger] f(b) implies a == b by {
        assert(p.slot@[ord[a] as int] == a);
        assert(p.slot@[ord[b] as int] == b);
    }
    vstd::set_lib::lemma_int_range(0, ord.len() as int);
    vstd::set_lib::lemma_int_range(0, n as int);
    vstd::set_lib::lemma_map_size(s, s.map(f), f);
    assert forall|v: int| s.map(f).contains(v) implies t.contains(v) by {
        let a = choose|a: int| s.contains(a) && f(a) == v;
        assert(ord[a] < n);
    }
    vstd::set_lib::lemma_len_subset(s.map(f), t);
}

/// Places the rooms joined only by a bearingless doorway, once the
/// bearings have placed all they can: each on the first free cell beside
/// the room it is entered from, after which its own bearings place what
/// they reach. Repeats while a pass places anything; a doorway whose
/// room is already placed, or whose near side is not in this component,
/// is dropped.
#[verifier::rlimit(40)]
fn drain(
    rooms: &Vec<Room>,
    ids: &HashMapWithView<u32, usize>,
    dirs: &DirectionMap,
    sense: &Vec<Sense>,
    air: &Vec<bool>,
    p: &mut Placing,
    placed: &mut Vec<bool>,
    pending: Vec<(usize, usize)>,
    Ghost(prev): Ghost<Seq<bool>>,
    Ghost(cap): Ghost<nat>,
    Ghost(rips): Ghost<int>,
) -> (r: Ghost<int>)
    requires
        inputs_ok(rooms@, ids@, sense@, air@, cap),
        old(p).wf(rooms@.len()),
        placed_ok(old(placed)@, prev, old(p).slot@),
        prev.len() == rooms@.len(),
        0 <= rips <= old(p).order@.len() * cap,
        within(old(p).cells@, 6 * (old(p).order@.len() + rips)),
        pending_ok(pending@, rooms@.len()),
    ensures
        final(p).wf(rooms@.len()),
        placed_ok(final(placed)@, prev, final(p).slot@),
        final(p).order@.len() >= old(p).order@.len(),
        final(p).order@.take(old(p).order@.len() as int) == old(p).order@,
        0 <= r@ <= final(p).order@.len() * cap,
        within(final(p).cells@, 6 * (final(p).order@.len() + r@)),
{
    let ghost n = rooms@.len();
    let ghost start = p.order@;
    let ghost mut rips = rips;
    let mut pending = pending;
    loop
        invariant
            inputs_ok(rooms@, ids@, sense@, air@, cap),
            n == rooms@.len(),
            p.wf(n),
            placed_ok(placed@, prev, p.slot@),
            prev.len() == n,
            p.order@.len() >= start.len(),
            p.order@.take(start.len() as int) == start,
            0 <= rips <= p.order@.len() * cap,
            within(p.cells@, 6 * (p.order@.len() + rips)),
            pending_ok(pending@, n),
        decreases n - p.order@.len(),
    {
        proof {
            lemma_order_fits(p, n);
        }
        let ghost len0 = p.order@.len();
        let mut placed_any = false;
        let mut still: Vec<(usize, usize)> = Vec::new();
        let mut k: usize = 0;
        while k < pending.len()
            invariant
                inputs_ok(rooms@, ids@, sense@, air@, cap),
                n == rooms@.len(),
                p.wf(n),
                placed_ok(placed@, prev, p.slot@),
                prev.len() == n,
                p.order@.len() >= start.len(),
                p.order@.take(start.len() as int) == start,
                p.order@.len() >= len0,
                placed_any ==> p.order@.len() > len0,
                0 <= rips <= p.order@.len() * cap,
                within(p.cells@, 6 * (p.order@.len() + rips)),
                pending_ok(pending@, n),
                pending_ok(still@, n),
                k <= pending@.len(),
            decreases pending@.len() - k,
        {
            let (from, target) = pending[k];
            k = k + 1;
            if placed[target] {
                continue;
            }
            let from_at = match p.cell_of(from, Ghost(n)) {
                Some(c) => c,
                None => {
                    continue;
                },
            };
            proof {
                lemma_order_fits(p, n);
                lemma_mul_le(p.order@.len() as int, n as int, cap as int);
                lemma_budget(n as int, cap as int, p.order@.len() as int, rips);
                assert(p.cells@[p.slot@[from as int] as int] == from_at);
            }
            let spot = match free_cell_near(from_at, p.cells.as_slice()) {
                Some(c) => c,
                None => {
                    still.push((from, target));
                    continue;
                },
            };
            let ghost before = p.order@;
            let ghost lim = 6 * (p.order@.len() + rips);
            p.place(target, spot, Ghost(n));
            placed.set(target, true);
            placed_any = true;
            proof {
                assert(p.order@.take(start.len() as int) =~= before.take(start.len() as int));
                assert(chebyshev_of(spot, from_at) <= 6);
                assert forall|q: int| 0 <= q < p.cells@.len() implies -(6 * (p.order@.len() + rips)) <= (
                #[trigger] p.cells@[q]).x <= 6 * (p.order@.len() + rips) && -(6 * (p.order@.len() + rips))
                    <= p.cells@[q].y <= 6 * (p.order@.len() + rips) by {
                    if q < before.len() {
                        assert(-lim <= p.cells@[q].x <= lim);
                    }
                }
                assert forall|i: int| 0 <= i < n implies #[trigger] placed@[i] == (prev[i] || p.slot@[i]
                    != usize::MAX) by {
                }
                lemma_mul_step(before.len() as int, cap as int);
                lemma_mul_le((before.len() + 1) as int, p.order@.len() as int, cap as int);
            }
            let ghost mid = p.order@;
            let head = p.order.len() - 1;
            let got = spread(
                rooms,
                ids,
                dirs,
                sense,
                air,
                p,
                placed,
                &mut still,
                head,
                Ghost(prev),
                Ghost(cap),
                Ghost(rips),
            );
            proof {
                rips = got@;
                assert(p.order@.take(start.len() as int) =~= p.order@.take(mid.len() as int).take(start.len() as int));
            }
        }
        pending = still;
        proof {
            lemma_order_fits(p, n);
        }
        if !placed_any {
            break;
        }
    }
    Ghost(rips)
}

// ---------------------------------------------------------------------
// The hill climb
// ---------------------------------------------------------------------

/// One compass edge as seen from one of its rooms: the other room's place
/// in the order, and the signs its deltas must keep.
#[derive(Clone, Copy)]
struct Sign {
    other: usize,
    sx: i32,
    sy: i32,
}

/// Each room's edge list names rooms of the component, with signs, and
/// holds at most `m` edges.
spec fn signs_ok(adj: Seq<Vec<Sign>>, len: nat, m: nat) -> bool {
    &&& adj.len() == len
    &&& forall|k: int| 0 <= k < len ==> (#[trigger] adj[k])@.len() <= m
    &&& forall|k: int, e: int|
        0 <= k < len && 0 <= e < adj[k]@.len() ==> (#[trigger] adj[k]@[e]).other < len && -1 <= adj[k]@[e].sx <= 1
            && -1 <= adj[k]@[e].sy <= 1
}

/// For every compass edge between two rooms of the component, the signs
/// it asks of each end: the stated step from the room it leaves, and the
/// reverse from the room it reaches.
fn compass_signs(
    rooms: &Vec<Room>,
    ids: &HashMapWithView<u32, usize>,
    dirs: &DirectionMap,
    p: &Placing,
    Ghost(cap): Ghost<nat>,
) -> (adj: Vec<Vec<Sign>>)
    requires
        ids_unique(rooms@),
        indexes(ids@, rooms@),
        p.wf(rooms@.len()),
        forall|i: int| 0 <= i < rooms@.len() ==> (#[trigger] rooms@[i]).exits@.len() <= cap,
    ensures
        signs_ok(adj@, p.order@.len(), 2 * p.order@.len() * cap),
{
    let ghost n = rooms@.len();
    let len = p.order.len();
    let mut adj: Vec<Vec<Sign>> = Vec::new();
    let mut i: usize = 0;
    while i < len
        invariant
            i <= len,
            adj@.len() == i,
            forall|k: int| 0 <= k < i ==> (#[trigger] adj@[k])@.len() == 0,
        decreases len - i,
    {
        adj.push(Vec::new());
        i = i + 1;
    }
    let ghost mut total: int = 0;
    let mut k: usize = 0;
    while k < len
        invariant
            k <= len,
            len == p.order@.len(),
            p.wf(n),
            n == rooms@.len(),
            ids_unique(rooms@),
            indexes(ids@, rooms@),
            forall|i: int| 0 <= i < rooms@.len() ==> (#[trigger] rooms@[i]).exits@.len() <= cap,
            0 <= total <= 2 * k * cap,
            signs_ok(adj@, len as nat, total as nat),
        decreases len - k,
    {
        let room = &rooms[p.order[k]];
        assert(room.exits@.len() <= cap);
        let mut e: usize = 0;
        while e < room.exits.len()
            invariant
                k < len,
                len == p.order@.len(),
                p.wf(n),
                n == rooms@.len(),
                *room == rooms@[p.order@[k as int] as int],
                ids_unique(rooms@),
                indexes(ids@, rooms@),
                e <= room.exits@.len(),
                room.exits@.len() <= cap,
                0 <= total <= 2 * k * cap + 2 * e,
                signs_ok(adj@, len as nat, total as nat),
            decreases room.exits@.len() - e,
        {
            let to = room.exits[e].to;
            e = e + 1;
            let t = match index_of(ids, rooms, to) {
                Some(t) => t,
                None => {
                    continue;
                },
            };
            let other = p.slot[t];
            if other == usize::MAX {
                continue;
            }
            let d = match dirs.get(room.id, to) {
                Some(d) => d,
                None => {
                    continue;
                },
            };
            if !d.is_compass() {
                continue;
            }
            let (dx, dy) = d.offset();
            adj[k].push(Sign { other, sx: dx, sy: dy });
            adj[other].push(Sign { other: k, sx: -dx, sy: -dy });
            proof {
                total = total + 2;
            }
        }
        proof {
            lemma_mul_step(k as int, cap as int);
            assert(2 * (k + 1) * cap == 2 * k * cap + 2 * cap) by (nonlinear_arith)
                requires
                    (k + 1) * cap == k * cap + cap,
            ;
        }
        k = k + 1;
    }
    adj
}

/// What placing a room at `at` costs its edges: 1000 for each edge whose
/// signs it breaks, plus each edge's king-move length.
spec fn edge_cost_of(at: Cell, edges: Seq<Sign>, cells: Seq<Cell>) -> int
    decreases edges.len(),
{
    if edges.len() == 0 {
        0
    } else {
        let e = edges.last();
        let o = cells[e.other as int];
        edge_cost_of(at, edges.drop_last(), cells) + (if violated(at, o, e.sx as int, e.sy as int) {
            1000int
        } else {
            0int
        }) + chebyshev_of(o, at)
    }
}

fn edge_cost(at: Cell, edges: &Vec<Sign>, cells: &Vec<Cell>, Ghost(lim): Ghost<int>) -> (c: i64)
    requires
        within(cells@, lim),
        0 <= lim <= 0x3000_0000,
        -lim - 2 <= at.x <= lim + 2,
        -lim - 2 <= at.y <= lim + 2,
        edges@.len() <= 0x400_0000,
        forall|e: int| 0 <= e < edges@.len() ==> (#[trigger] edges@[e]).other < cells@.len(),
    ensures
        c == edge_cost_of(at, edges@, cells@),
{
    let mut cost: i64 = 0;
    let mut i: usize = 0;
    while i < edges.len()
        invariant
            i <= edges@.len(),
            within(cells@, lim),
            0 <= lim <= 0x3000_0000,
            -lim - 2 <= at.x <= lim + 2,
            -lim - 2 <= at.y <= lim + 2,
            edges@.len() <= 0x400_0000,
            forall|e: int| 0 <= e < edges@.len() ==> (#[trigger] edges@[e]).other < cells@.len(),
            cost == edge_cost_of(at, edges@.take(i as int), cells@),
            0 <= cost <= i * 0x1_0000_0000,
        decreases edges.len() - i,
    {
        let e = edges[i];
        let o = cells[e.other];
        assert(edges@[i as int].other < cells@.len());
        assert(o == cells@[e.other as int]);
        assert(-lim <= o.x <= lim && -lim <= o.y <= lim);
        assert(edges@.take(i + 1).drop_last() =~= edges@.take(i as int));
        let dx = o.x as i64 - at.x as i64;
        let dy = o.y as i64 - at.y as i64;
        let wrong = violated_at(at, o, e.sx, e.sy);
        let ax = if dx < 0 { -dx } else { dx };
        let ay = if dy < 0 { -dy } else { dy };
        let len = if ax >= ay { ax } else { ay };
        let step: i64 = if wrong { 1000 + len } else { len };
        assert(len == chebyshev_of(o, at));
        cost = cost + step;
        i = i + 1;
    }
    assert(edges@.take(i as int) =~= edges@);
    cost
}

/// Every edge keeps its signs with the room at `at`.
spec fn signs_hold(at: Cell, edges: Seq<Sign>, cells: Seq<Cell>) -> bool {
    forall|e: int| 0 <= e < edges.len() ==> !violated(at, cells[(#[trigger] edges[e]).other as int], edges[e].sx as int, edges[e].sy as int)
}

fn all_signs_hold(at: Cell, edges: &Vec<Sign>, cells: &Vec<Cell>, Ghost(lim): Ghost<int>) -> (b: bool)
    requires
        within(cells@, lim),
        0 <= lim <= 0x3000_0000,
        -lim - 2 <= at.x <= lim + 2,
        -lim - 2 <= at.y <= lim + 2,
        forall|e: int| 0 <= e < edges@.len() ==> (#[trigger] edges@[e]).other < cells@.len(),
    ensures
        b == signs_hold(at, edges@, cells@),
{
    let mut i: usize = 0;
    while i < edges.len()
        invariant
            i <= edges@.len(),
            within(cells@, lim),
            0 <= lim <= 0x3000_0000,
            -lim - 2 <= at.x <= lim + 2,
            -lim - 2 <= at.y <= lim + 2,
            forall|e: int| 0 <= e < edges@.len() ==> (#[trigger] edges@[e]).other < cells@.len(),
            forall|e: int|
                0 <= e < i ==> !violated(at, cells@[(#[trigger] edges@[e]).other as int], edges@[e].sx as int, edges@[e].sy as int),
        decreases edges.len() - i,
    {
        let e = edges[i];
        let o = cells[e.other];
        assert(edges@[i as int].other < cells@.len());
        assert(o == cells@[e.other as int]);
        assert(-lim <= o.x <= lim && -lim <= o.y <= lim);
        if violated_at(at, o, e.sx, e.sy) {
            return false;
        }
        i = i + 1;
    }
    true
}

impl Placing {
    /// Moves the room at place `k` of the order onto the free cell `c`.
    fn move_to(&mut self, k: usize, c: Cell, Ghost(n): Ghost<nat>)
        requires
            old(self).wf(n),
            k < old(self).cells@.len(),
            !old(self).cells@.contains(c),
        ensures
            final(self).wf(n),
            final(self).order@ == old(self).order@,
            final(self).slot@ == old(self).slot@,
            final(self).cells@ == old(self).cells@.update(k as int, c),
    {
        let ghost before = self.cells@;
        let ghost occ0 = self.occ@;
        let old_key = key_of_cell(self.cells[k]);
        self.occ.remove(&old_key);
        self.cells.set(k, c);
        let new_key = key_of_cell(c);
        self.occ.insert(new_key, k);
        proof {
            assert forall|a: int, b: int|
                0 <= a < self.cells@.len() && 0 <= b < self.cells@.len() && a != b implies self.cells@[a]
                != self.cells@[b] by {
                if a == k {
                    assert(before[b] != c);
                } else if b == k {
                    assert(before[a] != c);
                } else {
                    assert(before[a] != before[b]);
                }
            }
            assert forall|q: int| 0 <= q < self.cells@.len() implies #[trigger] self.occ@.contains_key(
                cell_key(self.cells@[q]),
            ) && self.occ@[cell_key(self.cells@[q])] == q by {
                if q != k {
                    assert(before[q] != before[k as int]);
                    assert(before[q] != c);
                    lemma_cell_key(before[q], before[k as int]);
                    lemma_cell_key(before[q], c);
                    assert(occ0.contains_key(cell_key(before[q])));
                }
            }
            assert forall|key: u64| #[trigger] self.occ@.contains_key(key) implies self.occ@[key]
                < self.cells@.len() && cell_key(self.cells@[self.occ@[key] as int]) == key by {
                if key != new_key {
                    assert(occ0.contains_key(key) && key != old_key);
                    let q = occ0[key];
                    assert(cell_key(before[q as int]) == key);
                    if q == k {
                        assert(false);
                    }
                }
            }
        }
    }
}

/// Weighs the candidate cell `cand` for the room at place `k`: kept as the
/// best so far when it is free, keeps every edge's signs, and costs
/// strictly less than the best so far.
fn consider(
    cand: Cell,
    edges: &Vec<Sign>,
    p: &Placing,
    best: &mut Option<Cell>,
    best_cost: &mut i64,
    Ghost(n): Ghost<nat>,
    Ghost(lim): Ghost<int>,
)
    requires
        p.wf(n),
        within(p.cells@, lim),
        0 <= lim <= 0x3000_0000,
        -lim - 2 <= cand.x <= lim + 2,
        -lim - 2 <= cand.y <= lim + 2,
        edges@.len() <= 0x400_0000,
        forall|e: int| 0 <= e < edges@.len() ==> (#[trigger] edges@[e]).other < p.cells@.len(),
        *old(best) matches Some(b) ==> !p.cells@.contains(b) && signs_hold(b, edges@, p.cells@) && -lim - 2 <= b.x
            <= lim + 2 && -lim - 2 <= b.y <= lim + 2,
    ensures
        *final(best) matches Some(b) ==> !p.cells@.contains(b) && signs_hold(b, edges@, p.cells@) && -lim - 2
            <= b.x <= lim + 2 && -lim - 2 <= b.y <= lim + 2,
        *final(best_cost) <= *old(best_cost),
        *old(best) is Some ==> *final(best) is Some,
        ({
            let takes = !p.cells@.contains(cand) && signs_hold(cand, edges@, p.cells@) && edge_cost_of(
                cand,
                edges@,
                p.cells@,
            ) < *old(best_cost);
            &&& takes ==> *final(best) == Some(cand) && *final(best_cost) == edge_cost_of(cand, edges@, p.cells@)
            &&& !takes ==> *final(best) == *old(best) && *final(best_cost) == *old(best_cost)
        }),
{
    if p.is_free(cand, Ghost(n)) && all_signs_hold(cand, edges, &p.cells, Ghost(lim)) {
        let c = edge_cost(cand, edges, &p.cells, Ghost(lim));
        if c < *best_cost {
            *best = Some(cand);
            *best_cost = c;
        }
    }
}

/// Up to twelve passes over the rooms in order; in each, a room with
/// edges moves to the cheapest free cell among those beside where its
/// neighbours want it and around where it stands, if every one of its
/// edges keeps its signs there and its edges cost strictly less than
/// where it stands. Stops after a pass that moves nothing.
#[verifier::rlimit(40)]
fn hill_climb(adj: &Vec<Vec<Sign>>, p: &mut Placing, Ghost(n): Ghost<nat>, Ghost(m): Ghost<nat>, Ghost(lim0): Ghost<int>) -> (r: Ghost<int>)
    requires
        old(p).wf(n),
        signs_ok(adj@, old(p).order@.len(), m),
        m <= 0x400_0000,
        within(old(p).cells@, lim0),
        0 <= lim0,
        lim0 + 24 * old(p).order@.len() <= 0x3000_0000,
    ensures
        final(p).wf(n),
        final(p).order@ == old(p).order@,
        final(p).slot@ == old(p).slot@,
        within(final(p).cells@, r@),
        0 <= r@ <= lim0 + 24 * old(p).order@.len(),
{
    let len = p.order.len();
    let ghost order0 = p.order@;
    let ghost slot0 = p.slot@;
    let ghost mut lim = lim0;
    let ghost mut moves: int = 0;
    let mut improved = true;
    let mut passes: usize = 0;
    while improved && passes < 12
        invariant
            p.wf(n),
            p.order@ == order0,
            p.slot@ == slot0,
            len == p.order@.len(),
            signs_ok(adj@, len as nat, m),
            m <= 0x400_0000,
            passes <= 12,
            0 <= moves <= passes * len,
            lim == lim0 + 2 * moves,
            0 <= lim0,
            lim0 + 24 * len <= 0x3000_0000,
            within(p.cells@, lim),
        decreases 12 - passes,
    {
        improved = false;
        passes = passes + 1;
        proof {
            lemma_mul_step((passes - 1) as int, len as int);
        }
        let mut k: usize = 0;
        while k < len
            invariant
                p.wf(n),
                p.order@ == order0,
                p.slot@ == slot0,
                len == p.order@.len(),
                signs_ok(adj@, len as nat, m),
                m <= 0x400_0000,
                1 <= passes <= 12,
                k <= len,
                0 <= moves <= (passes - 1) * len + k,
                (passes - 1) * len + len == passes * len,
                lim == lim0 + 2 * moves,
                0 <= lim0,
                lim0 + 24 * len <= 0x3000_0000,
                within(p.cells@, lim),
            decreases len - k,
        {
            proof {
                lemma_mul_le(passes as int, 12, len as int);
                assert(moves <= 12 * len);
            }
            let edges = &adj[k];
            assert(edges@.len() <= m);
            if edges.len() == 0 {
                k = k + 1;
                continue;
            }
            let current = p.cells[k];
            assert(-lim <= current.x <= lim && -lim <= current.y <= lim);
            let current_cost = edge_cost(current, edges, &p.cells, Ghost(lim));
            let mut best: Option<Cell> = None;
            let mut best_cost = current_cost;
            let mut e: usize = 0;
            while e < edges.len()
                invariant
                    p.wf(n),
                    len == p.order@.len(),
                    k < len,
                    *edges == adj@[k as int],
                    signs_ok(adj@, len as nat, m),
                    m <= 0x400_0000,
                    within(p.cells@, lim),
                    0 <= lim <= 0x3000_0000,
                    e <= edges@.len(),
                    best matches Some(b) ==> !p.cells@.contains(b) && signs_hold(b, edges@, p.cells@) && -lim - 2
                        <= b.x <= lim + 2 && -lim - 2 <= b.y <= lim + 2,
                decreases edges@.len() - e,
            {
                let s = edges[e];
                assert(adj@[k as int]@[e as int].other < len);
                let o = p.cells[s.other];
                assert(-lim <= o.x <= lim && -lim <= o.y <= lim);
                let ix = o.x - s.sx;
                let iy = o.y - s.sy;
                let mut dx: i32 = -1;
                while dx <= 1
                    invariant
                        p.wf(n),
                        len == p.order@.len(),
                        k < len,
                        *edges == adj@[k as int],
                        signs_ok(adj@, len as nat, m),
                        m <= 0x400_0000,
                        within(p.cells@, lim),
                        0 <= lim <= 0x3000_0000,
                        -lim - 1 <= ix <= lim + 1,
                        -lim - 1 <= iy <= lim + 1,
                        -1 <= dx <= 2,
                        best matches Some(b) ==> !p.cells@.contains(b) && signs_hold(b, edges@, p.cells@) && -lim - 2
                            <= b.x <= lim + 2 && -lim - 2 <= b.y <= lim + 2,
                    decreases 2 - dx,
                {
                    let mut dy: i32 = -1;
                    while dy <= 1
                        invariant
                            p.wf(n),
                            len == p.order@.len(),
                            k < len,
                            *edges == adj@[k as int],
                            signs_ok(adj@, len as nat, m),
                            m <= 0x400_0000,
                            within(p.cells@, lim),
                            0 <= lim <= 0x3000_0000,
                            -lim - 1 <= ix <= lim + 1,
                            -lim - 1 <= iy <= lim + 1,
                            -1 <= dx <= 1,
                            -1 <= dy <= 2,
                            best matches Some(b) ==> !p.cells@.contains(b) && signs_hold(b, edges@, p.cells@) && -lim
                                - 2 <= b.x <= lim + 2 && -lim - 2 <= b.y <= lim + 2,
                        decreases 2 - dy,
                    {
                        consider(Cell { x: ix + dx, y: iy + dy }, edges, p, &mut best, &mut best_cost, Ghost(n), Ghost(lim));
                        dy = dy + 1;
                    }
                    dx = dx + 1;
                }
                e = e + 1;
            }
            let mut dx: i32 = -1;
            while dx <= 1
                invariant
                    p.wf(n),
                    len == p.order@.len(),
                    k < len,
                    *edges == adj@[k as int],
                    signs_ok(adj@, len as nat, m),
                    m <= 0x400_0000,
                    within(p.cells@, lim),
                    0 <= lim <= 0x3000_0000,
                    -lim <= current.x <= lim,
                    -lim <= current.y <= lim,
                    -1 <= dx <= 2,
                    best matches Some(b) ==> !p.cells@.contains(b) && signs_hold(b, edges@, p.cells@) && -lim - 2
                        <= b.x <= lim + 2 && -lim - 2 <= b.y <= lim + 2,
                decreases 2 - dx,
            {
                let mut dy: i32 = -1;
                while dy <= 1
                    invariant
                        p.wf(n),
                        len == p.order@.len(),
                        k < len,
                        *edges == adj@[k as int],
                        signs_ok(adj@, len as nat, m),
                        m <= 0x400_0000,
                        within(p.cells@, lim),
                        0 <= lim <= 0x3000_0000,
                        -lim <= current.x <= lim,
                        -lim <= current.y <= lim,
                        -1 <= dx <= 1,
                        -1 <= dy <= 2,
                        best matches Some(b) ==> !p.cells@.contains(b) && signs_hold(b, edges@, p.cells@) && -lim - 2
                            <= b.x <= lim + 2 && -lim - 2 <= b.y <= lim + 2,
                    decreases 2 - dy,
                {
                    consider(
                        Cell { x: current.x + dx, y: current.y + dy },
                        edges,
                        p,
                        &mut best,
                        &mut best_cost,
                        Ghost(n),
                        Ghost(lim),
                    );
                    dy = dy + 1;
                }
                dx = dx + 1;
            }
            match best {
                Some(b) => {
                    p.move_to(k, b, Ghost(n));
                    proof {
                        moves = moves + 1;
                        lim = lim + 2;
                    }
                    improved = true;
                },
                None => {},
            }
            k = k + 1;
        }
    }
    proof {
        lemma_mul_le(passes as int, 12, len as int);
    }
    Ghost(lim)
}

// ---------------------------------------------------------------------
// The re-weld
// ---------------------------------------------------------------------

/// The lookup of distinct cells, each to its place.
fn cell_lookup(cells: &Vec<Cell>) -> (occ: HashMapWithView<u64, usize>)
    requires
        distinct_cells(cells@),
        cells@.len() < usize::MAX,
    ensures
        forall|q: int|
            0 <= q < cells@.len() ==> #[trigger] occ@.contains_key(cell_key(cells@[q])) && occ@[cell_key(cells@[q])] == q,
        forall|key: u64|
            #[trigger] occ@.contains_key(key) ==> occ@[key] < cells@.len() && cell_key(cells@[occ@[key] as int]) == key,
{
    let mut occ: HashMapWithView<u64, usize> = HashMapWithView::new();
    let mut k: usize = 0;
    while k < cells.len()
        invariant
            k <= cells@.len(),
            cells@.len() < usize::MAX,
            distinct_cells(cells@),
            forall|q: int|
                0 <= q < k ==> #[trigger] occ@.contains_key(cell_key(cells@.take(k as int)[q])) && occ@[cell_key(
                    cells@.take(k as int)[q],
                )] == q,
            forall|key: u64|
                #[trigger] occ@.contains_key(key) ==> occ@[key] < k && cell_key(cells@.take(k as int)[occ@[key] as int])
                    == key,
        decreases cells.len() - k,
    {
        let ghost prior = cells@.take(k as int);
        let ghost occ0 = occ@;
        proof {
            assert forall|q: int| 0 <= q < k implies prior[q] != cells@[k as int] by {
                assert(prior[q] == cells@[q]);
            }
            lemma_occ_push(occ0, prior, cells@[k as int]);
            assert(cells@.take(k + 1) =~= prior.push(cells@[k as int]));
        }
        let key = key_of_cell(cells[k]);
        occ.insert(key, k);
        k = k + 1;
    }
    assert(cells@.take(k as int) =~= cells@);
    occ
}

/// The cell a room has after a re-weld: where it moved, else where it
/// stood.
spec fn after_weld(moved: Seq<Option<Cell>>, cells: Seq<Cell>, k: int) -> Cell {
    match moved[k] {
        Some(c) => c,
        None => cells[k],
    }
}

/// What a re-weld asks of the rooms it moves: `list` names each moved room
/// once, their new cells are distinct, and none lands on a room that stays.
spec fn weld_ok(list: Seq<usize>, moved: Seq<Option<Cell>>, cells: Seq<Cell>) -> bool {
    &&& moved.len() == cells.len()
    &&& forall|i: int| 0 <= i < list.len() ==> (#[trigger] list[i]) < cells.len() && moved[list[i] as int] is Some
    &&& forall|x: int| 0 <= x < cells.len() && (#[trigger] moved[x]) is Some ==> list.contains(x as usize)
    &&& forall|a: int, b: int|
        0 <= a < cells.len() && 0 <= b < cells.len() && a != b && (#[trigger] moved[a]) is Some && (#[trigger] moved[b]) is Some
            ==> moved[a]->0 != moved[b]->0
    &&& forall|a: int, b: int|
        0 <= a < cells.len() && 0 <= b < cells.len() && (#[trigger] moved[a]) is Some && (#[trigger] moved[b]) is None
            ==> moved[a]->0 != cells[b]
}

impl Placing {
    /// Moves every room `moved` names onto its new cell at once.
    fn weld(&mut self, moved: &Vec<Option<Cell>>, Ghost(n): Ghost<nat>, Ghost(list): Ghost<Seq<usize>>)
        requires
            old(self).wf(n),
            weld_ok(list, moved@, old(self).cells@),
        ensures
            final(self).wf(n),
            final(self).order@ == old(self).order@,
            final(self).slot@ == old(self).slot@,
            final(self).cells@.len() == old(self).cells@.len(),
            forall|k: int| 0 <= k < old(self).cells@.len() ==> #[trigger] final(self).cells@[k] == after_weld(
                moved@,
                old(self).cells@,
                k,
            ),
    {
        let ghost before = self.cells@;
        let mut cells: Vec<Cell> = Vec::new();
        let mut k: usize = 0;
        while k < self.cells.len()
            invariant
                k <= before.len(),
                before == self.cells@,
                moved@.len() == before.len(),
                cells@.len() == k,
                forall|q: int| 0 <= q < k ==> #[trigger] cells@[q] == after_weld(moved@, before, q),
            decreases before.len() - k,
        {
            let c = match moved[k] {
                Some(c) => c,
                None => self.cells[k],
            };
            cells.push(c);
            k = k + 1;
        }
        proof {
            assert forall|a: int, b: int| 0 <= a < cells@.len() && 0 <= b < cells@.len() && a != b implies cells@[a]
                != cells@[b] by {
                assert(cells@[a] == after_weld(moved@, before, a));
                assert(cells@[b] == after_weld(moved@, before, b));
                if moved@[a] is None && moved@[b] is None {
                    assert(before[a] != before[b]);
                }
            }
        }
        let occ = cell_lookup(&cells);
        self.cells = cells;
        self.occ = occ;
    }
}

/// Tries to repair the violated edge `edge` of the room at place
/// `anchor`: its other room goes to its ideal cell beside the anchor, and
/// any neighbour whose edge that breaks follows to its own ideal cell in
/// turn. Commits, and says so, only when no moved room lands on another
/// room or on a room that stays, the anchor stays where it is, and the
/// edges touching a moved room are broken strictly fewer times after than
/// before.
#[verifier::rlimit(60)]
fn attempt_weld(
    anchor: usize,
    edge: Sign,
    adj: &Vec<Vec<Sign>>,
    p: &mut Placing,
    Ghost(n): Ghost<nat>,
    Ghost(m): Ghost<nat>,
    Ghost(lim): Ghost<int>,
) -> (committed: bool)
    requires
        old(p).wf(n),
        signs_ok(adj@, old(p).order@.len(), m),
        anchor < old(p).order@.len(),
        edge.other < old(p).order@.len(),
        -1 <= edge.sx <= 1,
        -1 <= edge.sy <= 1,
        within(old(p).cells@, lim),
        0 <= lim,
        lim + old(p).order@.len() + 1 <= 0x3000_0000,
        m <= 0x400_0000,
    ensures
        final(p).wf(n),
        final(p).order@ == old(p).order@,
        final(p).slot@ == old(p).slot@,
        within(final(p).cells@, lim + old(p).order@.len() + 1),
        !committed ==> final(p).cells@ == old(p).cells@,
{
    let len = p.order.len();
    let mut moved: Vec<Option<Cell>> = Vec::new();
    let mut i: usize = 0;
    while i < len
        invariant
            i <= len,
            moved@.len() == i,
            forall|q: int| 0 <= q < i ==> (#[trigger] moved@[q]) is None,
        decreases len - i,
    {
        moved.push(None);
        i = i + 1;
    }
    let anchor_pos = p.cells[anchor];
    assert(-lim <= anchor_pos.x <= lim && -lim <= anchor_pos.y <= lim);
    let first = Cell { x: anchor_pos.x + edge.sx, y: anchor_pos.y + edge.sy };
    moved.set(edge.other, Some(first));
    let mut list: Vec<usize> = Vec::new();
    list.push(edge.other);
    assert(list@[0] == edge.other);
    assert forall|x: int| 0 <= x < len && (#[trigger] moved@[x]) is Some implies list@.contains(x as usize) by {
        assert(x == edge.other);
    }
    let mut head: usize = 0;
    while head < list.len()
        invariant
            p.wf(n),
            len == p.order@.len(),
            signs_ok(adj@, len as nat, m),
            within(p.cells@, lim),
            0 <= lim,
            lim + len + 1 <= 0x3000_0000,
            moved@.len() == len,
            1 <= list@.len() <= len,
            head <= list@.len(),
            forall|a: int, b: int| 0 <= a < b < list@.len() ==> list@[a] != list@[b],
            forall|i: int| 0 <= i < list@.len() ==> (#[trigger] list@[i]) < len && moved@[list@[i] as int] is Some,
            forall|x: int| 0 <= x < len && (#[trigger] moved@[x]) is Some ==> list@.contains(x as usize),
            forall|x: int|
                0 <= x < len && (#[trigger] moved@[x]) is Some ==> -lim - list@.len() <= moved@[x]->0.x <= lim + list@.len()
                    && -lim - list@.len() <= moved@[x]->0.y <= lim + list@.len(),
        decreases len - list@.len(), list@.len() - head,
    {
        let r = list[head];
        head = head + 1;
        let r_pos = moved[r].unwrap();
        let edges = &adj[r];
        let ghost list_start = list@.len();
        let mut e: usize = 0;
        while e < edges.len()
            invariant
                list@.len() >= list_start,
                p.wf(n),
                len == p.order@.len(),
                signs_ok(adj@, len as nat, m),
                r < len,
                *edges == adj@[r as int],
                within(p.cells@, lim),
                0 <= lim,
                lim + len + 1 <= 0x3000_0000,
                moved@.len() == len,
                1 <= list@.len() <= len,
                head <= list@.len(),
                -lim - list@.len() <= r_pos.x <= lim + list@.len(),
                -lim - list@.len() <= r_pos.y <= lim + list@.len(),
                forall|a: int, b: int| 0 <= a < b < list@.len() ==> list@[a] != list@[b],
                forall|i: int| 0 <= i < list@.len() ==> (#[trigger] list@[i]) < len && moved@[list@[i] as int] is Some,
                forall|x: int| 0 <= x < len && (#[trigger] moved@[x]) is Some ==> list@.contains(x as usize),
                forall|x: int|
                    0 <= x < len && (#[trigger] moved@[x]) is Some ==> -lim - list@.len() <= moved@[x]->0.x <= lim
                        + list@.len() && -lim - list@.len() <= moved@[x]->0.y <= lim + list@.len(),
                e <= edges@.len(),
            decreases edges@.len() - e,
        {
            let s = edges[e];
            e = e + 1;
            assert(adj@[r as int]@[e - 1].other < len);
            let o_pos = match moved[s.other] {
                Some(c) => c,
                None => p.cells[s.other],
            };
            assert(-lim - list@.len() <= o_pos.x <= lim + list@.len());
            if !violated_at(r_pos, o_pos, s.sx, s.sy) {
                continue;
            }
            if moved[s.other].is_some() || s.other == anchor {
                return false;
            }
            proof {
                if list@.len() == len {
                    lemma_list_full(list@, len as nat, s.other as int);
                }
            }
            let ideal = Cell { x: r_pos.x + s.sx, y: r_pos.y + s.sy };
            moved.set(s.other, Some(ideal));
            let ghost before = list@;
            list.push(s.other);
            proof {
                assert forall|x: int| 0 <= x < len && (#[trigger] moved@[x]) is Some implies list@.contains(x as usize) by {
                    if x != s.other {
                        let q = choose|q: int| 0 <= q < before.len() && before[q] == x as usize;
                        assert(list@[q] == x as usize);
                    } else {
                        assert(list@[before.len() as int] == x as usize);
                    }
                }
                assert forall|a: int, b: int| 0 <= a < b < list@.len() implies list@[a] != list@[b] by {
                    if b == before.len() {
                        assert(moved@[list@[a] as int] is Some);
                    }
                }
            }
        }
    }
    // Every moved cell must be free of every room that stays, and distinct.
    let mut targets: HashMapWithView<u64, usize> = HashMapWithView::new();
    let mut t: usize = 0;
    while t < list.len()
        invariant
            p.wf(n),
            within(p.cells@, lim),
            0 <= lim,
            len == p.order@.len(),
            moved@.len() == len,
            t <= list@.len(),
            forall|a: int, b: int| 0 <= a < b < list@.len() ==> list@[a] != list@[b],
            forall|i: int| 0 <= i < list@.len() ==> (#[trigger] list@[i]) < len && moved@[list@[i] as int] is Some,
            forall|i: int|
                0 <= i < t ==> #[trigger] targets@.contains_key(cell_key(moved@[list@[i] as int]->0)) && targets@[cell_key(
                    moved@[list@[i] as int]->0,
                )] == i,
            forall|key: u64|
                #[trigger] targets@.contains_key(key) ==> targets@[key] < t && cell_key(moved@[list@[targets@[key] as int] as int]->0)
                    == key,
            forall|i: int, b: int|
                0 <= i < t && 0 <= b < len && (#[trigger] moved@[b]) is None ==> moved@[#[trigger] list@[i] as int]->0
                    != p.cells@[b],
        decreases list@.len() - t,
    {
        let x = list[t];
        let c = moved[x].unwrap();
        let key = key_of_cell(c);
        if targets.contains_key(&key) {
            return false;
        }
        match p.occ.get(&key) {
            Some(holder) => {
                if moved[*holder].is_none() {
                    return false;
                }
            },
            None => {},
        }
        proof {
            assert forall|b: int| 0 <= b < len && (#[trigger] moved@[b]) is None implies c != p.cells@[b] by {
                if c == p.cells@[b] {
                    assert(p.occ@.contains_key(cell_key(p.cells@[b])));
                }
            }
        }
        let ghost targets0 = targets@;
        targets.insert(key, t);
        proof {
            assert forall|i: int| 0 <= i < t + 1 implies #[trigger] targets@.contains_key(cell_key(moved@[list@[i] as int]->0))
                && targets@[cell_key(moved@[list@[i] as int]->0)] == i by {
                if i < t {
                    let ci = moved@[list@[i] as int]->0;
                    assert(targets0.contains_key(cell_key(ci)));
                    assert(cell_key(ci) != key);
                }
            }
            assert forall|key2: u64| #[trigger] targets@.contains_key(key2) implies targets@[key2] < t + 1 && cell_key(
                moved@[list@[targets@[key2] as int] as int]->0,
            ) == key2 by {
                if key2 != key {
                    assert(targets0.contains_key(key2));
                }
            }
        }
        t = t + 1;
    }
    // Count the broken edges touching a moved room, before and after.
    let mut before_count: u64 = 0;
    let mut after_count: u64 = 0;
    let mut k: usize = 0;
    while k < len
        invariant
            p.wf(n),
            len == p.order@.len(),
            signs_ok(adj@, len as nat, m),
            moved@.len() == len,
            within(p.cells@, lim),
            0 <= lim,
            lim + len + 1 <= 0x3000_0000,
            forall|x: int|
                0 <= x < len && (#[trigger] moved@[x]) is Some ==> -lim - list@.len() <= moved@[x]->0.x <= lim + list@.len()
                    && -lim - list@.len() <= moved@[x]->0.y <= lim + list@.len(),
            list@.len() <= len,
            k <= len,
            before_count <= k * m,
            after_count <= k * m,
            m <= 0x400_0000,
        decreases len - k,
    {
        let edges = &adj[k];
        let mut e: usize = 0;
        let ghost b0 = before_count;
        let ghost a0 = after_count;
        while e < edges.len()
            invariant
                p.wf(n),
                len == p.order@.len(),
                signs_ok(adj@, len as nat, m),
                k < len,
                *edges == adj@[k as int],
                moved@.len() == len,
                within(p.cells@, lim),
                0 <= lim,
                lim + len + 1 <= 0x3000_0000,
                forall|x: int|
                    0 <= x < len && (#[trigger] moved@[x]) is Some ==> -lim - list@.len() <= moved@[x]->0.x <= lim
                        + list@.len() && -lim - list@.len() <= moved@[x]->0.y <= lim + list@.len(),
                list@.len() <= len,
                e <= edges@.len(),
                edges@.len() <= m,
                before_count <= b0 + e,
                after_count <= a0 + e,
                b0 <= k * m,
                a0 <= k * m,
                m <= 0x400_0000,
            decreases edges@.len() - e,
        {
            proof {
                lemma_mul_le((k + 1) as int, len as int, m as int);
                lemma_mul_le(len as int, 0x3000_0000, m as int);
                lemma_mul_step(k as int, m as int);
            }
            let s = edges[e];
            e = e + 1;
            assert(adj@[k as int]@[e - 1].other < len);
            if moved[k].is_none() && moved[s.other].is_none() {
                continue;
            }
            let cur_r = p.cells[k];
            let cur_o = p.cells[s.other];
            if violated_at(cur_r, cur_o, s.sx, s.sy) {
                before_count = before_count + 1;
            }
            let new_r = match moved[k] {
                Some(c) => c,
                None => cur_r,
            };
            let new_o = match moved[s.other] {
                Some(c) => c,
                None => cur_o,
            };
            if violated_at(new_r, new_o, s.sx, s.sy) {
                after_count = after_count + 1;
            }
            proof {
                lemma_mul_le((k + 1) as int, len as int, m as int);
                lemma_mul_le(len as int, 0x3000_0000, m as int);
            }
        }
        proof {
            lemma_mul_step(k as int, m as int);
            lemma_mul_le((k + 1) as int, len as int, m as int);
            lemma_mul_le(len as int, 0x3000_0000, m as int);
        }
        k = k + 1;
    }
    if after_count >= before_count {
        return false;
    }
    proof {
        assert forall|a: int, b: int|
            0 <= a < len && 0 <= b < len && a != b && (#[trigger] moved@[a]) is Some && (#[trigger] moved@[b]) is Some
                implies moved@[a]->0 != moved@[b]->0 by {
            let ia = choose|i: int| 0 <= i < list@.len() && list@[i] == a as usize;
            let ib = choose|i: int| 0 <= i < list@.len() && list@[i] == b as usize;
            assert(targets@.contains_key(cell_key(moved@[list@[ia] as int]->0)));
            assert(targets@.contains_key(cell_key(moved@[list@[ib] as int]->0)));
        }
        assert forall|a: int, b: int|
            0 <= a < len && 0 <= b < len && (#[trigger] moved@[a]) is Some && (#[trigger] moved@[b]) is None implies moved@[a]->0
                != p.cells@[b] by {
            let ia = choose|i: int| 0 <= i < list@.len() && list@[i] == a as usize;
            assert(moved@[list@[ia] as int]->0 != p.cells@[b]);
        }
    }
    let ghost old_cells = p.cells@;
    p.weld(&moved, Ghost(n), Ghost(list@));
    proof {
        assert forall|k: int| 0 <= k < p.cells@.len() implies -(lim + len + 1) <= (#[trigger] p.cells@[k]).x <= lim + len
            + 1 && -(lim + len + 1) <= p.cells@[k].y <= lim + len + 1 by {
            assert(p.cells@[k] == after_weld(moved@, old_cells, k));
        }
    }
    true
}

/// A list of distinct places below `len` that holds all `len` of them
/// holds every place.
proof fn lemma_list_full(list: Seq<usize>, len: nat, x: int)
    requires
        list.len() == len,
        forall|a: int, b: int| 0 <= a < b < list.len() ==> list[a] != list[b],
        forall|i: int| 0 <= i < list.len() ==> (#[trigger] list[i]) < len,
        0 <= x < len,
    ensures
        list.contains(x as usize),
{
    let s = vstd::set_lib::set_int_range(0, len as int);
    let f = |i: int| list[i] as int;
    vstd::set_lib::lemma_int_range(0, len as int);
    assert forall|a: int, b: int| s.contains(a) && s.contains(b) && #[trigger] f(a) == #[trigger] f(b) implies a == b by {
        if a < b {
            assert(list[a] != list[b]);
        } else if b < a {
            assert(list[b] != list[a]);
        }
    }
    vstd::set_lib::lemma_map_size(s, s.map(f), f);
    assert(s.map(f).subset_of(s)) by {
        assert forall|v: int| s.map(f).contains(v) implies s.contains(v) by {
            let a = choose|a: int| s.contains(a) && f(a) == v;
            assert(list[a] < len);
        }
    }
    if !s.map(f).contains(x) {
        vstd::set_lib::lemma_len_subset(s.map(f), s.remove(x));
    } else {
        let a = choose|a: int| s.contains(a) && f(a) == x;
        assert(list[a] == x as usize);
    }
}

/// A broken edge to try to weld, keyed by the ids of its two rooms.
type Broken = (u32, u32, usize, Sign);

/// `a` comes after `b` in the order of the ids of their rooms.
spec fn key_after(a: Broken, b: Broken) -> bool {
    a.0 > b.0 || (a.0 == b.0 && a.1 > b.1)
}

/// An entry names a room of the component and one of its edges.
spec fn broken_ok(x: Broken, len: nat) -> bool {
    x.2 < len && x.3.other < len && -1 <= x.3.sx <= 1 && -1 <= x.3.sy <= 1
}

/// The entries in the order of their rooms' ids; entries with equal ids
/// keep their order.
fn sort_broken(v: Vec<Broken>, Ghost(len): Ghost<nat>) -> (out: Vec<Broken>)
    requires
        forall|q: int| 0 <= q < v@.len() ==> broken_ok(#[trigger] v@[q], len),
    ensures
        out@.len() == v@.len(),
        forall|q: int| 0 <= q < out@.len() ==> broken_ok(#[trigger] out@[q], len),
        forall|a: int, b: int| 0 <= a < b < out@.len() ==> !key_after(#[trigger] out@[a], #[trigger] out@[b]),
{
    let mut out: Vec<Broken> = Vec::new();
    let mut i: usize = 0;
    while i < v.len()
        invariant
            i <= v@.len(),
            out@.len() == i,
            forall|q: int| 0 <= q < v@.len() ==> broken_ok(#[trigger] v@[q], len),
            forall|q: int| 0 <= q < out@.len() ==> broken_ok(#[trigger] out@[q], len),
            forall|a: int, b: int| 0 <= a < b < out@.len() ==> !key_after(#[trigger] out@[a], #[trigger] out@[b]),
        decreases v.len() - i,
    {
        let x = v[i];
        let mut at: usize = out.len();
        while at > 0 && (out[at - 1].0 > x.0 || (out[at - 1].0 == x.0 && out[at - 1].1 > x.1))
            invariant
                at <= out@.len(),
                forall|q: int| at <= q < out@.len() ==> key_after(#[trigger] out@[q], x),
            decreases at,
        {
            at = at - 1;
        }
        let ghost before = out@;
        out.insert(at, x);
        proof {
            assert forall|a: int, b: int| 0 <= a < b < out@.len() implies !key_after(#[trigger] out@[a], #[trigger] out@[b]) by {
                if b < at {
                    assert(out@[a] == before[a] && out@[b] == before[b]);
                } else if b == at {
                    assert(out@[a] == before[a]);
                    assert(!key_after(before[at - 1], x));
                    if a < at - 1 {
                        assert(!key_after(before[a], before[at - 1]));
                    }
                } else if a == at {
                    assert(out@[b] == before[b - 1]);
                } else if a < at {
                    assert(out@[a] == before[a] && out@[b] == before[b - 1]);
                } else {
                    assert(out@[a] == before[a - 1] && out@[b] == before[b - 1]);
                }
            }
            assert forall|q: int| 0 <= q < out@.len() implies broken_ok(#[trigger] out@[q], len) by {
                if q < at {
                    assert(out@[q] == before[q]);
                } else if q > at {
                    assert(out@[q] == before[q - 1]);
                }
            }
        }
        i = i + 1;
    }
    out
}

/// Rounds of at most eight: each collects every broken edge, in the order
/// of the ids of its rooms, and welds the first that can be welded; stops
/// after a round that welds nothing. A broken run of rooms that no single
/// room's move can repair is repaired this way.
#[verifier::rlimit(40)]
fn reweld(
    rooms: &Vec<Room>,
    adj: &Vec<Vec<Sign>>,
    p: &mut Placing,
    Ghost(n): Ghost<nat>,
    Ghost(m): Ghost<nat>,
    Ghost(lim0): Ghost<int>,
) -> (r: Ghost<int>)
    requires
        old(p).wf(n),
        n == rooms@.len(),
        signs_ok(adj@, old(p).order@.len(), m),
        m <= 0x400_0000,
        within(old(p).cells@, lim0),
        0 <= lim0,
        lim0 + 8 * (old(p).order@.len() + 1) <= 0x3000_0000,
    ensures
        final(p).wf(n),
        final(p).order@ == old(p).order@,
        final(p).slot@ == old(p).slot@,
        within(final(p).cells@, r@),
        0 <= r@ <= lim0 + 8 * (old(p).order@.len() + 1),
{
    let len = p.order.len();
    let ghost order0 = p.order@;
    let ghost slot0 = p.slot@;
    let ghost mut lim = lim0;
    let mut repaired = true;
    let mut rounds: usize = 0;
    while repaired && rounds < 8
        invariant
            p.wf(n),
            n == rooms@.len(),
            p.order@ == order0,
            p.slot@ == slot0,
            len == p.order@.len(),
            signs_ok(adj@, len as nat, m),
            m <= 0x400_0000,
            rounds <= 8,
            lim == lim0 + rounds * (len + 1),
            0 <= lim0,
            lim0 + 8 * (len + 1) <= 0x3000_0000,
            within(p.cells@, lim),
        decreases 8 - rounds,
    {
        repaired = false;
        proof {
            lemma_mul_step(rounds as int, (len + 1) as int);
            lemma_mul_le((rounds + 1) as int, 8, (len + 1) as int);
        }
        let mut broken: Vec<Broken> = Vec::new();
        let mut k: usize = 0;
        while k < len
            invariant
                p.wf(n),
                n == rooms@.len(),
                len == p.order@.len(),
                signs_ok(adj@, len as nat, m),
                within(p.cells@, lim),
                0 <= lim <= 0x3000_0000,
                k <= len,
                forall|q: int| 0 <= q < broken@.len() ==> broken_ok(#[trigger] broken@[q], len as nat),
            decreases len - k,
        {
            let edges = &adj[k];
            let mut e: usize = 0;
            while e < edges.len()
                invariant
                    p.wf(n),
                    n == rooms@.len(),
                    len == p.order@.len(),
                    signs_ok(adj@, len as nat, m),
                    within(p.cells@, lim),
                    0 <= lim <= 0x3000_0000,
                    k < len,
                    *edges == adj@[k as int],
                    e <= edges@.len(),
                    forall|q: int| 0 <= q < broken@.len() ==> broken_ok(#[trigger] broken@[q], len as nat),
                decreases edges@.len() - e,
            {
                let s = edges[e];
                assert(adj@[k as int]@[e as int].other < len);
                let a = p.cells[k];
                let b = p.cells[s.other];
                assert(-lim <= a.x <= lim && -lim <= b.x <= lim && -lim <= a.y <= lim && -lim <= b.y <= lim);
                if violated_at(a, b, s.sx, s.sy) {
                    let ka = rooms[p.order[k]].id.0;
                    let kb = rooms[p.order[s.other]].id.0;
                    broken.push((ka, kb, k, s));
                }
                e = e + 1;
            }
            k = k + 1;
        }
        let broken = sort_broken(broken, Ghost(len as nat));
        let mut j: usize = 0;
        while j < broken.len()
            invariant_except_break
                within(p.cells@, lim),
                !repaired,
            invariant
                p.wf(n),
                p.order@ == order0,
                p.slot@ == slot0,
                len == p.order@.len(),
                signs_ok(adj@, len as nat, m),
                m <= 0x400_0000,
                within(p.cells@, lim + len + 1),
                0 <= lim,
                lim + len + 1 <= 0x3000_0000,
                forall|q: int| 0 <= q < broken@.len() ==> broken_ok(#[trigger] broken@[q], len as nat),
            ensures
                p.wf(n),
                p.order@ == order0,
                p.slot@ == slot0,
                within(p.cells@, lim + len + 1),
            decreases broken@.len() - j,
        {
            let (_, _, anchor, edge) = broken[j];
            assert(broken_ok(broken@[j as int], len as nat));
            if attempt_weld(anchor, edge, adj, p, Ghost(n), Ghost(m), Ghost(lim)) {
                repaired = true;
                break;
            }
            j = j + 1;
        }
        rounds = rounds + 1;
        proof {
            lim = lim + len + 1;
        }
    }
    proof {
        lemma_mul_le(rounds as int, 8, (len + 1) as int);
    }
    Ghost(lim)
}

// ---------------------------------------------------------------------
// Optimising a component
// ---------------------------------------------------------------------

/// Cells kept in the same order along both axes stay distinct.
proof fn lemma_same_order_distinct(a: Seq<Cell>, b: Seq<Cell>)
    requires
        same_order(a, b),
        distinct_cells(a),
    ensures
        distinct_cells(b),
{
    assert forall|i: int, j: int| 0 <= i < b.len() && 0 <= j < b.len() && i != j implies b[i] != b[j] by {
        assert(a[i] != a[j]);
        assert(sign(b[j].x - b[i].x) == sign(a[j].x - a[i].x));
        assert(sign(b[j].y - b[i].y) == sign(a[j].y - a[i].y));
    }
}

impl Placing {
    /// Collapses the empty rows and columns of the component.
    fn compact(&mut self, Ghost(n): Ghost<nat>)
        requires
            old(self).wf(n),
            old(self).cells@.len() <= i32::MAX,
        ensures
            final(self).wf(n),
            final(self).order@ == old(self).order@,
            final(self).slot@ == old(self).slot@,
            same_order(old(self).cells@, final(self).cells@),
            compact(final(self).cells@),
    {
        let cells = compact_cells(&self.cells);
        proof {
            lemma_same_order_distinct(self.cells@, cells@);
        }
        let occ = cell_lookup(&cells);
        self.cells = cells;
        self.occ = occ;
    }
}

/// A compact component's coordinates are below its size.
proof fn lemma_compact_within(cells: Seq<Cell>)
    requires
        compact(cells),
    ensures
        within(cells, cells.len() as int),
{
}

/// Refines a placed component: with three rooms or more, the hill climb
/// then the re-weld; always the compaction of its empty rows and columns.
#[verifier::rlimit(40)]
fn optimize(
    rooms: &Vec<Room>,
    ids: &HashMapWithView<u32, usize>,
    dirs: &DirectionMap,
    p: &mut Placing,
    Ghost(cap): Ghost<nat>,
    Ghost(rips): Ghost<int>,
)
    requires
        ids_unique(rooms@),
        indexes(ids@, rooms@),
        old(p).wf(rooms@.len()),
        forall|i: int| 0 <= i < rooms@.len() ==> (#[trigger] rooms@[i]).exits@.len() <= cap,
        128 * rooms@.len() * (cap + 1) <= i32::MAX,
        0 <= rips <= old(p).order@.len() * cap,
        within(old(p).cells@, 6 * (old(p).order@.len() + rips)),
    ensures
        final(p).wf(rooms@.len()),
        final(p).order@ == old(p).order@,
        final(p).slot@ == old(p).slot@,
        compact(final(p).cells@),
{
    let ghost n = rooms@.len();
    let len = p.order.len();
    proof {
        lemma_order_fits(p, n);
        lemma_mul_le(len as int, n as int, cap as int);
        lemma_budget(n as int, cap as int, len as int, rips);
    }
    if len >= 3 {
        let adj = compass_signs(rooms, ids, dirs, p, Ghost(cap));
        proof {
            lemma_mul_le(len as int, n as int, cap as int);
            assert(2 * len * cap == 2 * (len * cap)) by (nonlinear_arith);
        }
        let lim1 = hill_climb(&adj, p, Ghost(n), Ghost((2 * len * cap) as nat), Ghost(6 * (len + rips)));
        let lim2 = reweld(rooms, &adj, p, Ghost(n), Ghost((2 * len * cap) as nat), lim1);
    }
    p.compact(Ghost(n));
}

// ---------------------------------------------------------------------
// Checking the bearings
// ---------------------------------------------------------------------

/// Appending an entry gives a room that had no position the new one.
proof fn lemma_position_append(ps: Seq<(RoomId, Cell)>, e: (RoomId, Cell))
    ensures
        forall|r: RoomId|
            #[trigger] position_of(ps.push(e), r) == match position_of(ps, r) {
                Some(c) => Some(c),
                None => if e.0 == r {
                    Some(e.1)
                } else {
                    None
                },
            },
    decreases ps.len(),
{
    let q = ps.push(e);
    if ps.len() > 0 {
        assert(q.drop_first() =~= ps.drop_first().push(e));
        assert(q[0] == ps[0]);
        lemma_position_append(ps.drop_first(), e);
        assert forall|r: RoomId| #[trigger] position_of(q, r) == match position_of(ps, r) {
            Some(c) => Some(c),
            None => if e.0 == r {
                Some(e.1)
            } else {
                None
            },
        } by {
            if ps[0].0 != r {
                assert(position_of(q, r) == position_of(ps.drop_first().push(e), r));
                assert(position_of(ps, r) == position_of(ps.drop_first(), r));
            }
        }
    } else {
        assert(q.drop_first() =~= Seq::<(RoomId, Cell)>::empty());
        assert(q[0] == e);
        assert forall|r: RoomId| #[trigger] position_of(q, r) == match position_of(ps, r) {
            Some(c) => Some(c),
            None => if e.0 == r {
                Some(e.1)
            } else {
                None
            },
        } by {
            assert(position_of(ps, r) is None);
            if e.0 != r {
                assert(position_of(q, r) == position_of(q.drop_first(), r));
            }
        }
    }
}

/// `m` finds each room's position by its id.
pub(crate) open spec fn finds_positions(m: Map<u32, usize>, ps: Seq<(RoomId, Cell)>) -> bool {
    &&& forall|k: u32| #[trigger] m.contains_key(k) ==> m[k] < ps.len() && ps[m[k] as int].0.0 == k
        && position_of(ps, RoomId(k)) == Some(ps[m[k] as int].1)
    &&& forall|r: RoomId| #[trigger] position_of(ps, r) is Some ==> m.contains_key(r.0)
}

pub(crate) fn position_index(ps: &Vec<(RoomId, Cell)>) -> (m: HashMapWithView<u32, usize>)
    ensures
        finds_positions(m@, ps@),
{
    let mut m: HashMapWithView<u32, usize> = HashMapWithView::new();
    let mut k: usize = 0;
    while k < ps.len()
        invariant
            k <= ps@.len(),
            finds_positions(m@, ps@.take(k as int)),
            forall|q: u32| #[trigger] m@.contains_key(q) ==> m@[q] < k,
        decreases ps.len() - k,
    {
        let ghost t = ps@.take(k as int);
        let e = ps[k];
        proof {
            assert(ps@.take(k + 1) =~= t.push(e));
            lemma_position_append(t, e);
        }
        if !m.contains_key(&e.0.0) {
            m.insert(e.0.0, k);
            proof {
                assert(position_of(t, e.0) is None);
            }
        }
        proof {
            let t1 = ps@.take(k + 1);
            assert forall|q: u32| #[trigger] m@.contains_key(q) implies m@[q] < t1.len() && t1[m@[q] as int].0.0 == q
                && position_of(t1, RoomId(q)) == Some(t1[m@[q] as int].1) by {
                if q != e.0.0 || position_of(t, e.0) is Some {
                    if q == e.0.0 {
                        assert(position_of(t, RoomId(q)) is Some);
                    }
                }
            }
        }
        k = k + 1;
    }
    assert(ps@.take(k as int) =~= ps@);
    m
}

pub(crate) fn find_position(m: &HashMapWithView<u32, usize>, ps: &Vec<(RoomId, Cell)>, r: RoomId) -> (c: Option<Cell>)
    requires
        finds_positions(m@, ps@),
    ensures
        c == position_of(ps@, r),
{
    match m.get(&r.0) {
        Some(k) => {
            assert(RoomId(r.0) == r);
            Some(ps[*k].1)
        },
        None => None,
    }
}

/// The compass exits of the room `id`, standing at `pos`, whose target
/// lies the wrong way: each with the bearing it states and the offset the
/// target actually has. Exits to rooms without a position, or without a
/// bearing, or going up or down, are not checked.
pub open spec fn exit_faults(
    exits: Seq<Exit>,
    id: RoomId,
    pos: Cell,
    ps: Seq<(RoomId, Cell)>,
    dirs: Map<u64, Dir>,
) -> Seq<Violation>
    decreases exits.len(),
{
    if exits.len() == 0 {
        Seq::empty()
    } else {
        let before = exit_faults(exits.drop_last(), id, pos, ps, dirs);
        let t = exits.last().to;
        match position_of(ps, t) {
            None => before,
            Some(tp) => match dir_at(dirs, id, t) {
                None => before,
                Some(d) => if !compass(d) {
                    before
                } else {
                    let ax = tp.x - pos.x;
                    let ay = tp.y - pos.y;
                    if sign(ax) != sign(offset_of(d).0) || sign(ay) != sign(offset_of(d).1) {
                        before.push(Violation { from: id, to: t, direction: d, actual: Cell { x: ax as i32, y: ay as i32 } })
                    } else {
                        before
                    }
                },
            },
        }
    }
}

/// Every compass edge out of the rooms `ids`, in their order, whose
/// placed geometry contradicts its bearing.
pub open spec fn faults(ids: Seq<RoomId>, ps: Seq<(RoomId, Cell)>, rooms: Seq<Room>, dirs: Map<u64, Dir>) -> Seq<
    Violation,
>
    decreases ids.len(),
{
    if ids.len() == 0 {
        Seq::empty()
    } else {
        let before = faults(ids.drop_last(), ps, rooms, dirs);
        let id = ids.last();
        match room_of(rooms, id) {
            None => before,
            Some(room) => match position_of(ps, id) {
                None => before,
                Some(pos) => before + exit_faults(room.exits@, id, pos, ps, dirs),
            },
        }
    }
}

/// An actual step of `actual` goes against a wanted step of `wanted`:
/// the other way, or moving where none is wanted, or staying where one is.
pub open spec fn points_against(actual: int, wanted: int) -> bool {
    ||| actual < 0 && wanted >= 0
    ||| actual > 0 && wanted <= 0
    ||| actual == 0 && wanted != 0
}

proof fn lemma_exit_fault_found(
    exits: Seq<Exit>,
    id: RoomId,
    pos: Cell,
    ps: Seq<(RoomId, Cell)>,
    dirs: Map<u64, Dir>,
    e: int,
    tp: Cell,
    d: Dir,
)
    requires
        0 <= e < exits.len(),
        position_of(ps, exits[e].to) == Some(tp),
        dir_at(dirs, id, exits[e].to) == Some(d),
        !(d is Up || d is Down),
        points_against(tp.x - pos.x, offset_of(d).0) || points_against(tp.y - pos.y, offset_of(d).1),
    ensures
        exit_faults(exits, id, pos, ps, dirs).contains(
            (Violation {
                from: id,
                to: exits[e].to,
                direction: d,
                actual: Cell { x: (tp.x - pos.x) as i32, y: (tp.y - pos.y) as i32 },
            }),
        ),
    decreases exits.len(),
{
    let v = Violation {
        from: id,
        to: exits[e].to,
        direction: d,
        actual: Cell { x: (tp.x - pos.x) as i32, y: (tp.y - pos.y) as i32 },
    };
    let all = exit_faults(exits, id, pos, ps, dirs);
    let before = exit_faults(exits.drop_last(), id, pos, ps, dirs);
    if e == exits.len() - 1 {
        assert(exits.last() == exits[e]);
        assert(compass(d));
        assert(sign(tp.x - pos.x) != sign(offset_of(d).0) || sign(tp.y - pos.y) != sign(offset_of(d).1));
        assert(all == before.push(v));
        assert(all[all.len() - 1] == v);
    } else {
        assert(exits.drop_last()[e] == exits[e]);
        lemma_exit_fault_found(exits.drop_last(), id, pos, ps, dirs, e, tp, d);
        let q = choose|q: int| 0 <= q < before.len() && before[q] == v;
        assert(all == before || exists|w: Violation| all == before.push(w));
        if all != before {
            let w = choose|w: Violation| all == before.push(w);
            assert(all[q] == v);
        }
    }
}

proof fn lemma_fault_found(
    ids: Seq<RoomId>,
    ps: Seq<(RoomId, Cell)>,
    rooms: Seq<Room>,
    dirs: Map<u64, Dir>,
    k: int,
    r: Room,
    pos: Cell,
    v: Violation,
)
    requires
        0 <= k < ids.len(),
        room_of(rooms, ids[k]) == Some(r),
        position_of(ps, ids[k]) == Some(pos),
        exit_faults(r.exits@, ids[k], pos, ps, dirs).contains(v),
    ensures
        faults(ids, ps, rooms, dirs).contains(v),
    decreases ids.len(),
{
    let all = faults(ids, ps, rooms, dirs);
    let before = faults(ids.drop_last(), ps, rooms, dirs);
    if k == ids.len() - 1 {
        let x = exit_faults(r.exits@, ids[k], pos, ps, dirs);
        assert(all == before + x);
        let q = choose|q: int| 0 <= q < x.len() && x[q] == v;
        assert(all[before.len() + q] == v);
    } else {
        assert(ids.drop_last()[k] == ids[k]);
        lemma_fault_found(ids.drop_last(), ps, rooms, dirs, k, r, pos, v);
        let q = choose|q: int| 0 <= q < before.len() && before[q] == v;
        let id = ids.last();
        match room_of(rooms, id) {
            None => {},
            Some(room) => match position_of(ps, id) {
                None => {},
                Some(p) => {
                    assert(all == before + exit_faults(room.exits@, id, p, ps, dirs));
                    assert(all[q] == v);
                },
            },
        }
    }
}

/// Every placed compass edge whose target lies the wrong way on either
/// axis is reported, with the bearing it states and the offset the target
/// actually has: a room placed south of one whose exit to it says north
/// is a violation, however its east-west step falls.
pub proof fn lemma_wrong_way_edges_reported(
    ids: Seq<RoomId>,
    ps: Seq<(RoomId, Cell)>,
    rooms: Seq<Room>,
    dirs: Map<u64, Dir>,
    k: int,
    r: Room,
    pos: Cell,
    e: int,
    tp: Cell,
    d: Dir,
)
    requires
        0 <= k < ids.len(),
        room_of(rooms, ids[k]) == Some(r),
        position_of(ps, ids[k]) == Some(pos),
        0 <= e < r.exits@.len(),
        position_of(ps, r.exits@[e].to) == Some(tp),
        dir_at(dirs, ids[k], r.exits@[e].to) == Some(d),
        !(d is Up || d is Down),
        points_against(tp.x - pos.x, offset_of(d).0) || points_against(tp.y - pos.y, offset_of(d).1),
    ensures
        faults(ids, ps, rooms, dirs).contains(
            (Violation {
                from: ids[k],
                to: r.exits@[e].to,
                direction: d,
                actual: Cell { x: (tp.x - pos.x) as i32, y: (tp.y - pos.y) as i32 },
            }),
        ),
{
    lemma_exit_fault_found(r.exits@, ids[k], pos, ps, dirs, e, tp, d);
    lemma_fault_found(
        ids,
        ps,
        rooms,
        dirs,
        k,
        r,
        pos,
        Violation {
            from: ids[k],
            to: r.exits@[e].to,
            direction: d,
            actual: Cell { x: (tp.x - pos.x) as i32, y: (tp.y - pos.y) as i32 },
        },
    );
}

/// Positions whose coordinates differ by what a cell holds.
pub open spec fn modest(ps: Seq<(RoomId, Cell)>) -> bool {
    forall|k: int| 0 <= k < ps.len() ==> -0x3fff_ffff <= (#[trigger] ps[k]).1.x <= 0x3fff_ffff && -0x3fff_ffff
        <= ps[k].1.y <= 0x3fff_ffff
}

proof fn lemma_modest_position(ps: Seq<(RoomId, Cell)>, r: RoomId)
    requires
        modest(ps),
        position_of(ps, r) is Some,
    ensures
        -0x3fff_ffff <= position_of(ps, r).unwrap().x <= 0x3fff_ffff,
        -0x3fff_ffff <= position_of(ps, r).unwrap().y <= 0x3fff_ffff,
    decreases ps.len(),
{
    if ps[0].0 != r {
        assert forall|k: int| 0 <= k < ps.drop_first().len() implies -0x3fff_ffff <= (#[trigger] ps.drop_first()[k]).1.x
            <= 0x3fff_ffff && -0x3fff_ffff <= ps.drop_first()[k].1.y <= 0x3fff_ffff by {
            assert(ps.drop_first()[k] == ps[k + 1]);
        }
        lemma_modest_position(ps.drop_first(), r);
    }
}

/// What each violation an exit list yields says is so.
pub open spec fn fault_sound(v: Violation, id: RoomId, ps: Seq<(RoomId, Cell)>, dirs: Map<u64, Dir>) -> bool {
    &&& v.from == id
    &&& position_of(ps, v.to) is Some
    &&& dir_at(dirs, id, v.to) == Some(v.direction)
    &&& !(v.direction is Up || v.direction is Down)
    &&& (points_against(v.actual.x as int, offset_of(v.direction).0) || points_against(
        v.actual.y as int,
        offset_of(v.direction).1,
    ))
}

proof fn lemma_exit_faults_sound(exits: Seq<Exit>, id: RoomId, pos: Cell, ps: Seq<(RoomId, Cell)>, dirs: Map<u64, Dir>)
    requires
        modest(ps),
        -0x3fff_ffff <= pos.x <= 0x3fff_ffff,
        -0x3fff_ffff <= pos.y <= 0x3fff_ffff,
    ensures
        forall|q: int|
            0 <= q < exit_faults(exits, id, pos, ps, dirs).len() ==> fault_sound(
                #[trigger] exit_faults(exits, id, pos, ps, dirs)[q],
                id,
                ps,
                dirs,
            ),
    decreases exits.len(),
{
    if exits.len() > 0 {
        lemma_exit_faults_sound(exits.drop_last(), id, pos, ps, dirs);
        let all = exit_faults(exits, id, pos, ps, dirs);
        let before = exit_faults(exits.drop_last(), id, pos, ps, dirs);
        let t = exits.last().to;
        if let Some(tp) = position_of(ps, t) {
            lemma_modest_position(ps, t);
            if let Some(d) = dir_at(dirs, id, t) {
                if compass(d) {
                    let ax = tp.x - pos.x;
                    let ay = tp.y - pos.y;
                    if sign(ax) != sign(offset_of(d).0) || sign(ay) != sign(offset_of(d).1) {
                        let v = Violation { from: id, to: t, direction: d, actual: Cell { x: ax as i32, y: ay as i32 } };
                        assert(all == before.push(v));
                        assert(v.actual.x as int == ax && v.actual.y as int == ay);
                        assert forall|q: int| 0 <= q < all.len() implies fault_sound(#[trigger] all[q], id, ps, dirs) by {
                            if q < before.len() {
                                assert(all[q] == before[q]);
                            }
                        }
                    }
                }
            }
        }
    }
}

/// Every violation reported names a room of `ids` and a placed compass
/// edge out of it whose target's actual offset goes against the bearing
/// on some axis: a stretched edge that points the right way is never
/// reported.
pub proof fn lemma_reported_edges_point_wrong(
    ids: Seq<RoomId>,
    ps: Seq<(RoomId, Cell)>,
    rooms: Seq<Room>,
    dirs: Map<u64, Dir>,
)
    requires
        modest(ps),
    ensures
        forall|q: int|
            0 <= q < faults(ids, ps, rooms, dirs).len() ==> ids.contains((#[trigger] faults(ids, ps, rooms, dirs)[q]).from)
                && fault_sound(faults(ids, ps, rooms, dirs)[q], faults(ids, ps, rooms, dirs)[q].from, ps, dirs),
    decreases ids.len(),
{
    if ids.len() > 0 {
        let d = ids.drop_last();
        lemma_reported_edges_point_wrong(d, ps, rooms, dirs);
        let all = faults(ids, ps, rooms, dirs);
        let before = faults(d, ps, rooms, dirs);
        let id = ids.last();
        assert(ids[ids.len() - 1] == id);
        assert forall|q: int| 0 <= q < all.len() implies ids.contains((#[trigger] all[q]).from) && fault_sound(
            all[q],
            all[q].from,
            ps,
            dirs,
        ) by {
            if q < before.len() {
                match room_of(rooms, id) {
                    None => {},
                    Some(room) => match position_of(ps, id) {
                        None => {},
                        Some(pos) => {
                            assert(all == before + exit_faults(room.exits@, id, pos, ps, dirs));
                        },
                    },
                }
                assert(all[q] == before[q]);
                let w = choose|w: int| 0 <= w < d.len() && d[w] == before[q].from;
                assert(ids[w] == d[w]);
            } else {
                match room_of(rooms, id) {
                    None => {},
                    Some(room) => match position_of(ps, id) {
                        None => {},
                        Some(pos) => {
                            lemma_modest_position(ps, id);
                            lemma_exit_faults_sound(room.exits@, id, pos, ps, dirs);
                            let x = exit_faults(room.exits@, id, pos, ps, dirs);
                            assert(all == before + x);
                            assert(all[q] == x[q - before.len()]);
                        },
                    },
                }
            }
        }
    }
}

/// Checks every placed compass edge of the rooms `ids` against its
/// bearing: a stretched edge passes, one that points the wrong way is
/// reported.
pub fn validate_component(ids: &Vec<RoomId>, ps: &Vec<(RoomId, Cell)>, map: &RoomMap, dirs: &DirectionMap) -> (out: Vec<
    Violation,
>)
    requires
        modest(ps@),
    ensures
        out@ == faults(ids@, ps@, map@, dirs@),
{
    let m = position_index(ps);
    let mut out: Vec<Violation> = Vec::new();
    let mut i: usize = 0;
    while i < ids.len()
        invariant
            i <= ids@.len(),
            modest(ps@),
            finds_positions(m@, ps@),
            out@ == faults(ids@.take(i as int), ps@, map@, dirs@),
        decreases ids.len() - i,
    {
        let id = ids[i];
        let ghost t = ids@.take(i + 1);
        assert(t.drop_last() =~= ids@.take(i as int));
        assert(t.last() == id);
        let room = match map.room(id) {
            Some(r) => r,
            None => {
                i = i + 1;
                continue;
            },
        };
        let pos = match find_position(&m, ps, id) {
            Some(c) => c,
            None => {
                i = i + 1;
                continue;
            },
        };
        proof {
            lemma_modest_position(ps@, id);
        }
        let ghost start = out@;
        let mut e: usize = 0;
        while e < room.exits.len()
            invariant
                e <= room.exits@.len(),
                modest(ps@),
                finds_positions(m@, ps@),
                -0x3fff_ffff <= pos.x <= 0x3fff_ffff,
                -0x3fff_ffff <= pos.y <= 0x3fff_ffff,
                out@ == start + exit_faults(room.exits@.take(e as int), id, pos, ps@, dirs@),
            decreases room.exits@.len() - e,
        {
            let to = room.exits[e].to;
            let ghost te = room.exits@.take(e + 1);
            assert(te.drop_last() =~= room.exits@.take(e as int));
            assert(te.last().to == to);
            e = e + 1;
            let tp = match find_position(&m, ps, to) {
                Some(c) => c,
                None => {
                    continue;
                },
            };
            proof {
                lemma_modest_position(ps@, to);
            }
            let d = match dirs.get(id, to) {
                Some(d) => d,
                None => {
                    continue;
                },
            };
            if !d.is_compass() {
                continue;
            }
            let (ex, ey) = d.offset();
            let ax = tp.x - pos.x;
            let ay = tp.y - pos.y;
            let wrong_x = (ax < 0 && ex >= 0) || (ax > 0 && ex <= 0) || (ax == 0 && ex != 0);
            let wrong_y = (ay < 0 && ey >= 0) || (ay > 0 && ey <= 0) || (ay == 0 && ey != 0);
            if wrong_x || wrong_y {
                let ghost before = out@;
                out.push(Violation { from: id, to, direction: d, actual: Cell { x: ax, y: ay } });
                assert(out@ =~= start + exit_faults(te, id, pos, ps@, dirs@));
            }
        }
        assert(room.exits@.take(e as int) =~= room.exits@);
        assert(out@ =~= faults(ids@.take(i as int), ps@, map@, dirs@) + exit_faults(room.exits@, id, pos, ps@, dirs@));
        i = i + 1;
    }
    assert(ids@.take(i as int) =~= ids@);
    out
}

// ---------------------------------------------------------------------
// The open air
// ---------------------------------------------------------------------

/// Some exit of `r` leads to the room with id `id`.
pub open spec fn exits_toward(r: Room, id: RoomId) -> bool {
    exists|e: int| 0 <= e < r.exits@.len() && (#[trigger] r.exits@[e]).to == id
}

/// Rooms `i` and `j` are both outdoors and an exit joins them, either way.
pub open spec fn open_link(rooms: Seq<Room>, i: int, j: int) -> bool {
    &&& sense_of(rooms[i]) == Sense::Outdoor
    &&& sense_of(rooms[j]) == Sense::Outdoor
    &&& (exits_toward(rooms[i], rooms[j].id) || exits_toward(rooms[j], rooms[i].id))
}

/// Outdoor rooms linked by every exit between them, both ways.
fn outdoor_links(
    rooms: &Vec<Room>,
    ids: &HashMapWithView<u32, usize>,
    outdoor: &Vec<bool>,
) -> (adj: Vec<Vec<usize>>)
    requires
        ids_unique(rooms@),
        indexes(ids@, rooms@),
        outdoor@.len() == rooms@.len(),
        forall|i: int| 0 <= i < rooms@.len() ==> #[trigger] outdoor@[i] == (sense_of(rooms@[i]) == Sense::Outdoor),
    ensures
        adj@.len() == rooms@.len(),
        forall|a: int, k: int| 0 <= a < adj@.len() && 0 <= k < adj@[a]@.len() ==> #[trigger] adj@[a]@[k] < rooms@.len(),
        forall|i: int, j: int|
            0 <= i < rooms@.len() && 0 <= j < rooms@.len() && #[trigger] open_link(rooms@, i, j) ==> adj@[i]@.contains(
                j as usize,
            ),
        forall|a: int, k: int|
            0 <= a < adj@.len() && 0 <= k < adj@[a]@.len() ==> #[trigger] adj@[adj@[a]@[k] as int]@.contains(a as usize),
{
    let n = rooms.len();
    let mut adj: Vec<Vec<usize>> = Vec::new();
    let mut k: usize = 0;
    while k < n
        invariant
            k <= n,
            adj@.len() == k,
            forall|a: int| 0 <= a < k ==> (#[trigger] adj@[a])@.len() == 0,
        decreases n - k,
    {
        adj.push(Vec::new());
        k = k + 1;
    }
    let mut i: usize = 0;
    while i < n
        invariant
            i <= n,
            n == rooms@.len(),
            ids_unique(rooms@),
            indexes(ids@, rooms@),
            outdoor@.len() == n,
            forall|q: int| 0 <= q < n ==> #[trigger] outdoor@[q] == (sense_of(rooms@[q]) == Sense::Outdoor),
            adj@.len() == n,
            forall|a: int, q: int| 0 <= a < adj@.len() && 0 <= q < adj@[a]@.len() ==> #[trigger] adj@[a]@[q] < n,
            forall|a: int, q: int|
                0 <= a < adj@.len() && 0 <= q < adj@[a]@.len() ==> #[trigger] adj@[adj@[a]@[q] as int]@.contains(a as usize),
            forall|a: int, e: int, b: int|
                0 <= a < i && 0 <= e < rooms@[a].exits@.len() && 0 <= b < n && (#[trigger] rooms@[a].exits@[e]).to
                    == #[trigger] rooms@[b].id && outdoor@[a] && outdoor@[b] ==> adj@[a]@.contains(b as usize)
                    && adj@[b]@.contains(a as usize),
        decreases n - i,
    {
        if outdoor[i] {
            let room = &rooms[i];
            let mut e: usize = 0;
            while e < room.exits.len()
                invariant
                    i < n,
                    n == rooms@.len(),
                    *room == rooms@[i as int],
                    outdoor@[i as int],
                    ids_unique(rooms@),
                    indexes(ids@, rooms@),
                    outdoor@.len() == n,
                    forall|q: int| 0 <= q < n ==> #[trigger] outdoor@[q] == (sense_of(rooms@[q]) == Sense::Outdoor),
                    adj@.len() == n,
                    forall|a: int, q: int| 0 <= a < adj@.len() && 0 <= q < adj@[a]@.len() ==> #[trigger] adj@[a]@[q] < n,
                    forall|a: int, q: int|
                        0 <= a < adj@.len() && 0 <= q < adj@[a]@.len() ==> #[trigger] adj@[adj@[a]@[q] as int]@.contains(
                            a as usize,
                        ),
                    e <= room.exits@.len(),
                    forall|a: int, f: int, b: int|
                        0 <= a < i && 0 <= f < rooms@[a].exits@.len() && 0 <= b < n && (#[trigger] rooms@[a].exits@[f]).to
                            == #[trigger] rooms@[b].id && outdoor@[a] && outdoor@[b] ==> adj@[a]@.contains(b as usize)
                            && adj@[b]@.contains(a as usize),
                    forall|f: int, b: int|
                        0 <= f < e && 0 <= b < n && (#[trigger] rooms@[i as int].exits@[f]).to == #[trigger] rooms@[b].id
                            && outdoor@[b] ==> adj@[i as int]@.contains(b as usize) && adj@[b]@.contains(i),
                decreases room.exits@.len() - e,
            {
                let to = room.exits[e].to;
                match index_of(ids, rooms, to) {
                    Some(t) => {
                        if outdoor[t] {
                            let ghost before = adj@;
                            adj[i].push(t);
                            adj[t].push(i);
                            proof {
                                assert forall|a: int| 0 <= a < n && a != i && a != t implies adj@[a] == before[a] by {}
                                if i == t {
                                    assert(adj@[i as int]@ == before[i as int]@.push(t).push(i));
                                    assert(adj@[i as int]@[before[i as int]@.len() as int] == t);
                                } else {
                                    assert(adj@[i as int]@ == before[i as int]@.push(t));
                                    assert(adj@[t as int]@ == before[t as int]@.push(i));
                                    assert(adj@[i as int]@[before[i as int]@.len() as int] == t);
                                    assert(adj@[t as int]@[before[t as int]@.len() as int] == i);
                                }
                                assert(adj@[i as int]@.contains(t));
                                assert(adj@[t as int]@.contains(i));
                                assert forall|a: int, q: int| 0 <= a < adj@.len() && 0 <= q < adj@[a]@.len() implies #[trigger] adj@[adj@[a]@[q] as int]@.contains(
                                    a as usize,
                                ) by {
                                    if q < before[a]@.len() {
                                        assert(adj@[a]@[q] == before[a]@[q]);
                                        let b = before[a]@[q] as int;
                                        assert(before[before[a]@[q] as int]@.contains(a as usize));
                                        let w = choose|w: int| 0 <= w < before[b]@.len() && before[b]@[w] == a as usize;
                                        assert(adj@[b]@[w] == before[b]@[w]);
                                    } else if a == i && a == t {
                                    } else if a == i {
                                        assert(adj@[a]@[q] == t);
                                    } else {
                                        assert(a == t);
                                        assert(adj@[a]@[q] == i);
                                    }
                                }
                                assert forall|a: int, q: int| 0 <= a < before.len() && 0 <= q < before[a]@.len() implies adj@[a]@.contains(
                                    before[a]@[q],
                                ) by {
                                    if a == i && a == t {
                                        assert(adj@[a]@[q] == before[a]@[q]);
                                    } else if a == i || a == t {
                                        assert(adj@[a]@[q] == before[a]@[q]);
                                    }
                                }
                                assert forall|a: int, f: int, b: int|
                                    0 <= a < i && 0 <= f < rooms@[a].exits@.len() && 0 <= b < n && (
                                    #[trigger] rooms@[a].exits@[f]).to == #[trigger] rooms@[b].id && outdoor@[a]
                                        && outdoor@[b] implies adj@[a]@.contains(b as usize) && adj@[b]@.contains(
                                    a as usize,
                                ) by {
                                    let qa = choose|q: int| 0 <= q < before[a]@.len() && before[a]@[q] == b as usize;
                                    let qb = choose|q: int| 0 <= q < before[b]@.len() && before[b]@[q] == a as usize;
                                }
                                assert forall|f: int, b: int|
                                    0 <= f < e + 1 && 0 <= b < n && (#[trigger] rooms@[i as int].exits@[f]).to
                                        == #[trigger] rooms@[b].id && outdoor@[b] implies adj@[i as int]@.contains(
                                    b as usize,
                                ) && adj@[b]@.contains(i) by {
                                    if f < e {
                                        let qa = choose|q: int| 0 <= q < before[i as int]@.len() && before[i as int]@[q] == b as usize;
                                        let qb = choose|q: int| 0 <= q < before[b]@.len() && before[b]@[q] == i;
                                    } else {
                                        assert(rooms@[b].id == rooms@[t as int].id);
                                        assert(b == t);
                                    }
                                }
                            }
                        } else {
                            assert forall|f: int, b: int|
                                0 <= f < e + 1 && 0 <= b < n && (#[trigger] rooms@[i as int].exits@[f]).to
                                    == #[trigger] rooms@[b].id && outdoor@[b] implies adj@[i as int]@.contains(
                                b as usize,
                            ) && adj@[b]@.contains(i) by {
                                if f == e {
                                    assert(rooms@[b].id == rooms@[t as int].id);
                                    assert(b == t);
                                }
                            }
                        }
                    },
                    None => {
                        assert forall|f: int, b: int|
                            0 <= f < e + 1 && 0 <= b < n && (#[trigger] rooms@[i as int].exits@[f]).to
                                == #[trigger] rooms@[b].id && outdoor@[b] implies adj@[i as int]@.contains(
                            b as usize,
                        ) && adj@[b]@.contains(i) by {
                            if f == e {
                                assert(rooms@[b].id != to);
                            }
                        }
                    },
                }
                e = e + 1;
            }
        }
        i = i + 1;
    }
    proof {
        assert forall|i: int, j: int|
            0 <= i < rooms@.len() && 0 <= j < rooms@.len() && #[trigger] open_link(rooms@, i, j) implies adj@[i]@.contains(
            j as usize,
        ) by {
            if exits_toward(rooms@[i], rooms@[j].id) {
                let e = choose|e: int| 0 <= e < rooms@[i].exits@.len() && (#[trigger] rooms@[i].exits@[e]).to == rooms@[j].id;
                assert(rooms@[i].exits@[e].to == rooms@[j].id);
            } else {
                let e = choose|e: int| 0 <= e < rooms@[j].exits@.len() && (#[trigger] rooms@[j].exits@[e]).to == rooms@[i].id;
                assert(rooms@[j].exits@[e].to == rooms@[i].id);
            }
        }
    }
    adj
}

/// How much smaller than the largest outdoor run a run may be and still
/// count as the open air.
pub const OPEN_AIR_RATIO: usize = 20;

/// Some place from `from` up to `to` of the queue holds room `q`.
spec fn queued(queue: Seq<usize>, from: int, to: int, q: int) -> bool {
    exists|w: int| from <= w < to && queue[w] == q as usize
}

/// Labels the runs of the link lists `adj`: every room a run reaches
/// shares the label of the rooms it is linked to. Returns the labels, with
/// `usize::MAX` for a room not in `on`, and each run's size.
#[verifier::rlimit(40)]
fn label_runs(adj: &Vec<Vec<usize>>, on: &Vec<bool>) -> (out: (Vec<usize>, Vec<usize>))
    requires
        on@.len() == adj@.len(),
        forall|a: int, k: int| 0 <= a < adj@.len() && 0 <= k < adj@[a]@.len() ==> #[trigger] adj@[a]@[k] < adj@.len(),
        forall|a: int, k: int|
            0 <= a < adj@.len() && 0 <= k < adj@[a]@.len() ==> #[trigger] adj@[adj@[a]@[k] as int]@.contains(a as usize),
    ensures
        out.0@.len() == adj@.len(),
        forall|i: int| 0 <= i < adj@.len() && #[trigger] on@[i] ==> out.0@[i] < out.1@.len(),
        forall|i: int, k: int|
            0 <= i < adj@.len() && on@[i] && 0 <= k < adj@[i]@.len() ==> out.0@[#[trigger] adj@[i]@[k] as int]
                == out.0@[i],
{
    let n = adj.len();
    let mut labels: Vec<usize> = Vec::new();
    let mut done: Vec<bool> = Vec::new();
    let mut i: usize = 0;
    while i < n
        invariant
            i <= n,
            labels@.len() == i,
            done@.len() == i,
            forall|q: int| 0 <= q < i ==> #[trigger] labels@[q] == usize::MAX && !done@[q],
        decreases n - i,
    {
        labels.push(usize::MAX);
        done.push(false);
        i = i + 1;
    }
    let mut sizes: Vec<usize> = Vec::new();
    let mut start: usize = 0;
    while start < n
        invariant
            start <= n,
            n == adj@.len(),
            on@.len() == n,
            labels@.len() == n,
            done@.len() == n,
            sizes@.len() <= start,
            forall|a: int, k: int| 0 <= a < n && 0 <= k < adj@[a]@.len() ==> #[trigger] adj@[a]@[k] < n,
            forall|a: int, k: int|
                0 <= a < n && 0 <= k < adj@[a]@.len() ==> #[trigger] adj@[adj@[a]@[k] as int]@.contains(a as usize),
            forall|q: int| 0 <= q < n && #[trigger] labels@[q] != usize::MAX ==> labels@[q] < sizes@.len() && done@[q],
            forall|q: int| 0 <= q < n && #[trigger] done@[q] ==> labels@[q] != usize::MAX,
            forall|q: int, k: int|
                0 <= q < n && done@[q] && 0 <= k < adj@[q]@.len() ==> labels@[#[trigger] adj@[q]@[k] as int] == labels@[q],
            forall|q: int| 0 <= q < start && #[trigger] on@[q] ==> labels@[q] != usize::MAX,
        decreases n - start,
    {
        if on[start] && labels[start] == usize::MAX {
            let u = sizes.len();
            labels.set(start, u);
            let mut queue: Vec<usize> = Vec::new();
            queue.push(start);
            let mut head: usize = 0;
            proof {
                assert(queue@[0] == start);
                assert forall|q: int| 0 <= q < n && #[trigger] labels@[q] == u && !done@[q] implies queued(queue@, head as int, queue@.len() as int, q) by {
                    if q != start {
                        assert(labels@[q] < u);
                    }
                }
            }
            while head < queue.len()
                invariant
                    start < n,
                    n == adj@.len(),
                    labels@.len() == n,
                    done@.len() == n,
                    u == sizes@.len(),
                    u <= start,
                    on@.len() == n,
                    forall|a: int, k: int| 0 <= a < n && 0 <= k < adj@[a]@.len() ==> #[trigger] adj@[a]@[k] < n,
                    forall|a: int, k: int|
                        0 <= a < n && 0 <= k < adj@[a]@.len() ==> #[trigger] adj@[adj@[a]@[k] as int]@.contains(
                            a as usize,
                        ),
                    labels@[start as int] == u,
                    head <= queue@.len() <= n,
                    forall|a: int, b: int| 0 <= a < b < queue@.len() ==> queue@[a] != queue@[b],
                    forall|k: int| 0 <= k < queue@.len() ==> #[trigger] queue@[k] < n && labels@[queue@[k] as int] == u,
                    forall|q: int| 0 <= q < n && #[trigger] labels@[q] == u && !done@[q] ==> queued(queue@, head as int, queue@.len() as int, q),
                    forall|q: int| 0 <= q < n && #[trigger] done@[q] && labels@[q] == u ==> queued(queue@, 0, head as int, q),
                    forall|q: int|
                        0 <= q < n && #[trigger] labels@[q] != usize::MAX ==> labels@[q] <= u && (labels@[q] < u
                            ==> done@[q]),
                    forall|q: int| 0 <= q < n && #[trigger] done@[q] ==> labels@[q] != usize::MAX,
                    forall|q: int, k: int|
                        0 <= q < n && done@[q] && 0 <= k < adj@[q]@.len() ==> labels@[#[trigger] adj@[q]@[k] as int]
                            == labels@[q],
                    forall|q: int| 0 <= q < start && #[trigger] on@[q] ==> labels@[q] != usize::MAX,
                decreases n - queue@.len(), queue@.len() - head,
            {
                let r = queue[head];
                proof {
                    if done@[r as int] {
                        let w = choose|w: int| 0 <= w < head && queue@[w] == r;
                        assert(queue@[w] == queue@[head as int]);
                    }
                }
                let ghost head0 = head;
                head = head + 1;
                let ghost qlen0 = queue@.len();
                proof {
                    assert forall|q: int|
                        0 <= q < n && #[trigger] labels@[q] == u && !done@[q] && q != r implies queued(
                        queue@,
                        head as int,
                        queue@.len() as int,
                        q,
                    ) by {
                        let w = choose|w: int| head0 <= w < queue@.len() && queue@[w] == q as usize;
                        assert(w != head0);
                    }
                }
                let mut k: usize = 0;
                while k < adj[r].len()
                    invariant
                        n == adj@.len(),
                        labels@.len() == n,
                        done@.len() == n,
                        u == sizes@.len(),
                        u <= start,
                        start < n,
                        on@.len() == n,
                        r < n,
                        labels@[r as int] == u,
                        !done@[r as int],
                        forall|a: int, j: int| 0 <= a < n && 0 <= j < adj@[a]@.len() ==> #[trigger] adj@[a]@[j] < n,
                        forall|a: int, j: int|
                            0 <= a < n && 0 <= j < adj@[a]@.len() ==> #[trigger] adj@[adj@[a]@[j] as int]@.contains(
                                a as usize,
                            ),
                        labels@[start as int] == u,
                        1 <= head <= queue@.len() <= n,
                        queue@.len() >= qlen0,
                        queue@[head - 1] == r,
                        forall|a: int, b: int| 0 <= a < b < queue@.len() ==> queue@[a] != queue@[b],
                        forall|j: int| 0 <= j < queue@.len() ==> #[trigger] queue@[j] < n && labels@[queue@[j] as int] == u,
                        forall|q: int|
                            0 <= q < n && #[trigger] labels@[q] == u && !done@[q] && q != r ==> queued(queue@, head as int, queue@.len() as int, q),
                        forall|q: int| 0 <= q < n && #[trigger] done@[q] && labels@[q] == u ==> queued(queue@, 0, head - 1, q),
                        forall|q: int|
                            0 <= q < n && #[trigger] labels@[q] != usize::MAX ==> labels@[q] <= u && (labels@[q] < u
                                ==> done@[q]),
                        forall|q: int| 0 <= q < n && #[trigger] done@[q] ==> labels@[q] != usize::MAX,
                        forall|q: int, j: int|
                            0 <= q < n && done@[q] && 0 <= j < adj@[q]@.len() ==> labels@[#[trigger] adj@[q]@[j] as int]
                                == labels@[q],
                        forall|j: int| 0 <= j < k ==> labels@[#[trigger] adj@[r as int]@[j] as int] == u,
                        forall|q: int| 0 <= q < start && #[trigger] on@[q] ==> labels@[q] != usize::MAX,
                        k <= adj@[r as int]@.len(),
                    decreases adj@[r as int]@.len() - k,
                {
                    let j = adj[r][k];
                    if labels[j] == usize::MAX {
                        proof {
                            if queue@.len() == n {
                                lemma_list_full(queue@, n as nat, j as int);
                                let w = choose|w: int| 0 <= w < queue@.len() && queue@[w] == j;
                                assert(labels@[queue@[w] as int] == u);
                            }
                        }
                        labels.set(j, u);
                        let ghost qb = queue@;
                        queue.push(j);
                        proof {
                            assert forall|a: int, b: int| 0 <= a < b < queue@.len() implies queue@[a] != queue@[b] by {
                                if b == qb.len() {
                                    assert(labels@[qb[a] as int] == u);
                                }
                            }
                            assert forall|q: int|
                                0 <= q < n && #[trigger] labels@[q] == u && !done@[q] && q != r implies queued(queue@, head as int, queue@.len() as int, q) by {
                                if q == j {
                                    assert(queue@[queue@.len() - 1] == j);
                                } else {
                                    let w = choose|w: int| head <= w < qb.len() && qb[w] == q as usize;
                                    assert(queue@[w] == q as usize);
                                }
                            }
                            assert forall|q: int| 0 <= q < n && #[trigger] done@[q] && labels@[q] == u implies queued(
                                queue@,
                                0,
                                head - 1,
                                q,
                            ) by {
                                let w = choose|w: int| 0 <= w < head - 1 && qb[w] == q as usize;
                                assert(queue@[w] == q as usize);
                            }
                        }
                    } else {
                        proof {
                            if labels@[j as int] < u {
                                assert(done@[j as int]);
                                assert(adj@[adj@[r as int]@[k as int] as int]@.contains((r as int) as usize));
                                let w = choose|w: int| 0 <= w < adj@[j as int]@.len() && adj@[j as int]@[w] == r;
                                assert(labels@[adj@[j as int]@[w] as int] == labels@[j as int]);
                            }
                        }
                    }
                    k = k + 1;
                }
                done.set(r, true);
                proof {
                    assert forall|q: int| 0 <= q < n && #[trigger] done@[q] && labels@[q] == u implies queued(
                        queue@,
                        0,
                        head as int,
                        q,
                    ) by {
                        if q == r {
                            assert(queue@[head - 1] == r);
                        } else {
                            let w = choose|w: int| 0 <= w < head - 1 && queue@[w] == q as usize;
                        }
                    }
                }
            }
            sizes.push(queue.len());
        }
        start = start + 1;
    }
    (labels, sizes)
}

/// The outdoor rooms that are the open air: the runs of outdoor rooms,
/// linked by every exit between two of them, that are not much smaller
/// than the largest; a smaller run is a courtyard a building encloses.
/// Every room of a run is in the air or none is.
pub fn open_air(map: &RoomMap) -> (air: Vec<bool>)
    ensures
        air@.len() == map@.len(),
        forall|i: int| 0 <= i < map@.len() && #[trigger] air@[i] ==> sense_of(map@[i]) == Sense::Outdoor,
        forall|i: int, j: int|
            0 <= i < map@.len() && 0 <= j < map@.len() && #[trigger] open_link(map@, i, j) ==> air@[i] == air@[j],
{
    let rooms = map.rooms();
    let ids = index_rooms(rooms);
    let n = rooms.len();
    let mut outdoor: Vec<bool> = Vec::new();
    let mut i: usize = 0;
    while i < n
        invariant
            i <= n,
            n == rooms@.len(),
            outdoor@.len() == i,
            forall|q: int| 0 <= q < i ==> #[trigger] outdoor@[q] == (sense_of(rooms@[q]) == Sense::Outdoor),
        decreases n - i,
    {
        outdoor.push(room_sense(&rooms[i]) == Sense::Outdoor);
        i = i + 1;
    }
    let adj = outdoor_links(rooms, &ids, &outdoor);
    let (labels, sizes) = label_runs(&adj, &outdoor);
    let mut biggest: usize = 0;
    let mut k: usize = 0;
    while k < sizes.len()
        invariant
            k <= sizes@.len(),
        decreases sizes.len() - k,
    {
        if sizes[k] > biggest {
            biggest = sizes[k];
        }
        k = k + 1;
    }
    let floor = biggest / OPEN_AIR_RATIO;
    let least = if floor > 1 { floor } else { 1 };
    let mut air: Vec<bool> = Vec::new();
    let mut q: usize = 0;
    while q < n
        invariant
            q <= n,
            n == rooms@.len(),
            rooms@ == map@,
            outdoor@.len() == n,
            labels@.len() == n,
            forall|p: int| 0 <= p < n && #[trigger] outdoor@[p] ==> labels@[p] < sizes@.len(),
            air@.len() == q,
            forall|p: int|
                0 <= p < q ==> #[trigger] air@[p] == (outdoor@[p] && sizes@[labels@[p] as int] >= least),
        decreases n - q,
    {
        let a = outdoor[q] && sizes[labels[q]] >= least;
        air.push(a);
        q = q + 1;
    }
    proof {
        assert forall|i: int, j: int|
            0 <= i < map@.len() && 0 <= j < map@.len() && #[trigger] open_link(map@, i, j) implies air@[i] == air@[j] by {
            assert(adj@[i]@.contains(j as usize));
            let w = choose|w: int| 0 <= w < adj@[i]@.len() && adj@[i]@[w] == j as usize;
            assert(labels@[adj@[i]@[w] as int] == labels@[i]);
        }
    }
    air
}

// ---------------------------------------------------------------------
// Positioning every room
// ---------------------------------------------------------------------

/// How many exits of `r` have a bearing, counting the first `m`.
pub open spec fn bearings_upto(r: Room, dirs: Map<u64, Dir>, m: int) -> nat
    decreases m,
{
    if m <= 0 {
        0
    } else {
        bearings_upto(r, dirs, m - 1) + (if dir_at(dirs, r.id, r.exits@[m - 1].to) is Some {
            1nat
        } else {
            0nat
        })
    }
}

/// How many exits of `r` have a bearing.
pub open spec fn bearings(r: Room, dirs: Map<u64, Dir>) -> nat {
    bearings_upto(r, dirs, r.exits@.len() as int)
}

fn count_bearings(r: &Room, dirs: &DirectionMap) -> (c: usize)
    ensures
        c == bearings(*r, dirs@),
{
    let mut c: usize = 0;
    let mut e: usize = 0;
    while e < r.exits.len()
        invariant
            e <= r.exits@.len(),
            c == bearings_upto(*r, dirs@, e as int),
            c <= e,
        decreases r.exits.len() - e,
    {
        if dirs.get(r.id, r.exits[e].to).is_some() {
            c = c + 1;
        }
        e = e + 1;
    }
    c
}

/// `s` is the first unplaced room with the most bearings.
pub open spec fn first_busiest(placed: Seq<bool>, counts: Seq<usize>, s: int) -> bool {
    &&& 0 <= s < placed.len()
    &&& !placed[s]
    &&& forall|i: int| 0 <= i < placed.len() && !placed[i] ==> #[trigger] counts[i] <= counts[s]
    &&& forall|i: int| 0 <= i < s && !placed[i] ==> #[trigger] counts[i] < counts[s]
}

/// The unplaced room to start the next component from: the first with
/// the most bearings.
fn busiest_unplaced(placed: &Vec<bool>, counts: &Vec<usize>) -> (s: usize)
    requires
        placed@.len() == counts@.len(),
        exists|i: int| 0 <= i < placed@.len() && !placed@[i],
    ensures
        first_busiest(placed@, counts@, s as int),
{
    let mut best: Option<usize> = None;
    let mut i: usize = 0;
    while i < placed.len()
        invariant
            i <= placed@.len(),
            placed@.len() == counts@.len(),
            match best {
                Some(b) => b < i && !placed@[b as int] && (forall|q: int|
                    0 <= q < i && !placed@[q] ==> #[trigger] counts@[q] <= counts@[b as int]) && (forall|q: int|
                    0 <= q < b && !placed@[q] ==> #[trigger] counts@[q] < counts@[b as int]),
                None => forall|q: int| 0 <= q < i ==> #[trigger] placed@[q],
            },
        decreases placed.len() - i,
    {
        if !placed[i] {
            match best {
                None => {
                    best = Some(i);
                },
                Some(b) => {
                    if counts[i] > counts[b] {
                        best = Some(i);
                    }
                },
            }
        }
        i = i + 1;
    }
    best.unwrap()
}

/// How many cells repeat one before them.
pub open spec fn stacked_of(cells: Seq<Cell>) -> nat
    decreases cells.len(),
{
    if cells.len() == 0 {
        0
    } else {
        stacked_of(cells.drop_last()) + (if cells.drop_last().contains(cells.last()) {
            1nat
        } else {
            0nat
        })
    }
}

/// How many rooms share a cell with one before them.
fn stacked(cells: &Vec<Cell>) -> (c: usize)
    ensures
        c == stacked_of(cells@),
{
    let mut seen: HashMapWithView<u64, usize> = HashMapWithView::new();
    let mut c: usize = 0;
    let mut k: usize = 0;
    while k < cells.len()
        invariant
            k <= cells@.len(),
            c == stacked_of(cells@.take(k as int)),
            c <= k,
            forall|key: u64| #[trigger] seen@.contains_key(key) <==> exists|j: int| 0 <= j < k && cell_key(cells@[j]) == key,
        decreases cells.len() - k,
    {
        let key = key_of_cell(cells[k]);
        let ghost t = cells@.take(k + 1);
        assert(t.drop_last() =~= cells@.take(k as int));
        assert(t.last() == cells@[k as int]);
        proof {
            if seen@.contains_key(key) {
                let j = choose|j: int| 0 <= j < k && cell_key(cells@[j]) == key;
                lemma_cell_key(cells@[j], cells@[k as int]);
                assert(cells@.take(k as int)[j] == cells@[k as int]);
            } else {
                assert forall|j: int| 0 <= j < k implies cells@.take(k as int)[j] != cells@[k as int] by {
                    assert(cell_key(cells@[j]) != key);
                }
            }
        }
        if seen.contains_key(&key) {
            c = c + 1;
        } else {
            seen.insert(key, k);
        }
        proof {
            assert forall|key2: u64| #[trigger] seen@.contains_key(key2) <==> exists|j: int| 0 <= j < k + 1 && cell_key(cells@[j]) == key2 by {
                if seen@.contains_key(key2) && key2 == key {
                    assert(cell_key(cells@[k as int]) == key2);
                }
            }
        }
        k = k + 1;
    }
    assert(cells@.take(k as int) =~= cells@);
    c
}

/// The cells of the positions, in order.
pub open spec fn cells_of(ps: Seq<(RoomId, Cell)>) -> Seq<Cell> {
    ps.map_values(|e: (RoomId, Cell)| e.1)
}

/// A placed component as `position_rooms` leaves it: numbered `index`,
/// at least one room, each room's position beside it in order, no empty
/// row or column, and every compass edge that points the wrong way
/// reported.
pub open spec fn placed_group(g: Group, index: int, rooms: Seq<Room>, dirs: Map<u64, Dir>) -> bool {
    &&& g.index == index
    &&& g.room_ids@.len() > 0
    &&& g.positions@.len() == g.room_ids@.len()
    &&& forall|k: int| 0 <= k < g.positions@.len() ==> (#[trigger] g.positions@[k]).0 == g.room_ids@[k]
    &&& compact(cells_of(g.positions@))
    &&& g.violations@ == faults(g.room_ids@, g.positions@, rooms, dirs)
    &&& g.base_offset is None
    &&& g.packing is None
    &&& g.name is None
}

/// Some component holds the room `id`.
pub open spec fn holds_room(groups: Seq<Group>, id: RoomId) -> bool {
    exists|g: int, k: int| 0 <= g < groups.len() && 0 <= k < groups[g].room_ids@.len() && #[trigger] groups[g].room_ids@[k] == id
}

/// No room is in two places among the components.
pub open spec fn rooms_once(groups: Seq<Group>) -> bool {
    forall|g1: int, k1: int, g2: int, k2: int|
        0 <= g1 < groups.len() && 0 <= k1 < groups[g1].room_ids@.len() && 0 <= g2 < groups.len() && 0 <= k2
            < groups[g2].room_ids@.len() && (g1 != g2 || k1 != k2) ==> #[trigger] groups[g1].room_ids@[k1]
            != #[trigger] groups[g2].room_ids@[k2]
}

/// Room `id` is one of the map's rooms not yet placed.
pub open spec fn fresh_room(rooms: Seq<Room>, placed: Seq<bool>, id: RoomId) -> bool {
    exists|i: int| 0 <= i < rooms.len() && #[trigger] rooms[i].id == id && !placed[i]
}

/// The ids of the order's rooms, and their positions beside them.
fn room_ids_of(rooms: &Vec<Room>, p: &Placing) -> (out: (Vec<RoomId>, Vec<(RoomId, Cell)>))
    requires
        p.wf(rooms@.len()),
    ensures
        out.0@.len() == p.order@.len(),
        out.1@.len() == p.order@.len(),
        forall|k: int| 0 <= k < p.order@.len() ==> #[trigger] out.0@[k] == rooms@[p.order@[k] as int].id,
        forall|k: int| 0 <= k < p.order@.len() ==> #[trigger] out.1@[k] == (out.0@[k], p.cells@[k]),
{
    let mut ids: Vec<RoomId> = Vec::new();
    let mut ps: Vec<(RoomId, Cell)> = Vec::new();
    let mut k: usize = 0;
    while k < p.order.len()
        invariant
            p.wf(rooms@.len()),
            k <= p.order@.len(),
            ids@.len() == k,
            ps@.len() == k,
            forall|q: int| 0 <= q < k ==> #[trigger] ids@[q] == rooms@[p.order@[q] as int].id,
            forall|q: int| 0 <= q < k ==> #[trigger] ps@[q] == (ids@[q], p.cells@[q]),
        decreases p.order.len() - k,
    {
        let id = rooms[p.order[k]].id;
        ids.push(id);
        ps.push((id, p.cells[k]));
        k = k + 1;
    }
    (ids, ps)
}

/// Cells beside ids, in order.
fn zip_cells(ids: &Vec<RoomId>, cells: &Vec<Cell>) -> (ps: Vec<(RoomId, Cell)>)
    requires
        ids@.len() == cells@.len(),
    ensures
        ps@.len() == ids@.len(),
        forall|k: int| 0 <= k < ids@.len() ==> #[trigger] ps@[k] == (ids@[k], cells@[k]),
{
    let mut ps: Vec<(RoomId, Cell)> = Vec::new();
    let mut k: usize = 0;
    while k < ids.len()
        invariant
            k <= ids@.len(),
            ids@.len() == cells@.len(),
            ps@.len() == k,
            forall|q: int| 0 <= q < k ==> #[trigger] ps@[q] == (ids@[q], cells@[q]),
        decreases ids.len() - k,
    {
        ps.push((ids[k], cells[k]));
        k = k + 1;
    }
    ps
}

proof fn lemma_cells_of(ps: Seq<(RoomId, Cell)>, cells: Seq<Cell>)
    requires
        ps.len() == cells.len(),
        forall|k: int| 0 <= k < ps.len() ==> (#[trigger] ps[k]).1 == cells[k],
    ensures
        cells_of(ps) == cells,
{
    assert(cells_of(ps) =~= cells);
}

proof fn lemma_compact_modest(ps: Seq<(RoomId, Cell)>, n: int)
    requires
        compact(cells_of(ps)),
        ps.len() <= n <= 0x3fff_ffff,
    ensures
        modest(ps),
{
    assert forall|k: int| 0 <= k < ps.len() implies -0x3fff_ffff <= (#[trigger] ps[k]).1.x <= 0x3fff_ffff && -0x3fff_ffff
        <= ps[k].1.y <= 0x3fff_ffff by {
        assert(cells_of(ps)[k] == ps[k].1);
    }
}

/// One component, grown from the unplaced room `start`: placed breadth
/// first by its bearings, then through its bearingless doorways, then
/// refined and compacted. Where a bearing is still broken and an
/// arrangement keeping every bearing exists, that arrangement is taken
/// when it breaks and stacks fewer than the one grown.
#[verifier::rlimit(60)]
fn build_component(
    rooms: &Vec<Room>,
    map: &RoomMap,
    ids: &HashMapWithView<u32, usize>,
    dirs: &DirectionMap,
    sense: &Vec<Sense>,
    air: &Vec<bool>,
    placed: &mut Vec<bool>,
    start: usize,
    index: usize,
    Ghost(cap): Ghost<nat>,
) -> (g: Group)
    requires
        inputs_ok(rooms@, ids@, sense@, air@, cap),
        rooms@ == map@,
        old(placed)@.len() == rooms@.len(),
        start < rooms@.len(),
        !old(placed)@[start as int],
    ensures
        placed_group(g, index as int, map@, dirs@),
        g.room_ids@[0] == rooms@[start as int].id,
        final(placed)@.len() == rooms@.len(),
        forall|i: int|
            0 <= i < rooms@.len() ==> #[trigger] final(placed)@[i] == (old(placed)@[i] || g.room_ids@.contains(
                rooms@[i].id,
            )),
        forall|k: int| 0 <= k < g.room_ids@.len() ==> fresh_room(rooms@, old(placed)@, #[trigger] g.room_ids@[k]),
        forall|a: int, b: int| 0 <= a < b < g.room_ids@.len() ==> g.room_ids@[a] != g.room_ids@[b],
{
    let ghost n = rooms@.len();
    let ghost prev = placed@;
    proof {
        lemma_budget(n as int, cap as int, 0, 0);
    }
    let mut p = Placing::new(rooms.len());
    p.place(start, Cell::origin(), Ghost(n));
    assert(p.order@[0] == start);
    placed.set(start, true);
    proof {
        assert forall|i: int| 0 <= i < n implies #[trigger] placed@[i] == (prev[i] || p.slot@[i] != usize::MAX) by {}
    }
    let mut pending: Vec<(usize, usize)> = Vec::new();
    let r1 = spread(
        rooms,
        ids,
        dirs,
        sense,
        air,
        &mut p,
        placed,
        &mut pending,
        0,
        Ghost(prev),
        Ghost(cap),
        Ghost(0),
    );
    assert(p.order@.take(1)[0] == p.order@[0]);
    assert(p.order@[0] == start);
    let r2 = drain(rooms, ids, dirs, sense, air, &mut p, placed, pending, Ghost(prev), Ghost(cap), r1);
    assert(p.order@.take(1)[0] == p.order@[0]);
    assert(p.order@[0] == start);
    optimize(rooms, ids, dirs, &mut p, Ghost(cap), r2);
    proof {
        lemma_order_fits(&p, n);
        lemma_budget(n as int, cap as int, 0, 0);
    }
    let (room_ids, mut positions) = room_ids_of(rooms, &p);
    proof {
        assert forall|a: int, b: int| 0 <= a < b < room_ids@.len() implies room_ids@[a] != room_ids@[b] by {
            assert(p.slot@[p.order@[a] as int] == a);
            assert(p.slot@[p.order@[b] as int] == b);
            assert(rooms@[p.order@[a] as int].id != rooms@[p.order@[b] as int].id);
        }
        assert forall|k: int| 0 <= k < positions@.len() implies (#[trigger] positions@[k]).1 == p.cells@[k] by {}
        lemma_cells_of(positions@, p.cells@);
        lemma_compact_modest(positions@, n as int);
    }
    let mut violations = validate_component(&room_ids, &positions, map, dirs);
    if violations.len() > 0 {
        match place_by_order(&room_ids, map, dirs) {
            Some(arranged) => {
                let found = position_index(&arranged);
                let mut aligned: Vec<Cell> = Vec::new();
                let mut k: usize = 0;
                while k < room_ids.len()
                    invariant
                        k <= room_ids@.len(),
                        aligned@.len() == k,
                        finds_positions(found@, arranged@),
                        forall|r: RoomId| room_ids@.contains(r) ==> #[trigger] position_of(arranged@, r) is Some,
                    decreases room_ids.len() - k,
                {
                    assert(room_ids@.contains(room_ids@[k as int]));
                    let c = find_position(&found, &arranged, room_ids[k]).unwrap();
                    aligned.push(c);
                    k = k + 1;
                }
                let squeezed = compact_cells(&aligned);
                let settled = zip_cells(&room_ids, &squeezed);
                proof {
                    assert forall|k: int| 0 <= k < settled@.len() implies (#[trigger] settled@[k]).1 == squeezed@[k] by {}
                    lemma_cells_of(settled@, squeezed@);
                    lemma_compact_modest(settled@, n as int);
                }
                let fixed = validate_component(&room_ids, &settled, map, dirs);
                let worse_now = violations.len() as u128 + stacked(&p.cells) as u128;
                let worse_then = fixed.len() as u128 + stacked(&squeezed) as u128;
                if worse_then < worse_now {
                    positions = settled;
                    violations = fixed;
                }
            },
            None => {},
        }
    }
    proof {
        assert forall|i: int| 0 <= i < n implies #[trigger] placed@[i] == (prev[i] || room_ids@.contains(rooms@[i].id)) by {
            if p.slot@[i] != usize::MAX {
                let k = p.slot@[i] as int;
                assert(room_ids@[k] == rooms@[i].id);
            }
            if room_ids@.contains(rooms@[i].id) {
                let k = choose|k: int| 0 <= k < room_ids@.len() && room_ids@[k] == rooms@[i].id;
                assert(rooms@[p.order@[k] as int].id == rooms@[i].id);
                assert(p.order@[k] as int == i);
            }
        }
        assert forall|k: int| 0 <= k < room_ids@.len() implies fresh_room(rooms@, prev, #[trigger] room_ids@[k]) by {
            let i = p.order@[k] as int;
            assert(rooms@[i].id == room_ids@[k]);
            assert(p.slot@[i] != usize::MAX);
        }
    }
    Group {
        index,
        room_ids,
        positions,
        violations,
        base_offset: None,
        packing: None,
        name: None,
    }
}

/// How many rooms are still to place.
spec fn unplaced(placed: Seq<bool>) -> nat
    decreases placed.len(),
{
    if placed.len() == 0 {
        0
    } else {
        unplaced(placed.drop_last()) + (if placed.last() {
            0nat
        } else {
            1nat
        })
    }
}

/// Placing more rooms, at least one of them new, leaves fewer to place.
proof fn lemma_unplaced_fewer(a: Seq<bool>, b: Seq<bool>, s: int)
    requires
        a.len() == b.len(),
        forall|i: int| 0 <= i < a.len() && #[trigger] a[i] ==> b[i],
        0 <= s < a.len(),
        !a[s],
        b[s],
    ensures
        unplaced(b) < unplaced(a),
    decreases a.len(),
{
    let (a2, b2) = (a.drop_last(), b.drop_last());
    if s == a.len() - 1 {
        lemma_unplaced_no_more(a2, b2);
    } else {
        assert(a2[s] == a[s] && b2[s] == b[s]);
        lemma_unplaced_fewer(a2, b2, s);
    }
}

proof fn lemma_unplaced_no_more(a: Seq<bool>, b: Seq<bool>)
    requires
        a.len() == b.len(),
        forall|i: int| 0 <= i < a.len() && #[trigger] a[i] ==> b[i],
    ensures
        unplaced(b) <= unplaced(a),
    decreases a.len(),
{
    if a.len() > 0 {
        let (a2, b2) = (a.drop_last(), b.drop_last());
        assert forall|i: int| 0 <= i < a2.len() && #[trigger] a2[i] implies b2[i] by {
            assert(a[i]);
        }
        lemma_unplaced_no_more(a2, b2);
    }
}

/// The room at `s` is the first of the unplaced rooms with the most
/// bearings.
pub open spec fn starts_busiest(placed: Seq<bool>, rooms: Seq<Room>, dirs: Map<u64, Dir>, s: int) -> bool {
    &&& 0 <= s < rooms.len()
    &&& !placed[s]
    &&& forall|i: int| 0 <= i < rooms.len() && !placed[i] ==> bearings(#[trigger] rooms[i], dirs) <= bearings(rooms[s], dirs)
    &&& forall|i: int| 0 <= i < s && !placed[i] ==> bearings(#[trigger] rooms[i], dirs) < bearings(rooms[s], dirs)
}

/// Which rooms the components before the `g`-th hold.
pub open spec fn placed_before(groups: Seq<Group>, g: int, rooms: Seq<Room>) -> Seq<bool> {
    Seq::new(rooms.len(), |i: int| holds_room(groups.take(g), rooms[i].id))
}

/// Each component starts from the room with the most bearings among those
/// no earlier component holds, the first of them in map order.
pub open spec fn started_busiest(groups: Seq<Group>, g: int, rooms: Seq<Room>, dirs: Map<u64, Dir>) -> bool {
    exists|s: int|
        #![trigger rooms[s]]
        starts_busiest(placed_before(groups, g, rooms), rooms, dirs, s) && rooms[s].id == groups[g].room_ids@[0]
}

/// Connected components over the rooms' bearings, until every room is
/// placed. Every room of the map is placed exactly once, each component
/// starts from the unplaced room with the most bearings, its positions
/// stand beside its rooms with no empty row or column, and every compass
/// edge whose placement contradicts its bearing is reported.
#[verifier::rlimit(60)]
pub fn position_rooms(map: &RoomMap, dirs: &DirectionMap) -> (groups: Vec<Group>)
    requires
        layout_fits(map@),
    ensures
        forall|g: int| 0 <= g < groups@.len() ==> placed_group(#[trigger] groups@[g], g, map@, dirs@),
        forall|g: int| 0 <= g < groups@.len() ==> started_busiest(groups@, g, map@, dirs@),
        rooms_once(groups@),
        forall|g: int, k: int|
            0 <= g < groups@.len() && 0 <= k < groups@[g].room_ids@.len() ==> has_room(map@, #[trigger] groups@[g].room_ids@[k]),
        forall|i: int| 0 <= i < map@.len() ==> holds_room(groups@, #[trigger] map@[i].id),
{
    let rooms = map.rooms();
    let n = rooms.len();
    let ids = index_rooms(rooms);
    let ghost cap = exits_cap(rooms@);
    proof {
        lemma_exits_cap(rooms@);
    }
    let mut sense: Vec<Sense> = Vec::new();
    let mut counts: Vec<usize> = Vec::new();
    let mut i: usize = 0;
    while i < n
        invariant
            i <= n,
            n == rooms@.len(),
            sense@.len() == i,
            counts@.len() == i,
            forall|q: int| 0 <= q < i ==> #[trigger] sense@[q] == sense_of(rooms@[q]),
            forall|q: int| 0 <= q < i ==> #[trigger] counts@[q] == bearings(rooms@[q], dirs@),
        decreases n - i,
    {
        sense.push(room_sense(&rooms[i]));
        counts.push(count_bearings(&rooms[i], dirs));
        i = i + 1;
    }
    let air = open_air(map);
    let mut placed: Vec<bool> = Vec::new();
    let mut i: usize = 0;
    while i < n
        invariant
            i <= n,
            placed@.len() == i,
            forall|q: int| 0 <= q < i ==> !#[trigger] placed@[q],
        decreases n - i,
    {
        placed.push(false);
        i = i + 1;
    }
    let mut groups: Vec<Group> = Vec::new();
    loop
        invariant
            inputs_ok(rooms@, ids@, sense@, air@, cap),
            rooms@ == map@,
            n == rooms@.len(),
            counts@.len() == n,
            forall|q: int| 0 <= q < n ==> #[trigger] counts@[q] == bearings(rooms@[q], dirs@),
            placed@.len() == n,
            forall|q: int| 0 <= q < n ==> #[trigger] placed@[q] == holds_room(groups@, rooms@[q].id),
            forall|g: int| 0 <= g < groups@.len() ==> placed_group(#[trigger] groups@[g], g, map@, dirs@),
            forall|g: int| 0 <= g < groups@.len() ==> started_busiest(groups@, g, map@, dirs@),
            rooms_once(groups@),
            forall|g: int, k: int|
                0 <= g < groups@.len() && 0 <= k < groups@[g].room_ids@.len() ==> has_room(
                    map@,
                    #[trigger] groups@[g].room_ids@[k],
                ),
        ensures
            placed@.len() == n,
            forall|q: int| 0 <= q < n ==> #[trigger] placed@[q],
            forall|q: int| 0 <= q < n ==> #[trigger] placed@[q] == holds_room(groups@, rooms@[q].id),
            forall|g: int| 0 <= g < groups@.len() ==> placed_group(#[trigger] groups@[g], g, map@, dirs@),
            forall|g: int| 0 <= g < groups@.len() ==> started_busiest(groups@, g, map@, dirs@),
            rooms_once(groups@),
            forall|g: int, k: int|
                0 <= g < groups@.len() && 0 <= k < groups@[g].room_ids@.len() ==> has_room(
                    map@,
                    #[trigger] groups@[g].room_ids@[k],
                ),
        decreases unplaced(placed@),
    {
        let mut any = false;
        let mut q: usize = 0;
        while q < n
            invariant
                q <= n,
                placed@.len() == n,
                any == exists|j: int| 0 <= j < q && !placed@[j],
            decreases n - q,
        {
            if !placed[q] {
                any = true;
            }
            q = q + 1;
        }
        if !any {
            assert forall|q: int| 0 <= q < n implies #[trigger] placed@[q] by {
                if !placed@[q] {
                    assert(exists|j: int| 0 <= j < n && !placed@[j]);
                }
            }
            break;
        }
        let start = busiest_unplaced(&placed, &counts);
        let ghost before = placed@;
        let ghost old_groups = groups@;
        let index = groups.len();
        let g = build_component(rooms, map, &ids, dirs, &sense, &air, &mut placed, start, index, Ghost(cap));
        groups.push(g);
        proof {
            assert(groups@ == old_groups.push(g));
            assert forall|q: int| 0 <= q < n implies #[trigger] placed@[q] == holds_room(groups@, rooms@[q].id) by {
                if holds_room(old_groups, rooms@[q].id) {
                    let (g1, k1) = choose|g1: int, k1: int|
                        0 <= g1 < old_groups.len() && 0 <= k1 < old_groups[g1].room_ids@.len()
                            && #[trigger] old_groups[g1].room_ids@[k1] == rooms@[q].id;
                    assert(groups@[g1].room_ids@[k1] == rooms@[q].id);
                }
                if g.room_ids@.contains(rooms@[q].id) {
                    let k = choose|k: int| 0 <= k < g.room_ids@.len() && g.room_ids@[k] == rooms@[q].id;
                    assert(groups@[index as int].room_ids@[k] == rooms@[q].id);
                }
                if holds_room(groups@, rooms@[q].id) {
                    let (g1, k1) = choose|g1: int, k1: int|
                        0 <= g1 < groups@.len() && 0 <= k1 < groups@[g1].room_ids@.len()
                            && #[trigger] groups@[g1].room_ids@[k1] == rooms@[q].id;
                    if g1 < index {
                        assert(old_groups[g1].room_ids@[k1] == rooms@[q].id);
                    } else {
                        assert(g.room_ids@[k1] == rooms@[q].id);
                    }
                }
            }
            assert forall|g1: int, k1: int, g2: int, k2: int|
                0 <= g1 < groups@.len() && 0 <= k1 < groups@[g1].room_ids@.len() && 0 <= g2 < groups@.len() && 0 <= k2
                    < groups@[g2].room_ids@.len() && (g1 != g2 || k1 != k2) implies #[trigger] groups@[g1].room_ids@[k1]
                != #[trigger] groups@[g2].room_ids@[k2] by {
                if g1 == index && g2 == index {
                    if k1 < k2 {
                        assert(g.room_ids@[k1] != g.room_ids@[k2]);
                    } else {
                        assert(g.room_ids@[k2] != g.room_ids@[k1]);
                    }
                } else if g1 == index {
                    assert(fresh_room(rooms@, before, g.room_ids@[k1]));
                    let j = choose|j: int| 0 <= j < rooms@.len() && #[trigger] rooms@[j].id == g.room_ids@[k1] && !before[j];
                    if old_groups[g2].room_ids@[k2] == g.room_ids@[k1] {
                        assert(holds_room(old_groups, rooms@[j].id));
                    }
                } else if g2 == index {
                    assert(fresh_room(rooms@, before, g.room_ids@[k2]));
                    let j = choose|j: int| 0 <= j < rooms@.len() && #[trigger] rooms@[j].id == g.room_ids@[k2] && !before[j];
                    if old_groups[g1].room_ids@[k1] == g.room_ids@[k2] {
                        assert(holds_room(old_groups, rooms@[j].id));
                    }
                } else {
                    assert(old_groups[g1].room_ids@[k1] != old_groups[g2].room_ids@[k2]);
                }
            }
            assert forall|g1: int, k1: int|
                0 <= g1 < groups@.len() && 0 <= k1 < groups@[g1].room_ids@.len() implies has_room(
                map@,
                #[trigger] groups@[g1].room_ids@[k1],
            ) by {
                if g1 == index {
                    assert(fresh_room(rooms@, before, g.room_ids@[k1]));
                    let j = choose|j: int| 0 <= j < rooms@.len() && #[trigger] rooms@[j].id == g.room_ids@[k1] && !before[j];
                    assert(map@[j].id == g.room_ids@[k1]);
                } else {
                    assert(old_groups[g1] == groups@[g1]);
                }
            }
            assert forall|g1: int| 0 <= g1 < groups@.len() implies placed_group(#[trigger] groups@[g1], g1, map@, dirs@) by {
                if g1 < index {
                    assert(old_groups[g1] == groups@[g1]);
                }
            }
            assert forall|g1: int| 0 <= g1 < groups@.len() implies started_busiest(groups@, g1, map@, dirs@) by {
                assert(groups@.take(g1) =~= old_groups.take(g1)) by {
                    if g1 < index {
                        assert forall|x: int| 0 <= x < g1 implies groups@.take(g1)[x] == old_groups.take(g1)[x] by {}
                    }
                }
                if g1 < index {
                    assert(started_busiest(old_groups, g1, map@, dirs@));
                    let s0 = choose|s0: int|
                        #![trigger rooms@[s0]]
                        starts_busiest(placed_before(old_groups, g1, rooms@), rooms@, dirs@, s0) && rooms@[s0].id
                            == old_groups[g1].room_ids@[0];
                    assert(placed_before(groups@, g1, rooms@) =~= placed_before(old_groups, g1, rooms@));
                    assert(groups@[g1] == old_groups[g1]);
                    assert(rooms@[s0].id == groups@[g1].room_ids@[0]);
                } else {
                    assert(old_groups.take(index as int) =~= old_groups);
                    assert(placed_before(groups@, g1, rooms@) =~= before) by {
                        assert forall|x: int| 0 <= x < n implies placed_before(groups@, g1, rooms@)[x] == before[x] by {}
                    }
                    assert(first_busiest(before, counts@, start as int));
                    assert forall|x: int| 0 <= x < n && !before[x] implies bearings(#[trigger] rooms@[x], dirs@) <= bearings(
                        rooms@[start as int],
                        dirs@,
                    ) by {
                        assert(counts@[x] <= counts@[start as int]);
                    }
                    assert forall|x: int| 0 <= x < start && !before[x] implies bearings(#[trigger] rooms@[x], dirs@) < bearings(
                        rooms@[start as int],
                        dirs@,
                    ) by {
                        assert(counts@[x] < counts@[start as int]);
                    }
                    assert(starts_busiest(before, rooms@, dirs@, start as int));
                    assert(rooms@[start as int].id == groups@[g1].room_ids@[0]);
                }
            }
            lemma_unplaced_fewer(before, placed@, start as int);
        }
    }
    proof {
        assert forall|i: int| 0 <= i < map@.len() implies holds_room(groups@, #[trigger] map@[i].id) by {
            assert(placed@[i]);
        }
    }
    groups
}

} // verus!
