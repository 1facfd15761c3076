//! Grid geometry shared by positioning and packing: cells, bounds,
//! distances, rings, and segment crossings.

use vstd::prelude::*;

verus! {

/// One grid cell. `y` grows downward, so a negative `dy` is north.
#[derive(Debug, Clone, Copy, PartialEq, Eq, Structural, Hash)]
pub struct Cell {
    pub x: i32,
    pub y: i32,
}

impl Cell {
    /// The origin, `(0, 0)`.
    pub fn origin() -> (c: Cell)
        ensures
            c.x == 0 && c.y == 0,
    {
        Cell { x: 0, y: 0 }
    }
}

/// Sheet cells per outdoor solver cell: the streets are laid at this scale,
/// leaving room between neighbouring street rooms for the buildings.
pub const TOWN_SCALE: i32 = 4;

/// The town scale a saved layout takes when it records none.
pub fn default_town_scale() -> (s: i32)
    ensures
        s == TOWN_SCALE,
{
    TOWN_SCALE
}

/// The inclusive extent of a set of cells.
#[derive(Debug, Clone, Copy)]
pub struct Bounds {
    pub min_x: i32,
    pub max_x: i32,
    pub min_y: i32,
    pub max_y: i32,
}

impl Bounds {
    /// Columns covered, counting both edges.
    pub fn width(&self) -> (w: i32)
        requires
            i32::MIN <= self.max_x - self.min_x,
            self.max_x - self.min_x + 1 <= i32::MAX,
        ensures
            w == self.max_x - self.min_x + 1,
    {
        self.max_x - self.min_x + 1
    }

    /// Rows covered, counting both edges.
    pub fn height(&self) -> (h: i32)
        requires
            i32::MIN <= self.max_y - self.min_y,
            self.max_y - self.min_y + 1 <= i32::MAX,
        ensures
            h == self.max_y - self.min_y + 1,
    {
        self.max_y - self.min_y + 1
    }
}

/// How a group was placed on the shared sheet by the cluster packer.
#[derive(Debug, Clone, Copy, PartialEq, Eq, Structural, Hash)]
pub enum PackMethod {
    Image,
    Connector,
    Seed,
    Strip,
    InteriorShelf,
    /// An interior building seated on the outdoor sheet by the try-inline
    /// pass.
    InteriorInline,
}

/// The word a packing method is reported under.
pub open spec fn pack_method_name(m: PackMethod) -> Seq<char> {
    match m {
        PackMethod::Image => "image"@,
        PackMethod::Connector => "connector"@,
        PackMethod::Seed => "seed"@,
        PackMethod::Strip => "strip"@,
        PackMethod::InteriorShelf => "interior-shelf"@,
        PackMethod::InteriorInline => "interior-inline"@,
    }
}

impl PackMethod {
    /// The word this method is reported under.
    pub fn name(self) -> (s: &'static str)
        ensures
            s@ == pack_method_name(self),
    {
        match self {
            PackMethod::Image => "image",
            PackMethod::Connector => "connector",
            PackMethod::Seed => "seed",
            PackMethod::Strip => "strip",
            PackMethod::InteriorShelf => "interior-shelf",
            PackMethod::InteriorInline => "interior-inline",
        }
    }
}

/// `|v|`.
pub open spec fn abs(v: int) -> int {
    if v < 0 {
        -v
    } else {
        v
    }
}

/// The sign of `v`: -1, 0 or 1.
pub open spec fn sign(v: int) -> int {
    if v < 0 {
        -1
    } else if v > 0 {
        1
    } else {
        0
    }
}

/// The larger of two integers.
pub open spec fn max(a: int, b: int) -> int {
    if a >= b {
        a
    } else {
        b
    }
}

/// The smaller of two integers.
pub open spec fn min(a: int, b: int) -> int {
    if a <= b {
        a
    } else {
        b
    }
}

/// King-move distance between two cells.
pub open spec fn chebyshev_of(a: Cell, b: Cell) -> int {
    max(abs(a.x - b.x), abs(a.y - b.y))
}

/// Both coordinate differences of `a` and `b` have a magnitude that fits
/// in an `i32`.
pub open spec fn near_enough(a: Cell, b: Cell) -> bool {
    &&& i32::MIN < a.x - b.x <= i32::MAX
    &&& i32::MIN < a.y - b.y <= i32::MAX
}

/// King-move distance between two cells.
pub fn chebyshev(a: Cell, b: Cell) -> (d: i32)
    requires
        near_enough(a, b),
    ensures
        d == chebyshev_of(a, b),
{
    let dx = a.x - b.x;
    let dy = a.y - b.y;
    let ax = if dx < 0 {
        -dx
    } else {
        dx
    };
    let ay = if dy < 0 {
        -dy
    } else {
        dy
    };
    if ax >= ay {
        ax
    } else {
        ay
    }
}

fn signum(v: i32) -> (s: i32)
    ensures
        s == sign(v as int),
{
    if v < 0 {
        -1
    } else if v > 0 {
        1
    } else {
        0
    }
}

/// Whether the edge from `r` to `o` fails to point the stated way: the
/// signs of its two deltas are not `(sx, sy)`.
pub open spec fn violated(r: Cell, o: Cell, sx: int, sy: int) -> bool {
    sign(o.x - r.x) != sx || sign(o.y - r.y) != sy
}

/// Whether `o` lies on the wrong side of `r` for a step of signs
/// `(sx, sy)`.
pub fn violated_at(r: Cell, o: Cell, sx: i32, sy: i32) -> (b: bool)
    requires
        i32::MIN <= o.x - r.x <= i32::MAX,
        i32::MIN <= o.y - r.y <= i32::MAX,
    ensures
        b == violated(r, o, sx as int, sy as int),
{
    signum(o.x - r.x) != sx || signum(o.y - r.y) != sy
}

/// The cross product of `b - a` and `c - a`.
pub open spec fn cross(a: Cell, b: Cell, c: Cell) -> int {
    (b.x - a.x) * (c.y - a.y) - (b.y - a.y) * (c.x - a.x)
}

/// Each product in [`cross`], and their difference, fits in an `i64`.
pub open spec fn cross_fits(a: Cell, b: Cell, c: Cell) -> bool {
    let p = (b.x - a.x) * (c.y - a.y);
    let q = (b.y - a.y) * (c.x - a.x);
    &&& i64::MIN <= p <= i64::MAX
    &&& i64::MIN <= q <= i64::MAX
    &&& i64::MIN <= p - q <= i64::MAX
}

/// Which side of the line `a -> b` the cell `c` is on: -1, 0 or 1.
pub open spec fn orientation(a: Cell, b: Cell, c: Cell) -> int {
    sign(cross(a, b, c))
}

fn orient(a: Cell, b: Cell, c: Cell) -> (s: i64)
    requires
        cross_fits(a, b, c),
    ensures
        s == orientation(a, b, c),
{
    let bx = b.x as i64 - a.x as i64;
    let by = b.y as i64 - a.y as i64;
    let cx = c.x as i64 - a.x as i64;
    let cy = c.y as i64 - a.y as i64;
    let v = bx * cy - by * cx;
    if v < 0 {
        -1
    } else if v > 0 {
        1
    } else {
        0
    }
}

/// Whether two segments cross strictly: each separates the other's ends,
/// and no end lies on the other's line.
pub open spec fn crosses(a1: Cell, b1: Cell, a2: Cell, b2: Cell) -> bool {
    let o1 = orientation(a1, b1, a2);
    let o2 = orientation(a1, b1, b2);
    let o3 = orientation(a2, b2, a1);
    let o4 = orientation(a2, b2, b1);
    o1 != o2 && o3 != o4 && o1 != 0 && o2 != 0 && o3 != 0 && o4 != 0
}

/// Strict segment crossing: shared endpoints and collinear touches do not
/// count.
pub fn segments_cross(a1: Cell, b1: Cell, a2: Cell, b2: Cell) -> (b: bool)
    requires
        cross_fits(a1, b1, a2),
        cross_fits(a1, b1, b2),
        cross_fits(a2, b2, a1),
        cross_fits(a2, b2, b1),
    ensures
        b == crosses(a1, b1, a2, b2),
{
    let o1 = orient(a1, b1, a2);
    let o2 = orient(a1, b1, b2);
    let o3 = orient(a2, b2, a1);
    let o4 = orient(a2, b2, b1);
    o1 != o2 && o3 != o4 && o1 != 0 && o2 != 0 && o3 != 0 && o4 != 0
}

/// A crossing is a crossing whichever segment is named first, and
/// whichever way each is walked.
pub proof fn lemma_crossing_symmetric(a1: Cell, b1: Cell, a2: Cell, b2: Cell)
    ensures
        crosses(a1, b1, a2, b2) == crosses(a2, b2, a1, b1),
        crosses(a1, b1, a2, b2) == crosses(b1, a1, a2, b2),
{
    assert(cross(b1, a1, a2) == -cross(a1, b1, a2)) by (nonlinear_arith);
    assert(cross(b1, a1, b2) == -cross(a1, b1, b2)) by (nonlinear_arith);
    assert(cross(a2, b2, b1) == cross(a2, b2, b1));
}

/// The smallest `x` of the cells, but never above 0.
pub open spec fn min_x_from_zero(cells: Seq<Cell>) -> int
    decreases cells.len(),
{
    if cells.len() == 0 {
        0
    } else {
        min(min_x_from_zero(cells.drop_last()), cells.last().x as int)
    }
}

/// The largest `y` of the cells, but never below 0.
pub open spec fn max_y_from_zero(cells: Seq<Cell>) -> int
    decreases cells.len(),
{
    if cells.len() == 0 {
        0
    } else {
        max(max_y_from_zero(cells.drop_last()), cells.last().y as int)
    }
}

/// The occupied set's least `x` and greatest `y`, both biased toward 0 by
/// starting there.
pub fn occupied_bounds(occupied: &[Cell]) -> (r: (i32, i32))
    ensures
        r.0 == min_x_from_zero(occupied@),
        r.1 == max_y_from_zero(occupied@),
{
    let mut min_x: i32 = 0;
    let mut max_y: i32 = 0;
    let mut i: usize = 0;
    while i < occupied.len()
        invariant
            i <= occupied@.len(),
            min_x == min_x_from_zero(occupied@.take(i as int)),
            max_y == max_y_from_zero(occupied@.take(i as int)),
        decreases occupied.len() - i,
    {
        let c = occupied[i];
        proof {
            assert(occupied@.take(i as int + 1).drop_last() == occupied@.take(i as int));
        }
        if c.x < min_x {
            min_x = c.x;
        }
        if c.y > max_y {
            max_y = c.y;
        }
        i = i + 1;
    }
    proof {
        assert(occupied@.take(i as int) == occupied@);
    }
    (min_x, max_y)
}

/// The largest index a real group can have; anything above stands for an
/// echo of a street room.
pub open spec fn echo_floor() -> int {
    usize::MAX as int / 2
}

/// Which echo a member index stands for, if it is one: indices in the top
/// half count down from the top.
pub fn anchor_at(idx: usize) -> (r: Option<usize>)
    ensures
        idx > echo_floor() ==> r == Some((usize::MAX - idx) as usize),
        idx <= echo_floor() ==> r is None,
{
    if idx > usize::MAX / 2 {
        Some(usize::MAX - idx)
    } else {
        None
    }
}

/// The member index of echo `i`.
pub fn anchor_index(i: usize) -> (idx: usize)
    ensures
        idx == usize::MAX - i,
{
    usize::MAX - i
}

/// An echo's index reads back as that echo, for every echo that keeps to
/// the top half.
pub proof fn lemma_echo_round_trip(i: usize)
    requires
        (i as int) < usize::MAX as int - echo_floor(),
    ensures
        (usize::MAX - i) as int > echo_floor(),
        (usize::MAX - (usize::MAX - i) as usize) == i,
{
}


/// The cell `(x, y)`; coordinates outside `i32` are out of scope.
pub open spec fn at(x: int, y: int) -> Cell {
    Cell { x: x as i32, y: y as i32 }
}

/// Every cell of ring `r` around `center` lies on the grid.
pub open spec fn ring_fits(center: Cell, r: int) -> bool {
    &&& i32::MIN <= center.x - r
    &&& center.x + r <= i32::MAX
    &&& i32::MIN <= center.y - r
    &&& center.y + r <= i32::MAX
}

/// Column `dx` of ring `r`: the whole side at the two vertical edges,
/// only the top and bottom cells elsewhere.
pub open spec fn ring_column(center: Cell, r: int, dx: int) -> Seq<Cell> {
    if abs(dx) == r {
        Seq::new((2 * r + 1) as nat, |k: int| at(center.x + dx, center.y - r + k))
    } else {
        seq![at(center.x + dx, center.y - r), at(center.x + dx, center.y + r)]
    }
}

/// The first `k` columns of ring `r`, from `dx = -r` rightward.
pub open spec fn ring_upto(center: Cell, r: int, k: nat) -> Seq<Cell>
    decreases k,
{
    if k == 0 {
        Seq::empty()
    } else {
        ring_upto(center, r, (k - 1) as nat) + ring_column(center, r, -r + k - 1)
    }
}

/// Ring `r` around `center`, in the order the packer walks it: `dx` from
/// `-r` to `r`; at the vertical edges every `dy` from `-r` to `r`,
/// elsewhere only `dy = -r` and `dy = r`. Empty for a negative radius.
pub open spec fn ring_cells(center: Cell, r: int) -> Seq<Cell> {
    if r < 0 {
        Seq::empty()
    } else {
        ring_upto(center, r, (2 * r + 1) as nat)
    }
}

/// The cells of ring `r` around `center`, in walking order.
pub fn ring(center: Cell, r: i32) -> (cells: Vec<Cell>)
    requires
        r >= 0 ==> ring_fits(center, r as int),
    ensures
        cells@ == ring_cells(center, r as int),
{
    let mut out: Vec<Cell> = Vec::new();
    if r < 0 {
        return out;
    }
    let rr = r as i64;
    let mut dx: i64 = -rr;
    while dx <= rr
        invariant
            0 <= rr <= i32::MAX,
            rr == r,
            ring_fits(center, rr as int),
            -rr <= dx <= rr + 1,
            out@ == ring_upto(center, rr as int, (dx + rr) as nat),
        decreases rr + 1 - dx,
    {
        let x = (center.x as i64 + dx) as i32;
        let ghost before = out@;
        if dx == rr || dx == -rr {
            let mut dy: i64 = -rr;
            while dy <= rr
                invariant
                    0 <= rr <= i32::MAX,
                    ring_fits(center, rr as int),
                    -rr <= dx <= rr,
                    dx == rr || dx == -rr,
                    x == center.x + dx,
                    -rr <= dy <= rr + 1,
                    out@ == before + ring_column(center, rr as int, dx as int).take(dy + rr),
                decreases rr + 1 - dy,
            {
                let y = (center.y as i64 + dy) as i32;
                out.push(Cell { x, y });
                proof {
                    let col = ring_column(center, rr as int, dx as int);
                    assert(col[dy + rr] == at(center.x + dx, center.y + dy));
                    assert(col.take(dy + rr + 1) == col.take(dy + rr).push(col[dy + rr]));
                }
                dy = dy + 1;
            }
            proof {
                let col = ring_column(center, rr as int, dx as int);
                assert(col.take(2 * rr + 1) == col);
            }
        } else {
            let top = (center.y as i64 - rr) as i32;
            let bottom = (center.y as i64 + rr) as i32;
            out.push(Cell { x, y: top });
            out.push(Cell { x, y: bottom });
            proof {
                assert(out@ == before + ring_column(center, rr as int, dx as int));
            }
        }
        proof {
            let k = (dx + rr + 1) as nat;
            assert(ring_upto(center, rr as int, k) == ring_upto(center, rr as int, (k - 1) as nat)
                + ring_column(center, rr as int, -rr + k - 1));
        }
        dx = dx + 1;
    }
    out
}

/// Whether `c` is one of the cells.
pub fn holds(cells: &[Cell], c: Cell) -> (b: bool)
    ensures
        b == cells@.contains(c),
{
    let mut i: usize = 0;
    while i < cells.len()
        invariant
            i <= cells@.len(),
            forall|k: int| 0 <= k < i ==> cells@[k] != c,
        decreases cells.len() - i,
    {
        if cells[i].x == c.x && cells[i].y == c.y {
            assert(cells@[i as int] == c);
            return true;
        }
        i = i + 1;
    }
    false
}

/// Where a compass or diagonal neighbour comes in the search beside a
/// room: north, south, east, west, then the diagonals.
pub open spec fn near_rank(dx: int, dy: int) -> int {
    if dx == 0 && dy == -1 {
        0
    } else if dx == 0 && dy == 1 {
        1
    } else if dx == 1 && dy == 0 {
        2
    } else if dx == -1 && dy == 0 {
        3
    } else if dx == 1 && dy == -1 {
        4
    } else if dx == 1 && dy == 1 {
        5
    } else if dx == -1 && dy == -1 {
        6
    } else {
        7
    }
}

/// A cell the search beside `from` looks at: any cell from one to six
/// king moves away.
pub open spec fn near_candidate(from: Cell, c: Cell) -> bool {
    1 <= chebyshev_of(c, from) <= 6
}

/// The order of the search beside `from`: the eight neighbours first, then
/// ring by ring outward, each ring row by row from the top and left to
/// right along a row.
pub open spec fn search_rank(from: Cell, c: Cell) -> int {
    let dx = c.x - from.x;
    let dy = c.y - from.y;
    let rho = chebyshev_of(c, from);
    if rho == 1 {
        near_rank(dx, dy)
    } else {
        8 + 200 * (rho - 2) + 13 * (dy + rho) + (dx + rho)
    }
}

/// The first free cell of the search beside `from`, if any is free.
pub open spec fn first_free_near(from: Cell, occupied: Seq<Cell>, r: Option<Cell>) -> bool {
    match r {
        Some(c) => {
            &&& near_candidate(from, c)
            &&& !occupied.contains(c)
            &&& forall|d: Cell|
                #[trigger] near_candidate(from, d) && search_rank(from, d) < search_rank(from, c)
                    ==> occupied.contains(d)
        },
        None => forall|d: Cell| #[trigger] near_candidate(from, d) ==> occupied.contains(d),
    }
}

/// The eight neighbours in search order, as `(dx, dy)`.
fn near_steps() -> (v: Vec<(i32, i32)>)
    ensures
        v@.len() == 8,
        forall|k: int| 0 <= k < 8 ==> near_rank(#[trigger] v@[k].0 as int, v@[k].1 as int) == k,
        forall|k: int| 0 <= k < 8 ==> abs(#[trigger] v@[k].0 as int) <= 1 && abs(v@[k].1 as int) <= 1
            && (v@[k].0 != 0 || v@[k].1 != 0),
{
    let v = vec![(0, -1), (0, 1), (1, 0), (-1, 0), (1, -1), (1, 1), (-1, -1), (-1, 1)];
    assert(v@[0] == (0i32, -1i32) && v@[1] == (0i32, 1i32) && v@[2] == (1i32, 0i32) && v@[3] == (
    -1i32, 0i32) && v@[4] == (1i32, -1i32) && v@[5] == (1i32, 1i32) && v@[6] == (-1i32, -1i32)
        && v@[7] == (-1i32, 1i32));
    v
}

/// A free cell beside `from`, for a room joined by a doorway that states
/// no bearing: compass neighbours first, then diagonals, then ring by ring
/// out to six cells away.
pub fn free_cell_near(from: Cell, occupied: &[Cell]) -> (r: Option<Cell>)
    requires
        ring_fits(from, 6),
    ensures
        first_free_near(from, occupied@, r),
{
    let steps = near_steps();
    let mut k: usize = 0;
    while k < 8
        invariant
            steps@.len() == 8,
            forall|j: int| 0 <= j < 8 ==> near_rank(#[trigger] steps@[j].0 as int, steps@[j].1 as int) == j,
            forall|j: int| 0 <= j < 8 ==> abs(#[trigger] steps@[j].0 as int) <= 1 && abs(steps@[j].1 as int) <= 1
                && (steps@[j].0 != 0 || steps@[j].1 != 0),
            ring_fits(from, 6),
            k <= 8,
            forall|d: Cell|
                #[trigger] near_candidate(from, d) && search_rank(from, d) < k ==> occupied@.contains(d),
        decreases 8 - k,
    {
        let (dx, dy) = steps[k];
        let cell = Cell { x: from.x + dx, y: from.y + dy };
        assert(near_rank(dx as int, dy as int) == k);
        if !holds(occupied, cell) {
            assert(near_candidate(from, cell));
            assert(search_rank(from, cell) == k);
            return Some(cell);
        }
        proof {
            assert forall|d: Cell|
                #[trigger] near_candidate(from, d) && search_rank(from, d) < k + 1 implies occupied@.contains(d) by {
                if search_rank(from, d) == k {
                    let ddx = d.x - from.x;
                    let ddy = d.y - from.y;
                    if chebyshev_of(d, from) == 1 {
                        assert(ddx == dx && ddy == dy);
                        assert(d == cell);
                    }
                }
            }
        }
        k = k + 1;
    }
    let mut radius: i32 = 2;
    while radius <= 6
        invariant
            ring_fits(from, 6),
            2 <= radius <= 7,
            forall|d: Cell|
                #[trigger] near_candidate(from, d) && search_rank(from, d) < 8 + 200 * (radius - 2)
                    ==> occupied@.contains(d),
        decreases 7 - radius,
    {
        let mut dy: i32 = -radius;
        while dy <= radius
            invariant
                ring_fits(from, 6),
                2 <= radius <= 6,
                -radius <= dy <= radius + 1,
                forall|d: Cell|
                    #[trigger] near_candidate(from, d) && search_rank(from, d) < 8 + 200 * (radius - 2) + 13 * (
                    dy + radius) ==> occupied@.contains(d),
            decreases radius + 1 - dy,
        {
            let mut dx: i32 = -radius;
            while dx <= radius
                invariant
                    ring_fits(from, 6),
                    2 <= radius <= 6,
                    -radius <= dy <= radius,
                    -radius <= dx <= radius + 1,
                    forall|d: Cell|
                        #[trigger] near_candidate(from, d) && search_rank(from, d) < 8 + 200 * (radius - 2) + 13
                            * (dy + radius) + (dx + radius) ==> occupied@.contains(d),
                decreases radius + 1 - dx,
            {
                let border = dx == radius || dx == -radius || dy == radius || dy == -radius;
                let cell = Cell { x: from.x + dx, y: from.y + dy };
                if border && !holds(occupied, cell) {
                    assert(chebyshev_of(cell, from) == radius);
                    return Some(cell);
                }
                proof {
                    assert forall|d: Cell|
                        #[trigger] near_candidate(from, d) && search_rank(from, d) < 8 + 200 * (radius - 2)
                            + 13 * (dy + radius) + (dx + radius) + 1 implies occupied@.contains(d) by {
                        if search_rank(from, d) == 8 + 200 * (radius - 2) + 13 * (dy + radius) + (dx
                            + radius) {
                            let rho = chebyshev_of(d, from);
                            assert(rho == radius);
                            assert(d.y - from.y == dy as int);
                            assert(d.x - from.x == dx as int);
                            assert(d == cell);
                        }
                    }
                }
                dx = dx + 1;
            }
            dy = dy + 1;
        }
        radius = radius + 1;
    }
    None
}

} // verus!
