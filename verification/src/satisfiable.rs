//! Whether a component's stated directions can be satisfied at all.
//!
//! Each compass bearing is a pair of constraints, one per axis, and the
//! axes are independent:
//!
//! ```text
//! b east of a       =>  x_a < x_b  and  y_a = y_b
//! b northeast of a  =>  x_a < x_b  and  y_b < y_a
//! b north of a      =>  x_a = x_b  and  y_b < y_a
//! ```
//!
//! The equalities matter as much as the inequalities: `a` north of `b`,
//! `b` north of `c` and `a` east of `c` cannot hold, and only the
//! alignments say so. Each axis is judged in two steps: the rooms an
//! equality binds are contracted into one class, and the classes are
//! checked for a strict-order cycle, or for a strict order inside one
//! class. A graph with no cycle can be satisfied by numbering its classes
//! in order. Two rooms in one class on both axes must share a cell, which
//! no layout can draw; that is reported as well.
//!
//! Up and down are not geometry and are left out.

use vstd::prelude::*;

use crate::direction::{Dir, DirectionMap, compass, dir_at, offset_of};
use crate::keyed::IntMap;
use crate::geometry::Cell;
use crate::group::position_of;
use crate::model::{Exit, Room, RoomId, RoomMap, room_of};

verus! {

/// Which axis a constraint lies on.
#[derive(Debug, Clone, Copy, PartialEq, Eq, Structural)]
pub enum Axis {
    /// East and west: the x ordering.
    EastWest,
    /// North and south: the y ordering.
    NorthSouth,
}

impl Axis {
    /// The axis as a panel names it.
    pub fn name(self) -> (s: &'static str)
        ensures
            s@ == (match self {
                Axis::EastWest => "east/west"@,
                Axis::NorthSouth => "north/south"@,
            }),
    {
        match self {
            Axis::EastWest => "east/west",
            Axis::NorthSouth => "north/south",
        }
    }
}

/// Why a component's stated directions cannot all hold at once.
#[derive(Debug, Clone, PartialEq, Eq)]
pub enum Problem {
    /// A loop of strict orderings on one axis, first room repeated at the
    /// end; it may run through an alignment.
    Cycle { axis: Axis, cycle: Vec<RoomId> },
    /// One room must be strictly before another it is also aligned with.
    OrderWithinAlignment { axis: Axis, from: RoomId, to: RoomId },
    /// Two rooms forced onto the same cell: aligned on both axes.
    ForcedOverlap { a: RoomId, b: RoomId },
}

/// The rooms a problem implicates.
pub open spec fn problem_rooms(p: Problem) -> Seq<RoomId> {
    match p {
        Problem::Cycle { cycle, .. } => cycle@,
        Problem::OrderWithinAlignment { from, to, .. } => seq![from, to],
        Problem::ForcedOverlap { a, b } => seq![a, b],
    }
}

impl Problem {
    /// The rooms this problem implicates, for a panel to name.
    pub fn rooms(&self) -> (r: Vec<RoomId>)
        ensures
            r@ == problem_rooms(*self),
    {
        match self {
            Problem::Cycle { cycle, .. } => {
                let mut out: Vec<RoomId> = Vec::new();
                let mut i: usize = 0;
                while i < cycle.len()
                    invariant
                        i <= cycle@.len(),
                        out@ == cycle@.take(i as int),
                    decreases cycle.len() - i,
                {
                    out.push(cycle[i]);
                    assert(cycle@.take(i as int + 1) == cycle@.take(i as int).push(cycle@[i as int]));
                    i = i + 1;
                }
                assert(cycle@.take(cycle@.len() as int) == cycle@);
                out
            },
            Problem::OrderWithinAlignment { from, to, .. } => vec![*from, *to],
            Problem::ForcedOverlap { a, b } => vec![*a, *b],
        }
    }
}

/// One axis constraint between two rooms: equal on this axis, or `from`
/// strictly before `to`.
#[derive(Debug, Clone, Copy, PartialEq, Eq, Structural)]
pub struct AxisEdge {
    pub from: RoomId,
    pub to: RoomId,
    pub equal: bool,
}

/// A bearing's step on one axis.
pub open spec fn step_on(axis: Axis, d: Dir) -> int {
    match axis {
        Axis::EastWest => offset_of(d).0,
        Axis::NorthSouth => offset_of(d).1,
    }
}

/// The constraint a bearing from `from` to `to` puts on one axis: a step
/// forward orders the pair, a step back orders it the other way, and no
/// step aligns it.
pub open spec fn edge_for(axis: Axis, from: RoomId, to: RoomId, d: Dir) -> AxisEdge {
    let s = step_on(axis, d);
    if s == 1 {
        AxisEdge { from, to, equal: false }
    } else if s == -1 {
        AxisEdge { from: to, to: from, equal: false }
    } else {
        AxisEdge { from, to, equal: true }
    }
}

/// The constraints one room's exits give, in exit order: only exits to
/// another room of the component, with a resolved compass bearing.
pub open spec fn exit_edges(
    rooms: Seq<RoomId>,
    dirs: Map<u64, Dir>,
    axis: Axis,
    from: RoomId,
    exits: Seq<Exit>,
) -> Seq<AxisEdge>
    decreases exits.len(),
{
    if exits.len() == 0 {
        Seq::empty()
    } else {
        let prev = exit_edges(rooms, dirs, axis, from, exits.drop_last());
        let to = exits.last().to;
        if !rooms.contains(to) || from == to {
            prev
        } else {
            match dir_at(dirs, from, to) {
                Some(d) => if compass(d) {
                    prev.push(edge_for(axis, from, to, d))
                } else {
                    prev
                },
                None => prev,
            }
        }
    }
}

/// The constraints of the first `k` rooms.
pub open spec fn edges_upto(
    rooms: Seq<RoomId>,
    map: Seq<Room>,
    dirs: Map<u64, Dir>,
    axis: Axis,
    k: nat,
) -> Seq<AxisEdge>
    decreases k,
{
    if k == 0 || k > rooms.len() {
        Seq::empty()
    } else {
        let from = rooms[k - 1];
        let mine = match room_of(map, from) {
            Some(r) => exit_edges(rooms, dirs, axis, from, r.exits@),
            None => Seq::empty(),
        };
        edges_upto(rooms, map, dirs, axis, (k - 1) as nat) + mine
    }
}

/// Every constraint the stated bearings among `rooms` place on one axis,
/// equalities included, room by room and exit by exit.
pub open spec fn axis_edges_of(rooms: Seq<RoomId>, map: Seq<Room>, dirs: Map<u64, Dir>, axis: Axis) -> Seq<
    AxisEdge,
> {
    edges_upto(rooms, map, dirs, axis, rooms.len())
}

/// Whether an assignment of coordinates keeps one constraint.
pub open spec fn keeps(f: Map<RoomId, int>, e: AxisEdge) -> bool {
    if e.equal {
        f[e.from] == f[e.to]
    } else {
        f[e.from] < f[e.to]
    }
}

/// Whether an assignment keeps every constraint.
pub open spec fn keeps_all(f: Map<RoomId, int>, edges: Seq<AxisEdge>) -> bool {
    forall|i: int| 0 <= i < edges.len() ==> keeps(f, #[trigger] edges[i])
}

/// Whether some assignment keeps every constraint.
pub open spec fn satisfiable_axis(edges: Seq<AxisEdge>) -> bool {
    exists|f: Map<RoomId, int>| keeps_all(f, edges)
}

/// Whether a slice holds a room.
fn holds_room(rooms: &[RoomId], r: RoomId) -> (b: bool)
    ensures
        b == rooms@.contains(r),
{
    let mut i: usize = 0;
    while i < rooms.len()
        invariant
            i <= rooms@.len(),
            forall|j: int| 0 <= j < i ==> rooms@[j] != r,
        decreases rooms.len() - i,
    {
        if rooms[i].0 == r.0 {
            assert(rooms@[i as int] == r);
            return true;
        }
        i = i + 1;
    }
    false
}

fn step(axis: Axis, d: Dir) -> (s: i32)
    ensures
        s == step_on(axis, d),
{
    let (dx, dy) = d.offset();
    match axis {
        Axis::EastWest => dx,
        Axis::NorthSouth => dy,
    }
}

/// Every constraint the stated bearings place on one axis.
pub fn axis_edges(rooms: &[RoomId], map: &RoomMap, dirs: &DirectionMap, axis: Axis) -> (edges: Vec<
    AxisEdge,
>)
    ensures
        edges@ == axis_edges_of(rooms@, map@, dirs@, axis),
{
    let mut edges: Vec<AxisEdge> = Vec::new();
    let mut k: usize = 0;
    while k < rooms.len()
        invariant
            k <= rooms@.len(),
            edges@ == edges_upto(rooms@, map@, dirs@, axis, k as nat),
        decreases rooms.len() - k,
    {
        let from = rooms[k];
        let ghost before = edges@;
        match map.room(from) {
            Some(room) => {
                let mut j: usize = 0;
                while j < room.exits.len()
                    invariant
                        j <= room.exits@.len(),
                        edges@ == before + exit_edges(rooms@, dirs@, axis, from, room.exits@.take(j as int)),
                    decreases room.exits.len() - j,
                {
                    let to = room.exits[j].to;
                    proof {
                        assert(room.exits@.take(j as int + 1).drop_last() == room.exits@.take(j as int));
                        assert(room.exits@.take(j as int + 1).last() == room.exits@[j as int]);
                    }
                    if holds_room(rooms, to) && from.0 != to.0 {
                        match dirs.get(from, to) {
                            Some(d) => {
                                if d.is_compass() {
                                    let s = step(axis, d);
                                    let e = if s == 1 {
                                        AxisEdge { from, to, equal: false }
                                    } else if s == -1 {
                                        AxisEdge { from: to, to: from, equal: false }
                                    } else {
                                        AxisEdge { from, to, equal: true }
                                    };
                                    edges.push(e);
                                }
                            },
                            None => {},
                        }
                    }
                    proof {
                        assert(edges@ == before + exit_edges(
                            rooms@,
                            dirs@,
                            axis,
                            from,
                            room.exits@.take(j as int + 1),
                        ));
                    }
                    j = j + 1;
                }
                proof {
                    assert(room.exits@.take(room.exits@.len() as int) == room.exits@);
                }
            },
            None => {
                assert(edges@ == before + Seq::<AxisEdge>::empty());
            },
        }
        k = k + 1;
    }
    edges
}


/// No room appears twice.
pub open spec fn distinct_rooms(ids: Seq<RoomId>) -> bool {
    forall|i: int, j: int| 0 <= i < ids.len() && 0 <= j < ids.len() && i != j ==> #[trigger] ids[i] != #[trigger] ids[j]
}

/// Every parent link stays in range and points at a room of a lower id,
/// or at the room itself.
pub open spec fn links_ok(parent: Seq<usize>, ids: Seq<RoomId>) -> bool {
    &&& parent.len() == ids.len()
    &&& forall|i: int|
        0 <= i < parent.len() ==> (#[trigger] parent[i] as int) < parent.len() && (parent[i] == i
            || ids[parent[i] as int].0 < ids[i].0)
}

/// The representative slot of slot `i`: follow links down to a room
/// linked to itself.
pub open spec fn root(parent: Seq<usize>, ids: Seq<RoomId>, i: int) -> int
    decreases (if 0 <= i < ids.len() {
        ids[i].0 as int
    } else {
        0
    }),
{
    if !(0 <= i < parent.len() && i < ids.len()) {
        i
    } else {
        let p = parent[i] as int;
        if p == i || !(0 <= p < ids.len()) || ids[p].0 >= ids[i].0 {
            i
        } else {
            root(parent, ids, p)
        }
    }
}

proof fn lemma_root(parent: Seq<usize>, ids: Seq<RoomId>, i: int)
    requires
        links_ok(parent, ids),
        0 <= i < ids.len(),
    ensures
        0 <= root(parent, ids, i) < ids.len(),
        parent[root(parent, ids, i)] == root(parent, ids, i),
        ids[root(parent, ids, i)].0 <= ids[i].0,
        parent[i] != i ==> ids[root(parent, ids, i)].0 < ids[i].0,
        parent[i] == i ==> root(parent, ids, i) == i,
        root(parent, ids, parent[i] as int) == root(parent, ids, i),
    decreases ids[i].0,
{
    let p = parent[i] as int;
    if p != i {
        lemma_root(parent, ids, p);
    }
}

proof fn lemma_redirect_at(parent: Seq<usize>, ids: Seq<RoomId>, at: int, j: int)
    requires
        links_ok(parent, ids),
        0 <= at < ids.len(),
        0 <= j < ids.len(),
    ensures
        links_ok(parent.update(at, root(parent, ids, at) as usize), ids),
        root(parent.update(at, root(parent, ids, at) as usize), ids, j) == root(parent, ids, j),
    decreases ids[j].0,
{
    let r = root(parent, ids, at);
    lemma_root(parent, ids, at);
    let np = parent.update(at, r as usize);
    assert forall|i: int| 0 <= i < np.len() implies (#[trigger] np[i] as int) < np.len() && (np[i] == i
        || ids[np[i] as int].0 < ids[i].0) by {
        if i == at && r != at {
            assert(parent[at] != at);
        }
    }
    lemma_root(parent, ids, j);
    if j == at {
        if r != at {
            lemma_root(np, ids, r);
            assert(np[r] == parent[r]);
        }
    } else {
        let p = parent[j] as int;
        if p != j {
            lemma_redirect_at(parent, ids, at, p);
        }
    }
}

proof fn lemma_link(parent: Seq<usize>, ids: Seq<RoomId>, drop: int, keep: int, j: int)
    requires
        links_ok(parent, ids),
        0 <= drop < ids.len(),
        0 <= keep < ids.len(),
        parent[drop] == drop,
        parent[keep] == keep,
        ids[keep].0 < ids[drop].0,
        0 <= j < ids.len(),
    ensures
        links_ok(parent.update(drop, keep as usize), ids),
        root(parent.update(drop, keep as usize), ids, j) == (if root(parent, ids, j) == drop {
            keep
        } else {
            root(parent, ids, j)
        }),
    decreases ids[j].0,
{
    let np = parent.update(drop, keep as usize);
    assert forall|i: int| 0 <= i < np.len() implies (#[trigger] np[i] as int) < np.len() && (np[i] == i
        || ids[np[i] as int].0 < ids[i].0) by {}
    lemma_root(parent, ids, j);
    if j == drop {
        lemma_root(np, ids, keep);
        assert(np[keep] == keep);
    } else {
        let p = parent[j] as int;
        if p != j {
            lemma_link(parent, ids, drop, keep, p);
        }
    }
}

/// Disjoint sets over a component's rooms: the alignment classes of one
/// axis. The lower id represents a class.
pub struct Union {
    ids: Vec<RoomId>,
    parent: Vec<usize>,
}

impl Union {
    /// The rooms, each once, in first-seen order.
    pub closed spec fn rooms(&self) -> Seq<RoomId> {
        self.ids@
    }

    pub closed spec fn wf(&self) -> bool {
        &&& distinct_rooms(self.ids@)
        &&& links_ok(self.parent@, self.ids@)
    }

    /// The slot a room holds.
    pub closed spec fn slot(&self, r: RoomId) -> int {
        choose|i: int| 0 <= i < self.ids@.len() && self.ids@[i] == r
    }

    /// The class representative of a room; a room outside the union is
    /// its own.
    pub closed spec fn class(&self, r: RoomId) -> RoomId {
        if self.ids@.contains(r) {
            self.ids@[root(self.parent@, self.ids@, self.slot(r))]
        } else {
            r
        }
    }

    /// Every assignment keeping these equalities gives each room its
    /// parent's coordinate.
    pub closed spec fn respects(&self, eqs: Seq<AxisEdge>) -> bool {
        forall|f: Map<RoomId, int>, i: int|
            0 <= i < self.ids@.len() && #[trigger] keeps_all(f, eqs) ==> f[self.ids@[i]] == f[
                self.ids@[#[trigger] self.parent@[i] as int]
            ]
    }

    proof fn lemma_slot(&self, r: RoomId)
        requires
            self.wf(),
            self.ids@.contains(r),
        ensures
            0 <= self.slot(r) < self.ids@.len(),
            self.ids@[self.slot(r)] == r,
            forall|i: int| 0 <= i < self.ids@.len() && self.ids@[i] == r ==> i == self.slot(r),
    {
        let i = choose|i: int| 0 <= i < self.ids@.len() && self.ids@[i] == r;
        assert(0 <= self.slot(r) < self.ids@.len() && self.ids@[self.slot(r)] == r);
    }

    /// A room's class shares its coordinate under every assignment that
    /// keeps the equalities.
    pub proof fn lemma_class_shares(&self, eqs: Seq<AxisEdge>, f: Map<RoomId, int>, r: RoomId)
        requires
            self.wf(),
            self.respects(eqs),
            keeps_all(f, eqs),
        ensures
            f[r] == f[self.class(r)],
    {
        if self.ids@.contains(r) {
            self.lemma_slot(r);
            self.lemma_root_shares(eqs, f, self.slot(r));
        }
    }

    proof fn lemma_root_shares(&self, eqs: Seq<AxisEdge>, f: Map<RoomId, int>, i: int)
        requires
            self.wf(),
            self.respects(eqs),
            keeps_all(f, eqs),
            0 <= i < self.ids@.len(),
        ensures
            f[self.ids@[i]] == f[self.ids@[root(self.parent@, self.ids@, i)]],
        decreases self.ids@[i].0,
    {
        lemma_root(self.parent@, self.ids@, i);
        let p = self.parent@[i] as int;
        assert(f[self.ids@[i]] == f[self.ids@[p]]);
        if p != i {
            self.lemma_root_shares(eqs, f, p);
        }
    }

    /// One class per room.
    pub fn new(rooms: &[RoomId]) -> (u: Union)
        ensures
            u.wf(),
            u.respects(Seq::empty()),
            forall|r: RoomId| #[trigger] u.rooms().contains(r) <==> rooms@.contains(r),
            forall|r: RoomId| #[trigger] u.class(r) == r,
    {
        let mut ids: Vec<RoomId> = Vec::new();
        let mut parent: Vec<usize> = Vec::new();
        let mut k: usize = 0;
        while k < rooms.len()
            invariant
                k <= rooms@.len(),
                distinct_rooms(ids@),
                parent@.len() == ids@.len(),
                forall|i: int| 0 <= i < parent@.len() ==> #[trigger] parent@[i] == i,
                forall|r: RoomId| #[trigger] ids@.contains(r) <==> rooms@.take(k as int).contains(r),
            decreases rooms.len() - k,
        {
            let r = rooms[k];
            proof {
                assert(rooms@.take(k as int + 1) == rooms@.take(k as int).push(r));
            }
            let ghost prev = ids@;
            if !holds_room(ids.as_slice(), r) {
                let n = ids.len();
                ids.push(r);
                parent.push(n);
                proof {
                    assert forall|a: int, b: int|
                        0 <= a < ids@.len() && 0 <= b < ids@.len() && a != b implies #[trigger] ids@[a]
                        != #[trigger] ids@[b] by {
                        if a == n as int {
                            assert(ids@[b] == prev[b]);
                            assert(prev.contains(prev[b]));
                        } else if b == n as int {
                            assert(ids@[a] == prev[a]);
                            assert(prev.contains(prev[a]));
                        } else {
                            assert(ids@[a] == prev[a] && ids@[b] == prev[b]);
                        }
                    }
                    assert(ids@ == prev.push(r));
                }
            }
            proof {
                assert forall|x: RoomId| #[trigger] ids@.contains(x) <==> rooms@.take(k as int + 1).contains(x) by {
                    let t = rooms@.take(k as int);
                    assert(rooms@.take(k as int + 1) == t.push(r));
                    assert(t.push(r).contains(x) <==> t.contains(x) || x == r) by {
                        if t.push(r).contains(x) && x != r {
                            let i = choose|i: int| 0 <= i < t.push(r).len() && t.push(r)[i] == x;
                            assert(i < t.len());
                            assert(t[i] == x);
                        }
                        if t.contains(x) {
                            let i = choose|i: int| 0 <= i < t.len() && t[i] == x;
                            assert(t.push(r)[i] == x);
                        }
                        if x == r {
                            assert(t.push(r)[t.len() as int] == r);
                        }
                    }
                    if ids@ != prev {
                        assert(ids@ == prev.push(r));
                        assert(ids@.contains(x) <==> prev.contains(x) || x == r) by {
                            if ids@.contains(x) && x != r {
                                let i = choose|i: int| 0 <= i < ids@.len() && ids@[i] == x;
                                assert(prev[i] == x);
                            }
                            if x == r {
                                assert(ids@[prev.len() as int] == r);
                            }
                            if prev.contains(x) {
                                let i = choose|i: int| 0 <= i < prev.len() && prev[i] == x;
                                assert(ids@[i] == x);
                            }
                        }
                    }
                }
            }
            k = k + 1;
        }
        proof {
            assert(rooms@.take(rooms@.len() as int) == rooms@);
        }
        let u = Union { ids, parent };
        proof {
            assert forall|r: RoomId| #[trigger] u.class(r) == r by {
                if u.ids@.contains(r) {
                    u.lemma_slot(r);
                    lemma_root(u.parent@, u.ids@, u.slot(r));
                }
            }
        }
        u
    }

    fn slot_exec(&self, r: RoomId) -> (s: Option<usize>)
        requires
            self.wf(),
        ensures
            s is None <==> !self.ids@.contains(r),
            s matches Some(i) ==> i as int == self.slot(r) && i < self.ids@.len(),
    {
        let mut i: usize = 0;
        while i < self.ids.len()
            invariant
                self.wf(),
                i <= self.ids@.len(),
                forall|j: int| 0 <= j < i ==> self.ids@[j] != r,
            decreases self.ids.len() - i,
        {
            if self.ids[i].0 == r.0 {
                proof {
                    assert(self.ids@[i as int] == r);
                    self.lemma_slot(r);
                }
                return Some(i);
            }
            i = i + 1;
        }
        None
    }

    /// Keeping more constraints still gives each room its parent's
    /// coordinate.
    pub proof fn lemma_respects_push(&self, eqs: Seq<AxisEdge>, e: AxisEdge)
        requires
            self.respects(eqs),
        ensures
            self.respects(eqs.push(e)),
    {
        assert forall|f: Map<RoomId, int>, i: int|
            0 <= i < self.ids@.len() && #[trigger] keeps_all(f, eqs.push(e)) implies f[self.ids@[i]] == f[
            self.ids@[#[trigger] self.parent@[i] as int]] by {
            assert forall|k: int| 0 <= k < eqs.len() implies keeps(f, #[trigger] eqs[k]) by {
                assert(eqs.push(e)[k] == eqs[k]);
            }
            assert(keeps_all(f, eqs));
        }
    }

    /// Two rooms of one class share a coordinate under every assignment
    /// keeping the equalities.
    pub proof fn lemma_same_class(&self, eqs: Seq<AxisEdge>, f: Map<RoomId, int>, a: RoomId, b: RoomId)
        requires
            self.wf(),
            self.respects(eqs),
            keeps_all(f, eqs),
            self.class(a) == self.class(b),
        ensures
            f[a] == f[b],
    {
        self.lemma_class_shares(eqs, f, a);
        self.lemma_class_shares(eqs, f, b);
    }

    /// Put `a` and `b` in one class, the lower id representing it.
    pub fn join(&mut self, a: RoomId, b: RoomId)
        requires
            old(self).wf(),
            old(self).rooms().contains(a),
            old(self).rooms().contains(b),
        ensures
            final(self).wf(),
            final(self).rooms() == old(self).rooms(),
            final(self).class(a) == final(self).class(b),
            forall|x: RoomId, y: RoomId|
                old(self).class(x) == old(self).class(y) ==> #[trigger] final(self).class(x)
                    == #[trigger] final(self).class(y),
            forall|eqs: Seq<AxisEdge>|
                old(self).respects(eqs) ==> #[trigger] final(self).respects(
                    eqs.push(AxisEdge { from: a, to: b, equal: true }),
                ),
    {
        let ghost u0 = *self;
        let ra = self.find(a);
        let rb = self.find(b);
        let ghost u1 = *self;
        if ra.0 == rb.0 {
            proof {
                assert forall|eqs: Seq<AxisEdge>| old(self).respects(eqs) implies #[trigger] self.respects(
                    eqs.push(AxisEdge { from: a, to: b, equal: true }),
                ) by {
                    self.lemma_respects_push(eqs, AxisEdge { from: a, to: b, equal: true });
                }
            }
            return;
        }
        let (keep, drop) = if ra.0 < rb.0 {
            (ra, rb)
        } else {
            (rb, ra)
        };
        proof {
            u1.lemma_slot(a);
            u1.lemma_slot(b);
            lemma_root(u1.parent@, u1.ids@, u1.slot(a));
            lemma_root(u1.parent@, u1.ids@, u1.slot(b));
            assert(ra == u1.class(a));
            assert(rb == u1.class(b));
            let sa = root(u1.parent@, u1.ids@, u1.slot(a));
            let sb = root(u1.parent@, u1.ids@, u1.slot(b));
            assert(u1.ids@[sa] == ra);
            assert(u1.ids@[sb] == rb);
            assert(u1.ids@.contains(ra));
            assert(u1.ids@.contains(rb));
        }
        let ks = self.slot_exec(keep).unwrap();
        let ds = self.slot_exec(drop).unwrap();
        proof {
            u1.lemma_slot(keep);
            u1.lemma_slot(drop);
            assert(u1.parent@[ks as int] == ks);
            assert(u1.parent@[ds as int] == ds);
            assert forall|j: int| 0 <= j < u1.ids@.len() implies #[trigger] root(
                u1.parent@.update(ds as int, ks),
                u1.ids@,
                j,
            ) == (if root(u1.parent@, u1.ids@, j) == ds as int {
                ks as int
            } else {
                root(u1.parent@, u1.ids@, j)
            }) by {
                lemma_link(u1.parent@, u1.ids@, ds as int, ks as int, j);
            }
            lemma_link(u1.parent@, u1.ids@, ds as int, ks as int, 0);
        }
        self.parent.set(ds, ks);
        proof {
            assert forall|x: RoomId| #[trigger] self.class(x) == (if u1.class(x) == drop {
                keep
            } else {
                u1.class(x)
            }) by {
                if self.ids@.contains(x) {
                    self.lemma_slot(x);
                    u1.lemma_slot(x);
                    lemma_root(u1.parent@, u1.ids@, u1.slot(x));
                    if root(u1.parent@, u1.ids@, u1.slot(x)) == ds as int {
                    } else {
                        assert(u1.ids@[root(u1.parent@, u1.ids@, u1.slot(x))] != drop);
                    }
                }
            }
            assert forall|eqs: Seq<AxisEdge>| old(self).respects(eqs) implies #[trigger] self.respects(
                eqs.push(AxisEdge { from: a, to: b, equal: true }),
            ) by {
                let e = AxisEdge { from: a, to: b, equal: true };
                u1.lemma_respects_push(eqs, e);
                assert forall|f: Map<RoomId, int>, i: int|
                    0 <= i < self.ids@.len() && #[trigger] keeps_all(f, eqs.push(e)) implies f[self.ids@[i]] == f[
                    self.ids@[#[trigger] self.parent@[i] as int]] by {
                    if i == ds as int {
                        assert(keeps(f, eqs.push(e)[eqs.len() as int]));
                        u1.lemma_class_shares(eqs.push(e), f, a);
                        u1.lemma_class_shares(eqs.push(e), f, b);
                    } else {
                        assert(self.parent@[i] == u1.parent@[i]);
                    }
                }
            }
        }
    }

    /// The class representative of `of`, compressing the path to it.
    pub fn find(&mut self, of: RoomId) -> (r: RoomId)
        requires
            old(self).wf(),
        ensures
            r == old(self).class(of),
            final(self).wf(),
            final(self).rooms() == old(self).rooms(),
            forall|x: RoomId| #[trigger] final(self).class(x) == old(self).class(x),
            forall|eqs: Seq<AxisEdge>| old(self).respects(eqs) ==> #[trigger] final(self).respects(eqs),
    {
        let start = match self.slot_exec(of) {
            Some(i) => i,
            None => {
                return of;
            },
        };
        let ghost p0 = self.parent@;
        let mut root_slot = start;
        while self.parent[root_slot] != root_slot
            invariant
                self.wf(),
                self.parent@ == p0,
                root_slot < self.ids@.len(),
                root(p0, self.ids@, root_slot as int) == root(p0, self.ids@, start as int),
            decreases self.ids@[root_slot as int].0,
        {
            proof {
                lemma_root(self.parent@, self.ids@, root_slot as int);
            }
            root_slot = self.parent[root_slot];
        }
        proof {
            lemma_root(self.parent@, self.ids@, root_slot as int);
        }
        let mut at = start;
        while self.parent[at] != root_slot
            invariant
                distinct_rooms(self.ids@),
                links_ok(self.parent@, self.ids@),
                self.ids@ == old(self).ids@,
                at < self.ids@.len(),
                root_slot < self.ids@.len(),
                root(self.parent@, self.ids@, at as int) == root_slot,
                forall|j: int| 0 <= j < self.ids@.len() ==> #[trigger] root(self.parent@, self.ids@, j) == root(p0, self.ids@, j),
                forall|eqs: Seq<AxisEdge>| old(self).respects(eqs) ==> #[trigger] self.respects(eqs),
            decreases self.ids@[at as int].0,
        {
            let up = self.parent[at];
            proof {
                let pp = self.parent@;
                lemma_root(pp, self.ids@, at as int);
                assert forall|j: int| 0 <= j < self.ids@.len() implies #[trigger] root(pp.update(at as int, root_slot), self.ids@, j) == root(pp, self.ids@, j) by {
                    lemma_redirect_at(pp, self.ids@, at as int, j);
                }
                lemma_redirect_at(pp, self.ids@, at as int, 0);
            }
            let ghost before = *self;
            self.parent.set(at, root_slot);
            proof {
                assert forall|eqs: Seq<AxisEdge>| old(self).respects(eqs) implies #[trigger] self.respects(eqs) by {
                    assert(before.respects(eqs));
                    assert forall|f: Map<RoomId, int>, i: int|
                        0 <= i < self.ids@.len() && #[trigger] keeps_all(f, eqs) implies f[self.ids@[i]] == f[
                        self.ids@[#[trigger] self.parent@[i] as int]] by {
                        if i == at as int {
                            before.lemma_root_shares(eqs, f, i);
                        } else {
                            assert(self.parent@[i] == before.parent@[i]);
                        }
                    }
                }
            }
            at = up;
            proof {
                lemma_root(self.parent@, self.ids@, at as int);
            }
        }
        proof {
            assert forall|x: RoomId| #[trigger] self.class(x) == old(self).class(x) by {
                if self.ids@.contains(x) {
                    self.lemma_slot(x);
                    old(self).lemma_slot(x);
                }
            }
            self.lemma_slot(of);
        }
        self.ids[root_slot]
    }
}


/// Room ids strictly increasing.
pub open spec fn ascending(v: Seq<RoomId>) -> bool {
    forall|i: int, j: int| 0 <= i < j < v.len() ==> (#[trigger] v[i]).0 < (#[trigger] v[j]).0
}

/// Put `x` into an ascending list, unless it is there already.
fn insert_sorted(v: &mut Vec<RoomId>, x: RoomId)
    requires
        ascending(old(v)@),
    ensures
        ascending(final(v)@),
        forall|y: RoomId| #[trigger] final(v)@.contains(y) <==> old(v)@.contains(y) || y == x,
        final(v)@.len() <= old(v)@.len() + 1,
{
    let mut i: usize = 0;
    while i < v.len() && v[i].0 < x.0
        invariant
            i <= v@.len(),
            forall|j: int| 0 <= j < i ==> (#[trigger] v@[j]).0 < x.0,
        decreases v.len() - i,
    {
        i = i + 1;
    }
    if i < v.len() && v[i].0 == x.0 {
        assert(v@[i as int] == x);
        return;
    }
    let ghost before = v@;
    v.insert(i, x);
    proof {
        assert(v@ == before.insert(i as int, x));
        assert forall|a: int, b: int| 0 <= a < b < v@.len() implies (#[trigger] v@[a]).0 < (#[trigger] v@[b]).0 by {
            if b < i {
            } else if a < i && b == i {
            } else if a < i && b > i {
                assert(before[a].0 < before[b - 1].0);
            } else if a == i {
                assert(before[b - 1].0 > x.0 || before[b - 1].0 >= x.0);
                if b - 1 > i {
                    assert(before[i as int].0 < before[b - 1].0);
                }
            } else {
                assert(before[a - 1].0 < before[b - 1].0);
            }
        }
        assert forall|y: RoomId| #[trigger] v@.contains(y) <==> before.contains(y) || y == x by {
            if v@.contains(y) {
                let k = choose|k: int| 0 <= k < v@.len() && v@[k] == y;
                if k < i {
                    assert(before[k] == y);
                } else if k > i {
                    assert(before[k - 1] == y);
                }
            }
            if before.contains(y) {
                let k = choose|k: int| 0 <= k < before.len() && before[k] == y;
                if k < i {
                    assert(v@[k] == y);
                } else {
                    assert(v@[k + 1] == y);
                }
            }
            if y == x {
                assert(v@[i as int] == x);
            }
        }
    }
}

/// The key a class's outgoing orders are filed under.
pub open spec fn key(r: RoomId) -> i64 {
    r.0 as i64
}

/// The classes `a` must come strictly before, as filed.
pub open spec fn targets(g: Map<i64, Vec<RoomId>>, a: RoomId) -> Seq<RoomId> {
    if g.contains_key(key(a)) {
        g[key(a)]@
    } else {
        Seq::empty()
    }
}

/// Whether the graph files `b` after `a`.
pub open spec fn arc(g: Map<i64, Vec<RoomId>>, a: RoomId, b: RoomId) -> bool {
    targets(g, a).contains(b)
}

/// Whether a strict constraint runs from class `a` to a different class
/// `b`.
pub open spec fn class_order(u: Union, edges: Seq<AxisEdge>, a: RoomId, b: RoomId) -> bool {
    exists|k: int|
        0 <= k < edges.len() && !(#[trigger] edges[k]).equal && u.class(edges[k].from) == a && u.class(
            edges[k].to,
        ) == b && a != b
}

/// Every filed list is ascending.
pub open spec fn lists_ascending(g: Map<i64, Vec<RoomId>>) -> bool {
    forall|k: i64| #[trigger] g.contains_key(k) ==> ascending(g[k]@)
}

/// The strict-order graph over alignment classes, each list ascending and
/// without repeats, so the same map reports the same cycle every run.
fn contracted(edges: &Vec<AxisEdge>, union: &mut Union) -> (g: IntMap<Vec<RoomId>>)
    requires
        old(union).wf(),
    ensures
        final(union).wf(),
        final(union).rooms() == old(union).rooms(),
        forall|x: RoomId| #[trigger] final(union).class(x) == old(union).class(x),
        forall|eqs: Seq<AxisEdge>| old(union).respects(eqs) ==> #[trigger] final(union).respects(eqs),
        lists_ascending(g@),
        forall|a: RoomId, b: RoomId| #[trigger] arc(g@, a, b) <==> class_order(*old(union), edges@, a, b),
{
    let ghost u0 = *union;
    let mut g: IntMap<Vec<RoomId>> = IntMap::new();
    let mut k: usize = 0;
    while k < edges.len()
        invariant
            k <= edges@.len(),
            union.wf(),
            union.rooms() == u0.rooms(),
            forall|x: RoomId| #[trigger] union.class(x) == u0.class(x),
            forall|eqs: Seq<AxisEdge>| u0.respects(eqs) ==> #[trigger] union.respects(eqs),
            lists_ascending(g@),
            forall|a: RoomId, b: RoomId| #[trigger] arc(g@, a, b) <==> class_order(u0, edges@.take(k as int), a, b),
        decreases edges.len() - k,
    {
        let e = edges[k];
        let ghost before = g@;
        let ghost mut added: Option<(RoomId, RoomId)> = None;
        if !e.equal {
            let a = union.find(e.from);
            let b = union.find(e.to);
            if a.0 != b.0 {
                let ghost old_list = targets(before, a);
                let mut list = match g.remove(a.0 as i64) {
                    Some(v) => v,
                    None => Vec::new(),
                };
                assert(list@ == old_list);
                insert_sorted(&mut list, b);
                g.insert(a.0 as i64, list);
                proof {
                    added = Some((a, b));
                    assert forall|kk: i64| #[trigger] g@.contains_key(kk) implies ascending(g@[kk]@) by {
                        if kk != key(a) {
                            assert(before.contains_key(kk));
                        }
                    }
                    assert forall|x: RoomId, y: RoomId| #[trigger] arc(g@, x, y) <==> arc(before, x, y) || (x == a && y == b) by {
                        if x != a {
                            assert(key(x) != key(a));
                        }
                    }
                }
            }
        }
        proof {
            assert forall|x: RoomId, y: RoomId| #[trigger] arc(g@, x, y) <==> arc(before, x, y) || (added == Some((x, y))) by {
                if added is None {
                    assert(g@ == before);
                }
            }
            if added is Some {
                let p = added->0;
                assert(!e.equal && u0.class(e.from) == p.0 && u0.class(e.to) == p.1 && p.0 != p.1);
            } else {
                assert(e.equal || u0.class(e.from) == u0.class(e.to));
            }
        }
        proof {
            assert forall|x: RoomId, y: RoomId| #[trigger] arc(g@, x, y) <==> class_order(u0, edges@.take(k as int + 1), x, y) by {
                let t = edges@.take(k as int);
                let t1 = edges@.take(k as int + 1);
                assert(t1 == t.push(e));
                if class_order(u0, t1, x, y) {
                    let j = choose|j: int|
                        0 <= j < t1.len() && !(#[trigger] t1[j]).equal && u0.class(t1[j].from) == x && u0.class(
                            t1[j].to,
                        ) == y && x != y;
                    if j < k {
                        assert(t[j] == t1[j]);
                        assert(class_order(u0, t, x, y));
                    }
                }
                if class_order(u0, t, x, y) {
                    let j = choose|j: int|
                        0 <= j < t.len() && !(#[trigger] t[j]).equal && u0.class(t[j].from) == x && u0.class(
                            t[j].to,
                        ) == y && x != y;
                    assert(t1[j] == t[j]);
                }
                if !e.equal && u0.class(e.from) == x && u0.class(e.to) == y && x != y {
                    assert(t1[k as int] == e);
                }
                if class_order(u0, t1, x, y) && !class_order(u0, t, x, y) {
                    assert(added == Some((x, y)));
                }
            }
        }
        k = k + 1;
    }
    proof {
        assert(edges@.take(edges@.len() as int) == edges@);
    }
    g
}


/// The classes of the rooms, ascending, each once.
fn class_list(rooms: &[RoomId], union: &mut Union) -> (v: Vec<RoomId>)
    requires
        old(union).wf(),
    ensures
        ascending(v@),
        v@.len() <= rooms@.len(),
        forall|x: RoomId| #[trigger] v@.contains(x) <==> exists|i: int| 0 <= i < rooms@.len() && old(union).class(#[trigger] rooms@[i]) == x,
        final(union).wf(),
        final(union).rooms() == old(union).rooms(),
        forall|x: RoomId| #[trigger] final(union).class(x) == old(union).class(x),
        forall|eqs: Seq<AxisEdge>| old(union).respects(eqs) ==> #[trigger] final(union).respects(eqs),
{
    let ghost u0 = *union;
    let mut v: Vec<RoomId> = Vec::new();
    let mut i: usize = 0;
    while i < rooms.len()
        invariant
            i <= rooms@.len(),
            union.wf(),
            union.rooms() == u0.rooms(),
            forall|x: RoomId| #[trigger] union.class(x) == u0.class(x),
            forall|eqs: Seq<AxisEdge>| u0.respects(eqs) ==> #[trigger] union.respects(eqs),
            ascending(v@),
            v@.len() <= i,
            forall|x: RoomId| #[trigger] v@.contains(x) <==> exists|j: int| 0 <= j < i && u0.class(#[trigger] rooms@[j]) == x,
        decreases rooms.len() - i,
    {
        let c = union.find(rooms[i]);
        insert_sorted(&mut v, c);
        proof {
            assert forall|x: RoomId| #[trigger] v@.contains(x) <==> exists|j: int| 0 <= j < i + 1 && u0.class(#[trigger] rooms@[j]) == x by {
                if x == c {
                    assert(u0.class(rooms@[i as int]) == x);
                }
                if exists|j: int| 0 <= j < i + 1 && u0.class(#[trigger] rooms@[j]) == x {
                    let j = choose|j: int| 0 <= j < i + 1 && u0.class(#[trigger] rooms@[j]) == x;
                    if j < i {
                        assert(exists|j: int| 0 <= j < i && u0.class(#[trigger] rooms@[j]) == x);
                    }
                }
            }
        }
        i = i + 1;
    }
    v
}

/// A walk of arcs that ends where it began.
pub open spec fn arc_cycle(g: Map<i64, Vec<RoomId>>, c: Seq<RoomId>) -> bool {
    &&& c.len() >= 2
    &&& c[0] == c[c.len() - 1]
    &&& forall|k: int| 0 <= k < c.len() - 1 ==> arc(g, #[trigger] c[k], c[k + 1])
}

/// Every arc runs from a higher rank to a lower one.
pub open spec fn descends(g: Map<i64, Vec<RoomId>>, rank: Map<RoomId, int>) -> bool {
    forall|a: RoomId, b: RoomId| #[trigger] arc(g, a, b) ==> rank[b] < rank[a]
}

/// A depth-first search's mark on a class: 0 unvisited, 1 on the current
/// path, 2 finished.
pub open spec fn mark_of(m: Map<i64, u8>, x: RoomId) -> u8 {
    if m.contains_key(key(x)) {
        m[key(x)]
    } else {
        0
    }
}

pub open spec fn unmarked(starts: Seq<RoomId>, m: Map<i64, u8>) -> nat
    decreases starts.len(),
{
    if starts.len() == 0 {
        0
    } else {
        unmarked(starts.drop_last(), m) + (if mark_of(m, starts.last()) == 0 {
            1nat
        } else {
            0nat
        })
    }
}

proof fn lemma_unmarked_visit(starts: Seq<RoomId>, m: Map<i64, u8>, x: RoomId, v: u8)
    requires
        distinct_rooms(starts),
        v != 0,
    ensures
        mark_of(m, x) == 0 && starts.contains(x) ==> unmarked(starts, m.insert(key(x), v)) + 1 == unmarked(starts, m),
        mark_of(m, x) != 0 ==> unmarked(starts, m.insert(key(x), v)) == unmarked(starts, m),
    decreases starts.len(),
{
    if starts.len() > 0 {
        let d = starts.drop_last();
        assert(distinct_rooms(d)) by {
            assert forall|i: int, j: int| 0 <= i < d.len() && 0 <= j < d.len() && i != j implies #[trigger] d[i] != #[trigger] d[j] by {
                assert(d[i] == starts[i] && d[j] == starts[j]);
            }
        }
        lemma_unmarked_visit(d, m, x, v);
        let l = starts.last();
        if l != x {
            assert(key(l) != key(x));
        }
        if starts.contains(x) && l != x {
            let i = choose|i: int| 0 <= i < starts.len() && starts[i] == x;
            assert(d[i] == x);
        }
        if l == x {
            if d.contains(x) {
                let i = choose|i: int| 0 <= i < d.len() && d[i] == x;
                assert(starts[i] == starts[starts.len() - 1]);
            }
            assert(unmarked(d, m.insert(key(x), v)) == unmarked(d, m)) by {
                lemma_unmarked_absent(d, m, x, v);
            }
        }
    }
}

proof fn lemma_unmarked_absent(starts: Seq<RoomId>, m: Map<i64, u8>, x: RoomId, v: u8)
    requires
        !starts.contains(x),
    ensures
        unmarked(starts, m.insert(key(x), v)) == unmarked(starts, m),
    decreases starts.len(),
{
    if starts.len() > 0 {
        let d = starts.drop_last();
        if d.contains(x) {
            let i = choose|i: int| 0 <= i < d.len() && d[i] == x;
            assert(starts[i] == x);
        }
        lemma_unmarked_absent(d, m, x, v);
        assert(starts.last() != x) by {
            assert(starts[starts.len() - 1] == starts.last());
        }
        assert(key(starts.last()) != key(x));
    }
}

/// How much searching is left along the current path: each class's
/// unread targets, and one for leaving it.
pub open spec fn work(g: Map<i64, Vec<RoomId>>, p: Seq<RoomId>, n: Seq<usize>) -> int
    decreases p.len(),
{
    if p.len() == 0 || n.len() == 0 {
        0
    } else {
        work(g, p.drop_last(), n.drop_last()) + targets(g, p.last()).len() - n.last() + 1
    }
}

proof fn lemma_work_nonneg(g: Map<i64, Vec<RoomId>>, p: Seq<RoomId>, n: Seq<usize>)
    requires
        p.len() == n.len(),
        forall|k: int| 0 <= k < p.len() ==> #[trigger] n[k] <= targets(g, p[k]).len(),
    ensures
        work(g, p, n) >= 0,
    decreases p.len(),
{
    if p.len() > 0 {
        let dp = p.drop_last();
        let dn = n.drop_last();
        assert forall|k: int| 0 <= k < dp.len() implies #[trigger] dn[k] <= targets(g, dp[k]).len() by {
            assert(dn[k] == n[k] && dp[k] == p[k]);
        }
        lemma_work_nonneg(g, dp, dn);
        assert(n[n.len() - 1] <= targets(g, p[p.len() - 1]).len());
    }
}

fn set_mark(mark: &mut IntMap<u8>, x: RoomId, v: u8)
    ensures
        final(mark)@ == old(mark)@.insert(key(x), v),
        forall|y: RoomId| #[trigger] mark_of(final(mark)@, y) == (if y == x {
            v
        } else {
            mark_of(old(mark)@, y)
        }),
{
    mark.insert(x.0 as i64, v);
    proof {
        assert forall|y: RoomId| #[trigger] mark_of(mark@, y) == (if y == x {
            v
        } else {
            mark_of(old(mark)@, y)
        }) by {
            if y != x {
                assert(key(y) != key(x));
            }
        }
    }
}

fn mark_at(mark: &IntMap<u8>, x: RoomId) -> (v: u8)
    ensures
        v == mark_of(mark@, x),
{
    match mark.get(x.0 as i64) {
        Some(v) => *v,
        None => 0,
    }
}

fn first_at(path: &Vec<RoomId>, x: RoomId) -> (r: usize)
    requires
        path@.contains(x),
    ensures
        r < path@.len(),
        path@[r as int] == x,
{
    let mut i: usize = 0;
    while i < path.len()
        invariant
            i <= path@.len(),
            path@.contains(x),
            forall|j: int| 0 <= j < i ==> path@[j] != x,
        decreases path.len() - i,
    {
        if path[i].0 == x.0 {
            return i;
        }
        i = i + 1;
    }
    proof {
        let j = choose|j: int| 0 <= j < path@.len() && path@[j] == x;
        assert(path@[j] != x);
    }
    0
}

/// Cycles in the class graph, by iterative depth-first search from each
/// class in id order: one cycle per entry point, since breaking one
/// breaks every loop through the same classes.
///
/// Each reported cycle is a walk of arcs; when none is reported, the
/// finishing order ranks every arc's head below its tail, so the graph
/// has no cycle at all.
fn cycles(starts: &Vec<RoomId>, graph: &IntMap<Vec<RoomId>>, axis: Axis) -> (out: Vec<Problem>)
    requires
        distinct_rooms(starts@),
        forall|a: RoomId, b: RoomId| #[trigger] arc(graph@, a, b) ==> starts@.contains(a) && starts@.contains(b),
    ensures
        forall|i: int| 0 <= i < out@.len() ==> (#[trigger] out@[i] matches Problem::Cycle { axis: ax, cycle } && ax == axis
            && arc_cycle(graph@, cycle@)),
        out@.len() == 0 ==> exists|rank: Map<RoomId, int>| #[trigger] descends(graph@, rank),
{
    let ghost g = graph@;
    let mut mark: IntMap<u8> = IntMap::new();
    let mut out: Vec<Problem> = Vec::new();
    let ghost mut fin: Map<RoomId, int> = Map::empty();
    let ghost mut counter: int = 0;
    let mut si: usize = 0;
    while si < starts.len()
        invariant
            g == graph@,
            distinct_rooms(starts@),
            forall|a: RoomId, b: RoomId| #[trigger] arc(g, a, b) ==> starts@.contains(a) && starts@.contains(b),
            si <= starts@.len(),
            forall|x: RoomId| #[trigger] mark_of(mark@, x) == 0 || mark_of(mark@, x) == 2,
            forall|x: RoomId| #[trigger] mark_of(mark@, x) != 0 ==> starts@.contains(x),
            forall|i: int| 0 <= i < si ==> mark_of(mark@, #[trigger] starts@[i]) == 2,
            forall|i: int| 0 <= i < out@.len() ==> (#[trigger] out@[i] matches Problem::Cycle { axis: ax, cycle } && ax == axis
                && arc_cycle(g, cycle@)),
            out@.len() == 0 ==> forall|x: RoomId, j: int|
                mark_of(mark@, x) == 2 && 0 <= j < targets(g, x).len() ==> mark_of(mark@, #[trigger] targets(g, x)[j]) == 2
                    && fin[targets(g, x)[j]] < fin[x],
            out@.len() == 0 ==> forall|x: RoomId| #[trigger] mark_of(mark@, x) == 2 ==> fin[x] < counter,
        decreases starts.len() - si,
    {
        let start = starts[si];
        if mark_at(&mark, start) != 0 {
            si = si + 1;
            continue;
        }
        let mut path: Vec<RoomId> = vec![start];
        let mut next: Vec<usize> = vec![0];
        proof {
            lemma_unmarked_visit(starts@, mark@, start, 1);
            assert(starts@.contains(start)) by {
                assert(starts@[si as int] == start);
            }
        }
        set_mark(&mut mark, start, 1);
        proof {
            assert(path@ == seq![start]);
            assert(distinct_rooms(path@));
            assert forall|x: RoomId| #[trigger] mark_of(mark@, x) == 1 implies path@.contains(x) by {
                assert(x == start);
                assert(path@[0] == start);
            }
        }
        loop
            invariant
                g == graph@,
                distinct_rooms(starts@),
                forall|a: RoomId, b: RoomId| #[trigger] arc(g, a, b) ==> starts@.contains(a) && starts@.contains(b),
                si < starts@.len(),
                start == starts@[si as int],
                path@.len() == next@.len(),
                path@.len() == 0 ==> mark_of(mark@, start) == 2,
                path@.len() > 0 ==> path@[0] == start,
                forall|x: RoomId| #[trigger] mark_of(mark@, x) == 0 || mark_of(mark@, x) == 1 || mark_of(mark@, x) == 2,
                forall|x: RoomId| #[trigger] mark_of(mark@, x) != 0 ==> starts@.contains(x),
                forall|i: int| 0 <= i < si ==> mark_of(mark@, #[trigger] starts@[i]) == 2,
                forall|k: int| 0 <= k < path@.len() ==> mark_of(mark@, #[trigger] path@[k]) == 1,
                forall|x: RoomId| #[trigger] mark_of(mark@, x) == 1 ==> path@.contains(x),
                distinct_rooms(path@),
                forall|k: int| 0 <= k < path@.len() ==> #[trigger] next@[k] <= targets(g, path@[k]).len(),
                forall|k: int|
                    0 <= k < path@.len() - 1 ==> #[trigger] next@[k] >= 1 && targets(g, path@[k])[next@[k] - 1] == path@[k + 1],
                forall|i: int| 0 <= i < out@.len() ==> (#[trigger] out@[i] matches Problem::Cycle { axis: ax, cycle } && ax == axis
                    && arc_cycle(g, cycle@)),
                out@.len() == 0 ==> forall|x: RoomId, j: int|
                    mark_of(mark@, x) == 2 && 0 <= j < targets(g, x).len() ==> mark_of(mark@, #[trigger] targets(g, x)[j]) == 2
                        && fin[targets(g, x)[j]] < fin[x],
                out@.len() == 0 ==> forall|x: RoomId| #[trigger] mark_of(mark@, x) == 2 ==> fin[x] < counter,
                out@.len() == 0 ==> forall|k: int, j: int|
                    0 <= k < path@.len() && 0 <= j < next@[k] ==> (mark_of(mark@, #[trigger] targets(g, path@[k])[j]) == 2
                        && fin[targets(g, path@[k])[j]] < counter) || (k + 1 < path@.len() && j == next@[k] - 1),
            ensures
                mark_of(mark@, start) == 2,
                forall|x: RoomId| #[trigger] mark_of(mark@, x) == 0 || mark_of(mark@, x) == 2,
            decreases unmarked(starts@, mark@), work(g, path@, next@),
        {
            if path.len() == 0 {
                break;
            }
            let last = path.len() - 1;
            let room = path[last];
            let index = next[last];
            let ghost u_before = unmarked(starts@, mark@);
            let ghost w_before = work(g, path@, next@);
            proof {
                lemma_work_nonneg(g, path@, next@);
            }
            let found: Option<RoomId> = match graph.get(room.0 as i64) {
                Some(t) => if index < t.len() {
                    Some(t[index])
                } else {
                    None
                },
                None => None,
            };
            match found {
                None => {
                    proof {
                        assert(index as int == targets(g, room).len());
                        lemma_unmarked_visit(starts@, mark@, room, 2);
                        fin = fin.insert(room, counter);
                        counter = counter + 1;
                        assert(path@.drop_last() == path@.subrange(0, last as int));
                    }
                    let ghost m_before = mark@;
                    set_mark(&mut mark, room, 2);
                    let ghost old_path = path@;
                    let ghost old_next = next@;
                    path.pop();
                    next.pop();
                    proof {
                        assert(path@ == old_path.drop_last());
                        assert(next@ == old_next.drop_last());
                        assert(work(g, old_path, old_next) == work(g, path@, next@) + 1);
                        assert forall|x: RoomId| #[trigger] mark_of(mark@, x) == 1 implies path@.contains(x) by {
                            assert(mark_of(m_before, x) == 1);
                            assert(old_path.contains(x));
                            let k = choose|k: int| 0 <= k < old_path.len() && old_path[k] == x;
                            if k == last as int {
                                assert(x == room);
                            } else {
                                assert(path@[k] == x);
                            }
                        }
                        assert forall|k: int| 0 <= k < path@.len() implies mark_of(mark@, #[trigger] path@[k]) == 1 by {
                            assert(path@[k] == old_path[k]);
                            assert(old_path[k] != old_path[last as int]);
                            assert(key(old_path[k]) != key(room));
                        }
                        assert(distinct_rooms(path@)) by {
                            assert forall|a: int, b: int| 0 <= a < path@.len() && 0 <= b < path@.len() && a != b implies #[trigger] path@[a] != #[trigger] path@[b] by {
                                assert(path@[a] == old_path[a] && path@[b] == old_path[b]);
                            }
                        }
                        assert(starts@.contains(room)) by {
                            assert(mark_of(m_before, room) == 1);
                        }
                        if path@.len() == 0 {
                            assert(room == start);
                        }
                        assert(unmarked(starts@, mark@) == u_before);
                        assert(work(g, path@, next@) < w_before);
                    }
                },
                Some(target) => {
                    let ghost old_next = next@;
                    next.set(last, index + 1);
                    proof {
                        assert(next@.drop_last() == old_next.drop_last());
                        assert(work(g, path@, next@) + 1 == w_before);
                    }
                    proof {
                        assert(targets(g, room)[index as int] == target);
                        assert(arc(g, room, target));
                        assert(starts@.contains(target));
                    }
                    let m = mark_at(&mark, target);
                    if m == 2 {
                        assert(unmarked(starts@, mark@) == u_before);
                        assert(work(g, path@, next@) < w_before);
                    } else if m == 1 {
                        let at = first_at(&path, target);
                        let mut cycle: Vec<RoomId> = Vec::new();
                        let mut c = at;
                        while c < path.len()
                            invariant
                                at <= c <= path@.len(),
                                cycle@ == path@.subrange(at as int, c as int),
                            decreases path.len() - c,
                        {
                            cycle.push(path[c]);
                            c = c + 1;
                        }
                        cycle.push(target);
                        proof {
                            let c = cycle@;
                            let n = path@.len();
                            assert(c == path@.subrange(at as int, n as int).push(target));
                            assert(c[0] == target);
                            assert(c[c.len() - 1] == target);
                            assert forall|k: int| 0 <= k < c.len() - 1 implies arc(g, #[trigger] c[k], c[k + 1]) by {
                                if k < n - at - 1 {
                                    let pk = at + k;
                                    assert(c[k] == path@[pk] && c[k + 1] == path@[pk + 1]);
                                    assert(targets(g, path@[pk])[next@[pk] - 1] == path@[pk + 1]);
                                } else {
                                    assert(c[k] == room);
                                    assert(c[k + 1] == target);
                                }
                            }
                        }
                        let ghost old_out = out@;
                        out.push(Problem::Cycle { axis, cycle });
                        proof {
                            assert forall|i: int| 0 <= i < out@.len() implies (#[trigger] out@[i] matches Problem::Cycle { axis: ax, cycle } && ax == axis
                                && arc_cycle(g, cycle@)) by {
                                if i < old_out.len() {
                                    assert(out@[i] == old_out[i]);
                                }
                            }
                        }
                    } else {
                        proof {
                            lemma_unmarked_visit(starts@, mark@, target, 1);
                        }
                        let ghost m_before = mark@;
                        let ghost p_before = path@;
                        let ghost n_before = next@;
                        set_mark(&mut mark, target, 1);
                        path.push(target);
                        next.push(0);
                        proof {
                            assert(!p_before.contains(target)) by {
                                if p_before.contains(target) {
                                    let k = choose|k: int| 0 <= k < p_before.len() && p_before[k] == target;
                                    assert(mark_of(m_before, p_before[k]) == 1);
                                }
                            }
                            assert forall|x: RoomId| #[trigger] mark_of(mark@, x) == 1 implies path@.contains(x) by {
                                if x == target {
                                    assert(path@[p_before.len() as int] == target);
                                } else {
                                    assert(p_before.contains(x));
                                    let k = choose|k: int| 0 <= k < p_before.len() && p_before[k] == x;
                                    assert(path@[k] == x);
                                }
                            }
                            assert(distinct_rooms(path@)) by {
                                assert forall|a: int, b: int| 0 <= a < path@.len() && 0 <= b < path@.len() && a != b implies #[trigger] path@[a] != #[trigger] path@[b] by {
                                    if a < p_before.len() && b < p_before.len() {
                                        assert(path@[a] == p_before[a] && path@[b] == p_before[b]);
                                    } else if a < p_before.len() {
                                        assert(path@[a] == p_before[a]);
                                        assert(p_before.contains(p_before[a]));
                                    } else {
                                        assert(path@[b] == p_before[b]);
                                        assert(p_before.contains(p_before[b]));
                                    }
                                }
                            }
                            assert forall|k: int| 0 <= k < path@.len() implies mark_of(mark@, #[trigger] path@[k]) == 1 by {
                                if k < p_before.len() {
                                    assert(path@[k] == p_before[k]);
                                }
                            }
                            assert forall|k: int| 0 <= k < path@.len() implies #[trigger] next@[k] <= targets(g, path@[k]).len() by {
                                if k < p_before.len() {
                                    assert(path@[k] == p_before[k] && next@[k] == n_before[k]);
                                }
                            }
                            assert forall|k: int|
                                0 <= k < path@.len() - 1 implies #[trigger] next@[k] >= 1 && targets(g, path@[k])[next@[k] - 1] == path@[k + 1] by {
                                assert(path@[k] == p_before[k] && next@[k] == n_before[k]);
                                if k + 1 < p_before.len() {
                                    assert(path@[k + 1] == p_before[k + 1]);
                                }
                            }
                            assert(unmarked(starts@, mark@) < u_before);
                        }
                    }
                },
            }
            proof {
                lemma_work_nonneg(g, path@, next@);
            }
        }
        si = si + 1;
    }
    proof {
        if out@.len() == 0 {
            assert forall|a: RoomId, b: RoomId| #[trigger] arc(g, a, b) implies fin[b] < fin[a] by {
                let i = choose|i: int| 0 <= i < starts@.len() && starts@[i] == a;
                assert(mark_of(mark@, starts@[i]) == 2);
                let j = choose|j: int| 0 <= j < targets(g, a).len() && targets(g, a)[j] == b;
                assert(mark_of(mark@, targets(g, a)[j]) == 2 && fin[targets(g, a)[j]] < fin[a]);
            }
            assert(descends(g, fin));
        }
    }
    out
}


proof fn lemma_exit_edges_in_rooms(rooms: Seq<RoomId>, dirs: Map<u64, Dir>, axis: Axis, from: RoomId, exits: Seq<Exit>)
    requires
        rooms.contains(from),
    ensures
        forall|k: int| 0 <= k < exit_edges(rooms, dirs, axis, from, exits).len() ==> rooms.contains(
            (#[trigger] exit_edges(rooms, dirs, axis, from, exits)[k]).from,
        ) && rooms.contains(exit_edges(rooms, dirs, axis, from, exits)[k].to)
            && exit_edges(rooms, dirs, axis, from, exits)[k].from != exit_edges(rooms, dirs, axis, from, exits)[k].to,
    decreases exits.len(),
{
    if exits.len() > 0 {
        lemma_exit_edges_in_rooms(rooms, dirs, axis, from, exits.drop_last());
        let prev = exit_edges(rooms, dirs, axis, from, exits.drop_last());
        let cur = exit_edges(rooms, dirs, axis, from, exits);
        assert forall|k: int| 0 <= k < cur.len() implies rooms.contains((#[trigger] cur[k]).from) && rooms.contains(cur[k].to)
            && cur[k].from != cur[k].to by {
            if k < prev.len() {
                assert(cur[k] == prev[k]);
            }
        }
    }
}

proof fn lemma_edges_in_rooms(rooms: Seq<RoomId>, map: Seq<Room>, dirs: Map<u64, Dir>, axis: Axis, n: nat)
    ensures
        forall|k: int| 0 <= k < edges_upto(rooms, map, dirs, axis, n).len() ==> rooms.contains(
            (#[trigger] edges_upto(rooms, map, dirs, axis, n)[k]).from,
        ) && rooms.contains(edges_upto(rooms, map, dirs, axis, n)[k].to)
            && edges_upto(rooms, map, dirs, axis, n)[k].from != edges_upto(rooms, map, dirs, axis, n)[k].to,
    decreases n,
{
    if n > 0 && n <= rooms.len() {
        lemma_edges_in_rooms(rooms, map, dirs, axis, (n - 1) as nat);
        let from = rooms[n - 1];
        assert(rooms.contains(from));
        match room_of(map, from) {
            Some(r) => lemma_exit_edges_in_rooms(rooms, dirs, axis, from, r.exits@),
            None => {},
        }
        let prev = edges_upto(rooms, map, dirs, axis, (n - 1) as nat);
        let cur = edges_upto(rooms, map, dirs, axis, n);
        let mine = match room_of(map, from) {
            Some(r) => exit_edges(rooms, dirs, axis, from, r.exits@),
            None => Seq::empty(),
        };
        assert(cur == prev + mine);
        assert forall|k: int| 0 <= k < cur.len() implies rooms.contains((#[trigger] cur[k]).from) && rooms.contains(cur[k].to)
            && cur[k].from != cur[k].to by {
            if k < prev.len() {
                assert(cur[k] == prev[k]);
            } else {
                assert(cur[k] == mine[k - prev.len()]);
            }
        }
    }
}

/// Along a walk of strict orders between classes, every assignment keeping
/// the constraints climbs.
proof fn lemma_walk_climbs(u: Union, edges: Seq<AxisEdge>, f: Map<RoomId, int>, c: Seq<RoomId>, k: int)
    requires
        u.wf(),
        u.respects(edges),
        keeps_all(f, edges),
        1 <= k < c.len(),
        forall|i: int| 0 <= i < c.len() - 1 ==> class_order(u, edges, #[trigger] c[i], c[i + 1]),
    ensures
        f[c[0]] < f[c[k]],
    decreases k,
{
    let i = k - 1;
    assert(class_order(u, edges, c[i], c[i + 1]));
    let j = choose|j: int|
        0 <= j < edges.len() && !(#[trigger] edges[j]).equal && u.class(edges[j].from) == c[i] && u.class(
            edges[j].to,
        ) == c[i + 1] && c[i] != c[i + 1];
    assert(keeps(f, edges[j]));
    u.lemma_class_shares(edges, f, edges[j].from);
    u.lemma_class_shares(edges, f, edges[j].to);
    if k > 1 {
        lemma_walk_climbs(u, edges, f, c, k - 1);
    }
}

/// A cycle or a strict order inside an alignment, on this axis.
pub open spec fn of_axis(p: Problem, axis: Axis) -> bool {
    match p {
        Problem::Cycle { axis: a, .. } => a == axis,
        Problem::OrderWithinAlignment { axis: a, .. } => a == axis,
        Problem::ForcedOverlap { .. } => false,
    }
}

/// Judge one axis: contract its alignments, report each strict order
/// inside an alignment, then each cycle among the classes.
fn judge_axis(
    rooms: &[RoomId],
    map: &RoomMap,
    dirs: &DirectionMap,
    axis: Axis,
    out: &mut Vec<Problem>,
) -> (u: Union)
    ensures
        u.wf(),
        forall|r: RoomId| #[trigger] u.rooms().contains(r) <==> rooms@.contains(r),
        u.respects(axis_edges_of(rooms@, map@, dirs@, axis)),
        final(out)@.len() >= old(out)@.len(),
        forall|i: int| 0 <= i < old(out)@.len() ==> #[trigger] final(out)@[i] == old(out)@[i],
        final(out)@.len() > old(out)@.len() ==> !satisfiable_axis(axis_edges_of(rooms@, map@, dirs@, axis)),
        forall|i: int| old(out)@.len() <= i < final(out)@.len() ==> of_axis(#[trigger] final(out)@[i], axis),
        final(out)@.len() == old(out)@.len() ==> satisfiable_axis(axis_edges_of(rooms@, map@, dirs@, axis)),
{
    let edges = axis_edges(rooms, map, dirs, axis);
    let ghost es = edges@;
    proof {
        lemma_edges_in_rooms(rooms@, map@, dirs@, axis, rooms@.len());
    }
    let mut union = Union::new(rooms);
    assert(es.take(0) == Seq::<AxisEdge>::empty());
    let mut i: usize = 0;
    while i < edges.len()
        invariant
            es == edges@,
            i <= es.len(),
            forall|k: int| 0 <= k < es.len() ==> rooms@.contains((#[trigger] es[k]).from) && rooms@.contains(es[k].to),
            union.wf(),
            forall|r: RoomId| #[trigger] union.rooms().contains(r) <==> rooms@.contains(r),
            union.respects(es.take(i as int)),
            forall|k: int| 0 <= k < i && (#[trigger] es[k]).equal ==> union.class(es[k].from) == union.class(es[k].to),
        decreases edges.len() - i,
    {
        let e = edges[i];
        proof {
            assert(es.take(i as int + 1) == es.take(i as int).push(e));
        }
        if e.equal {
            let ghost before = union;
            union.join(e.from, e.to);
            proof {
                assert forall|k: int| 0 <= k < i + 1 && (#[trigger] es[k]).equal implies union.class(es[k].from) == union.class(es[k].to) by {
                    if k < i {
                        assert(before.class(es[k].from) == before.class(es[k].to));
                    }
                }
            }
        } else {
            proof {
                union.lemma_respects_push(es.take(i as int), e);
            }
        }
        i = i + 1;
    }
    proof {
        assert(es.take(es.len() as int) == es);
    }
    let ghost u0 = union;
    let ghost start = out@.len();
    let mut k: usize = 0;
    while k < edges.len()
        invariant
            es == edges@,
            k <= es.len(),
            union.wf(),
            union.rooms() == u0.rooms(),
            forall|x: RoomId| #[trigger] union.class(x) == u0.class(x),
            forall|eqs: Seq<AxisEdge>| u0.respects(eqs) ==> #[trigger] union.respects(eqs),
            u0.wf(),
            u0.respects(es),
            start <= out@.len(),
            forall|j: int| 0 <= j < start ==> #[trigger] out@[j] == old(out)@[j],
            start == old(out)@.len(),
            out@.len() > start ==> !satisfiable_axis(es),
            forall|j: int| start <= j < out@.len() ==> of_axis(#[trigger] out@[j], axis),
            forall|j: int| 0 <= j < k && !(#[trigger] es[j]).equal && u0.class(es[j].from) == u0.class(es[j].to) ==> out@.len() > start,
        decreases edges.len() - k,
    {
        let e = edges[k];
        if !e.equal {
            let a = union.find(e.from);
            let b = union.find(e.to);
            if a.0 == b.0 {
                proof {
                    assert(!satisfiable_axis(es)) by {
                        if satisfiable_axis(es) {
                            let f = choose|f: Map<RoomId, int>| keeps_all(f, es);
                            assert(keeps(f, es[k as int]));
                            u0.lemma_same_class(es, f, e.from, e.to);
                        }
                    }
                }
                let ghost prev = out@;
                out.push(Problem::OrderWithinAlignment { axis, from: e.from, to: e.to });
                proof {
                    assert forall|j: int| 0 <= j < start implies #[trigger] out@[j] == old(out)@[j] by {
                        assert(out@[j] == prev[j]);
                    }
                    assert forall|j: int| start <= j < out@.len() implies of_axis(#[trigger] out@[j], axis) by {
                        if j < prev.len() {
                            assert(out@[j] == prev[j]);
                        }
                    }
                }
            }
        }
        k = k + 1;
    }
    let graph = contracted(&edges, &mut union);
    let starts = class_list(rooms, &mut union);
    proof {
        assert(distinct_rooms(starts@)) by {
            assert forall|a: int, b: int| 0 <= a < starts@.len() && 0 <= b < starts@.len() && a != b implies #[trigger] starts@[a] != #[trigger] starts@[b] by {
                if a < b {
                    assert(starts@[a].0 < starts@[b].0);
                } else {
                    assert(starts@[b].0 < starts@[a].0);
                }
            }
        }
        assert forall|a: RoomId, b: RoomId| #[trigger] arc(graph@, a, b) implies starts@.contains(a) && starts@.contains(b) by {
            let j = choose|j: int|
                0 <= j < es.len() && !(#[trigger] es[j]).equal && u0.class(es[j].from) == a && u0.class(
                    es[j].to,
                ) == b && a != b;
            let ia = choose|ia: int| 0 <= ia < rooms@.len() && rooms@[ia] == es[j].from;
            let ib = choose|ib: int| 0 <= ib < rooms@.len() && rooms@[ib] == es[j].to;
            assert(u0.class(rooms@[ia]) == a);
            assert(u0.class(rooms@[ib]) == b);
        }
    }
    let found = cycles(&starts, &graph, axis);
    proof {
        if found@.len() > 0 {
            assert(!satisfiable_axis(es)) by {
                if satisfiable_axis(es) {
                    let f = choose|f: Map<RoomId, int>| keeps_all(f, es);
                    let c = match found@[0] {
                        Problem::Cycle { cycle, .. } => cycle@,
                        _ => Seq::empty(),
                    };
                    assert(found@[0] is Cycle);
                    assert(arc_cycle(graph@, c));
                    assert forall|i: int| 0 <= i < c.len() - 1 implies class_order(u0, es, #[trigger] c[i], c[i + 1]) by {
                        assert(arc(graph@, c[i], c[i + 1]));
                    }
                    lemma_walk_climbs(u0, es, f, c, c.len() - 1);
                }
            }
        } else if out@.len() == start {
            let rank = choose|rank: Map<RoomId, int>| #[trigger] descends(graph@, rank);
            let f = Map::new(|x: RoomId| true, |x: RoomId| 0 - rank[u0.class(x)]);
            assert forall|j: int| 0 <= j < es.len() implies keeps(f, #[trigger] es[j]) by {
                let e = es[j];
                let a = u0.class(e.from);
                let b = u0.class(e.to);
                assert(f[e.from] == 0 - rank[a]);
                assert(f[e.to] == 0 - rank[b]);
                if !e.equal {
                    if a == b {
                        assert(out@.len() > start);
                    }
                    assert(class_order(u0, es, a, b));
                    assert(arc(graph@, a, b));
                }
            }
            assert(keeps_all(f, es));
        }
    }
    let ghost prev = out@;
    let ghost found_all = found@;
    let mut found = found;
    out.append(&mut found);
    proof {
        assert(out@ == prev + found_all);
        assert forall|i: int| 0 <= i < old(out)@.len() implies #[trigger] out@[i] == old(out)@[i] by {
            assert(out@[i] == prev[i]);
        }
        assert forall|i: int| old(out)@.len() <= i < out@.len() implies of_axis(#[trigger] out@[i], axis) by {
            if i < prev.len() {
                assert(out@[i] == prev[i]);
            } else {
                assert(out@[i] == found_all[i - prev.len()]);
            }
        }
    }
    union
}


/// Whether every arrangement keeping both axes' constraints puts `a` and
/// `b` on the same cell.
pub open spec fn forced_together(ex: Seq<AxisEdge>, ey: Seq<AxisEdge>, a: RoomId, b: RoomId) -> bool {
    forall|fx: Map<RoomId, int>, fy: Map<RoomId, int>|
        #![trigger keeps_all(fx, ex), keeps_all(fy, ey)]
        keeps_all(fx, ex) && keeps_all(fy, ey) ==> fx[a] == fx[b] && fy[a] == fy[b]
}

/// A reported problem is a genuine contradiction: a cycle or a strict
/// order inside an alignment means no arrangement keeps that axis, and a
/// forced overlap means every arrangement puts the two rooms on one cell.
pub open spec fn genuine(p: Problem, rooms: Seq<RoomId>, map: Seq<Room>, dirs: Map<u64, Dir>) -> bool {
    match p {
        Problem::Cycle { axis, .. } => !satisfiable_axis(axis_edges_of(rooms, map, dirs, axis)),
        Problem::OrderWithinAlignment { axis, .. } => !satisfiable_axis(
            axis_edges_of(rooms, map, dirs, axis),
        ),
        Problem::ForcedOverlap { a, b } => rooms.contains(a) && rooms.contains(b) && forced_together(
            axis_edges_of(rooms, map, dirs, Axis::EastWest),
            axis_edges_of(rooms, map, dirs, Axis::NorthSouth),
            a,
            b,
        ),
    }
}

/// Everything that stops a component's directions being satisfied at
/// once, or an empty list when they can be.
///
/// Every problem reported is genuine, and an empty list is a strong claim:
/// an arrangement exists that keeps every stated bearing's signs on both
/// axes.
pub fn problems(rooms: &[RoomId], map: &RoomMap, dirs: &DirectionMap) -> (out: Vec<Problem>)
    ensures
        forall|i: int| 0 <= i < out@.len() ==> genuine(#[trigger] out@[i], rooms@, map@, dirs@),
        out@.len() == 0 ==> satisfiable_axis(axis_edges_of(rooms@, map@, dirs@, Axis::EastWest))
            && satisfiable_axis(axis_edges_of(rooms@, map@, dirs@, Axis::NorthSouth)),
{
    let ghost ex = axis_edges_of(rooms@, map@, dirs@, Axis::EastWest);
    let ghost ey = axis_edges_of(rooms@, map@, dirs@, Axis::NorthSouth);
    let mut out: Vec<Problem> = Vec::new();
    let mut x = judge_axis(rooms, map, dirs, Axis::EastWest, &mut out);
    let ghost after_x = out@;
    proof {
        assert forall|i: int| 0 <= i < out@.len() implies genuine(#[trigger] out@[i], rooms@, map@, dirs@) by {
            if out@[i] is Cycle {
            }
        }
    }
    let mut y = judge_axis(rooms, map, dirs, Axis::NorthSouth, &mut out);
    proof {
        assert forall|i: int| 0 <= i < out@.len() implies genuine(#[trigger] out@[i], rooms@, map@, dirs@) by {
            if i < after_x.len() {
                assert(out@[i] == after_x[i]);
            }
        }
    }
    let ghost x0 = x;
    let ghost y0 = y;
    // Aligned on both axes: the same cell, which cannot be drawn.
    let mut seen: Vec<((RoomId, RoomId), RoomId)> = Vec::new();
    let mut k: usize = 0;
    while k < rooms.len()
        invariant
            k <= rooms@.len(),
            x.wf(),
            y.wf(),
            x0.wf(),
            y0.wf(),
            x.rooms() == x0.rooms(),
            y.rooms() == y0.rooms(),
            forall|r: RoomId| #[trigger] x.class(r) == x0.class(r),
            forall|r: RoomId| #[trigger] y.class(r) == y0.class(r),
            x0.respects(ex),
            y0.respects(ey),
            ex == axis_edges_of(rooms@, map@, dirs@, Axis::EastWest),
            ey == axis_edges_of(rooms@, map@, dirs@, Axis::NorthSouth),
            forall|j: int| 0 <= j < seen@.len() ==> (#[trigger] seen@[j]).0 == (x0.class(seen@[j].1), y0.class(seen@[j].1))
                && rooms@.contains(seen@[j].1),
            forall|i: int| 0 <= i < out@.len() ==> genuine(#[trigger] out@[i], rooms@, map@, dirs@),
            out@.len() == 0 ==> satisfiable_axis(ex) && satisfiable_axis(ey),
        decreases rooms.len() - k,
    {
        let room = rooms[k];
        let kx = x.find(room);
        let ky = y.find(room);
        let mut first: Option<RoomId> = None;
        let mut j: usize = 0;
        while j < seen.len()
            invariant
                j <= seen@.len(),
                first matches Some(f) ==> exists|q: int| 0 <= q < seen@.len() && (#[trigger] seen@[q]).1 == f && seen@[q].0 == (kx, ky),
                first is None ==> forall|q: int| 0 <= q < j ==> (#[trigger] seen@[q]).0 != (kx, ky),
            decreases seen.len() - j,
        {
            if first.is_none() && seen[j].0.0.0 == kx.0 && seen[j].0.1.0 == ky.0 {
                first = Some(seen[j].1);
                assert(seen@[j as int].0 == (kx, ky));
            }
            j = j + 1;
        }
        match first {
            Some(f) => {
                proof {
                    let q = choose|q: int| 0 <= q < seen@.len() && (#[trigger] seen@[q]).1 == f && seen@[q].0 == (kx, ky);
                    assert(seen@[q].0 == (x0.class(f), y0.class(f)));
                    assert(rooms@.contains(room)) by {
                        assert(rooms@[k as int] == room);
                    }
                    assert(forced_together(ex, ey, f, room)) by {
                        assert forall|fx: Map<RoomId, int>, fy: Map<RoomId, int>|
                            #![trigger keeps_all(fx, ex), keeps_all(fy, ey)]
                            keeps_all(fx, ex) && keeps_all(fy, ey) implies fx[f] == fx[room] && fy[f] == fy[room] by {
                            x0.lemma_same_class(ex, fx, f, room);
                            y0.lemma_same_class(ey, fy, f, room);
                        }
                    }
                }
                let ghost prev = out@;
                out.push(Problem::ForcedOverlap { a: f, b: room });
                proof {
                    assert forall|i: int| 0 <= i < out@.len() implies genuine(#[trigger] out@[i], rooms@, map@, dirs@) by {
                        if i < prev.len() {
                            assert(out@[i] == prev[i]);
                        }
                    }
                }
            },
            None => {
                seen.push(((kx, ky), room));
                proof {
                    assert(rooms@.contains(room)) by {
                        assert(rooms@[k as int] == room);
                    }
                }
            },
        }
        k = k + 1;
    }
    out
}

/// Whether every stated direction among these rooms can hold at once.
///
/// True only when an arrangement keeping every bearing's signs exists on
/// both axes.
pub fn is_satisfiable(rooms: &[RoomId], map: &RoomMap, dirs: &DirectionMap) -> (b: bool)
    ensures
        b ==> satisfiable_axis(axis_edges_of(rooms@, map@, dirs@, Axis::EastWest))
            && satisfiable_axis(axis_edges_of(rooms@, map@, dirs@, Axis::NorthSouth)),
        !b ==> !satisfiable_axis(axis_edges_of(rooms@, map@, dirs@, Axis::EastWest))
            || !satisfiable_axis(axis_edges_of(rooms@, map@, dirs@, Axis::NorthSouth))
            || exists|a: RoomId, c: RoomId| #[trigger] forced_together(
                axis_edges_of(rooms@, map@, dirs@, Axis::EastWest),
                axis_edges_of(rooms@, map@, dirs@, Axis::NorthSouth),
                a,
                c,
            ) && rooms@.contains(a) && rooms@.contains(c),
{
    let found = problems(rooms, map, dirs);
    proof {
        if found@.len() > 0 {
            assert(genuine(found@[0], rooms@, map@, dirs@));
            match found@[0] {
                Problem::ForcedOverlap { a, b } => {
                    assert(forced_together(
                        axis_edges_of(rooms@, map@, dirs@, Axis::EastWest),
                        axis_edges_of(rooms@, map@, dirs@, Axis::NorthSouth),
                        a,
                        b,
                    ));
                },
                _ => {},
            }
        }
    }
    found.len() == 0
}


/// A map's value for a class, or a default.
pub open spec fn val_or<V>(m: Map<i64, V>, c: RoomId, d: V) -> V {
    if m.contains_key(key(c)) {
        m[key(c)]
    } else {
        d
    }
}

fn get_or<V: Copy>(m: &IntMap<V>, c: RoomId, d: V) -> (v: V)
    ensures
        v == val_or(m@, c, d),
{
    match m.get(c.0 as i64) {
        Some(v) => *v,
        None => d,
    }
}

fn put_at<V>(m: &mut IntMap<V>, c: RoomId, v: V)
    ensures
        final(m)@ == old(m)@.insert(key(c), v),
        forall|y: RoomId, d: V| #[trigger] val_or(final(m)@, y, d) == (if y == c {
            v
        } else {
            val_or(old(m)@, y, d)
        }),
{
    m.insert(c.0 as i64, v);
    proof {
        assert forall|y: RoomId, d: V| #[trigger] val_or(m@, y, d) == (if y == c {
            v
        } else {
            val_or(old(m)@, y, d)
        }) by {
            if y != c {
                assert(key(y) != key(c));
            }
        }
    }
}

/// How many classes before `c`'s strict orders have not been handled.
pub open spec fn preds_left(cs: Seq<RoomId>, g: Map<i64, Vec<RoomId>>, c: RoomId, d: Set<RoomId>) -> nat
    decreases cs.len(),
{
    if cs.len() == 0 {
        0
    } else {
        preds_left(cs.drop_last(), g, c, d) + (if arc(g, cs.last(), c) && !d.contains(cs.last()) {
            1nat
        } else {
            0nat
        })
    }
}

/// How many classes are not handled yet.
pub open spec fn remaining(cs: Seq<RoomId>, d: Set<RoomId>) -> nat
    decreases cs.len(),
{
    if cs.len() == 0 {
        0
    } else {
        remaining(cs.drop_last(), d) + (if !d.contains(cs.last()) {
            1nat
        } else {
            0nat
        })
    }
}

proof fn lemma_drop_last_distinct(cs: Seq<RoomId>)
    requires
        distinct_rooms(cs),
        cs.len() > 0,
    ensures
        distinct_rooms(cs.drop_last()),
        !cs.drop_last().contains(cs.last()),
        forall|x: RoomId| #[trigger] cs.contains(x) <==> cs.drop_last().contains(x) || x == cs.last(),
{
    let d = cs.drop_last();
    assert forall|i: int, j: int| 0 <= i < d.len() && 0 <= j < d.len() && i != j implies #[trigger] d[i] != #[trigger] d[j] by {
        assert(d[i] == cs[i] && d[j] == cs[j]);
    }
    if d.contains(cs.last()) {
        let i = choose|i: int| 0 <= i < d.len() && d[i] == cs.last();
        assert(cs[i] == cs[cs.len() - 1]);
    }
    assert forall|x: RoomId| #[trigger] cs.contains(x) <==> d.contains(x) || x == cs.last() by {
        if cs.contains(x) {
            let i = choose|i: int| 0 <= i < cs.len() && cs[i] == x;
            if i < cs.len() - 1 {
                assert(d[i] == x);
            }
        }
        if d.contains(x) {
            let i = choose|i: int| 0 <= i < d.len() && d[i] == x;
            assert(cs[i] == x);
        }
        if x == cs.last() {
            assert(cs[cs.len() - 1] == x);
        }
    }
}

proof fn lemma_preds_left_insert(cs: Seq<RoomId>, g: Map<i64, Vec<RoomId>>, c: RoomId, d: Set<RoomId>, a: RoomId)
    requires
        distinct_rooms(cs),
    ensures
        preds_left(cs, g, c, d.insert(a)) + (if cs.contains(a) && arc(g, a, c) && !d.contains(a) {
            1int
        } else {
            0int
        }) == preds_left(cs, g, c, d),
    decreases cs.len(),
{
    if cs.len() > 0 {
        lemma_drop_last_distinct(cs);
        lemma_preds_left_insert(cs.drop_last(), g, c, d, a);
    }
}

proof fn lemma_preds_left_facts(cs: Seq<RoomId>, g: Map<i64, Vec<RoomId>>, c: RoomId, d: Set<RoomId>)
    ensures
        preds_left(cs, g, c, d) <= cs.len(),
        preds_left(cs, g, c, d) == 0 ==> forall|p: RoomId| cs.contains(p) && #[trigger] arc(g, p, c) ==> d.contains(p),
        preds_left(cs, g, c, d) > 0 ==> exists|p: RoomId| cs.contains(p) && #[trigger] arc(g, p, c) && !d.contains(p),
    decreases cs.len(),
{
    if cs.len() > 0 {
        let dl = cs.drop_last();
        lemma_preds_left_facts(dl, g, c, d);
        assert forall|p: RoomId| cs.contains(p) implies dl.contains(p) || p == cs.last() by {
            let i = choose|i: int| 0 <= i < cs.len() && cs[i] == p;
            if i < cs.len() - 1 {
                assert(dl[i] == p);
            }
        }
        if preds_left(dl, g, c, d) > 0 {
            let p = choose|p: RoomId| dl.contains(p) && #[trigger] arc(g, p, c) && !d.contains(p);
            let i = choose|i: int| 0 <= i < dl.len() && dl[i] == p;
            assert(cs[i] == p);
        }
        if arc(g, cs.last(), c) && !d.contains(cs.last()) {
            assert(cs[cs.len() - 1] == cs.last());
        }
    }
}

proof fn lemma_remaining_insert(cs: Seq<RoomId>, d: Set<RoomId>, a: RoomId)
    requires
        distinct_rooms(cs),
    ensures
        remaining(cs, d.insert(a)) + (if cs.contains(a) && !d.contains(a) {
            1int
        } else {
            0int
        }) == remaining(cs, d),
        remaining(cs, d) <= cs.len(),
    decreases cs.len(),
{
    if cs.len() > 0 {
        lemma_drop_last_distinct(cs);
        lemma_remaining_insert(cs.drop_last(), d, a);
    }
}

proof fn lemma_remaining_min(cs: Seq<RoomId>, d: Set<RoomId>, f: Map<RoomId, int>)
    requires
        remaining(cs, d) > 0,
    ensures
        exists|c: RoomId| #![trigger cs.contains(c)] cs.contains(c) && !d.contains(c) && forall|x: RoomId| cs.contains(x) && !d.contains(x) ==> f[c] <= #[trigger] f[x],
    decreases cs.len(),
{
    let dl = cs.drop_last();
    let l = cs.last();
    assert forall|x: RoomId| cs.contains(x) implies dl.contains(x) || x == l by {
        let i = choose|i: int| 0 <= i < cs.len() && cs[i] == x;
        if i < cs.len() - 1 {
            assert(dl[i] == x);
        }
    }
    assert(cs.contains(l)) by {
        assert(cs[cs.len() - 1] == l);
    }
    if remaining(dl, d) > 0 {
        lemma_remaining_min(dl, d, f);
        let c = choose|c: RoomId| #![trigger dl.contains(c)] dl.contains(c) && !d.contains(c) && forall|x: RoomId| dl.contains(x) && !d.contains(x) ==> f[c] <= #[trigger] f[x];
        let i = choose|i: int| 0 <= i < dl.len() && dl[i] == c;
        assert(cs[i] == c);
        assert(cs.contains(c));
        if !d.contains(l) && f[l] < f[c] {
            assert forall|x: RoomId| cs.contains(x) && !d.contains(x) implies f[l] <= #[trigger] f[x] by {
                if x != l {
                    assert(dl.contains(x));
                }
            }
            assert(cs.contains(l) && !d.contains(l));
        } else {
            assert forall|x: RoomId| cs.contains(x) && !d.contains(x) implies f[c] <= #[trigger] f[x] by {
                if x != l {
                    assert(dl.contains(x));
                }
            }
            assert(cs.contains(c) && !d.contains(c));
        }
    } else {
        assert(!d.contains(l));
        assert forall|x: RoomId| cs.contains(x) && !d.contains(x) implies f[l] <= #[trigger] f[x] by {
            if x != l {
                assert(dl.contains(x));
                lemma_remaining_positive(dl, d, x);
            }
        }
        assert(cs.contains(l) && !d.contains(l));
    }
}

proof fn lemma_remaining_positive(cs: Seq<RoomId>, d: Set<RoomId>, x: RoomId)
    requires
        cs.contains(x),
        !d.contains(x),
    ensures
        remaining(cs, d) > 0,
    decreases cs.len(),
{
    let dl = cs.drop_last();
    if cs.last() != x {
        let i = choose|i: int| 0 <= i < cs.len() && cs[i] == x;
        if i == cs.len() - 1 {
            assert(cs.last() == x);
        }
        assert(dl[i] == x);
        lemma_remaining_positive(dl, d, x);
    }
}


/// Every arc runs from a lower value to a higher one.
pub open spec fn climbs(g: Map<i64, Vec<RoomId>>, f: Map<RoomId, int>) -> bool {
    forall|a: RoomId, b: RoomId| #[trigger] arc(g, a, b) ==> f[a] < f[b]
}

/// A class's rank: 0 until one is given.
pub open spec fn rank_of(m: Map<i64, i32>, c: RoomId) -> int {
    val_or(m, c, 0i32) as int
}

/// Longest-path ranks by repeatedly taking the highest-id class nothing
/// unhandled comes before; also how many classes were handled. A class
/// still waiting when nothing is ready is waiting on a cycle.
fn kahn(classes: &Vec<RoomId>, graph: &IntMap<Vec<RoomId>>) -> (r: (IntMap<i32>, usize))
    requires
        ascending(classes@),
        classes@.len() < i32::MAX,
        lists_ascending(graph@),
        forall|a: RoomId, b: RoomId| #[trigger] arc(graph@, a, b) ==> classes@.contains(a) && classes@.contains(b) && a != b,
    ensures
        r.1 <= classes@.len(),
        forall|x: RoomId| 0 <= #[trigger] rank_of(r.0@, x) <= classes@.len(),
        r.1 == classes@.len() ==> forall|a: RoomId, b: RoomId| #[trigger] arc(graph@, a, b) ==> rank_of(r.0@, a) < rank_of(r.0@, b),
        (exists|f: Map<RoomId, int>| #[trigger] climbs(graph@, f)) ==> r.1 == classes@.len(),
{
    let ghost cs = classes@;
    let ghost g = graph@;
    proof {
        assert(distinct_rooms(cs)) by {
            assert forall|a: int, b: int| 0 <= a < cs.len() && 0 <= b < cs.len() && a != b implies #[trigger] cs[a] != #[trigger] cs[b] by {
                if a < b {
                    assert(cs[a].0 < cs[b].0);
                } else {
                    assert(cs[b].0 < cs[a].0);
                }
            }
        }
    }
    // How many classes come directly before each one.
    let mut incoming: IntMap<usize> = IntMap::new();
    let n = classes.len();
    let mut i: usize = 0;
    while i < n
        invariant
            n == cs.len(),
            cs == classes@,
            g == graph@,
            i <= n,
            distinct_rooms(cs),
            lists_ascending(g),
            forall|a: RoomId, b: RoomId| #[trigger] arc(g, a, b) ==> cs.contains(a) && cs.contains(b) && a != b,
            forall|x: RoomId| #[trigger] val_or(incoming@, x, 0usize) == preds_left(cs.take(i as int), g, x, Set::empty()),
        decreases n - i,
    {
        let c = classes[i];
        let ghost t0 = incoming@;
        proof {
            assert(cs.take(i as int + 1).drop_last() == cs.take(i as int));
            assert(cs.take(i as int + 1).last() == c);
        }
        match graph.get(c.0 as i64) {
            Some(t) => {
                proof {
                    assert(targets(g, c) == t@);
                    assert(ascending(t@));
                }
                let mut j: usize = 0;
                while j < t.len()
                    invariant
                        j <= t@.len(),
                        t@ == targets(g, c),
                        ascending(t@),
                        i < n,
                        n == cs.len(),
                        forall|x: RoomId| #[trigger] val_or(incoming@, x, 0usize) == val_or(t0, x, 0usize) + (if t@.take(j as int).contains(x) {
                            1int
                        } else {
                            0int
                        }),
                        forall|x: RoomId| #[trigger] val_or(t0, x, 0usize) == preds_left(cs.take(i as int), g, x, Set::empty()),
                    decreases t.len() - j,
                {
                    let x = t[j];
                    proof {
                        lemma_preds_left_facts(cs.take(i as int), g, x, Set::empty());
                        assert(!t@.take(j as int).contains(x)) by {
                            if t@.take(j as int).contains(x) {
                                let k = choose|k: int| 0 <= k < j && t@.take(j as int)[k] == x;
                                assert(t@[k].0 < t@[j as int].0);
                            }
                        }
                    }
                    let v = get_or(&incoming, x, 0);
                    put_at(&mut incoming, x, v + 1);
                    proof {
                        assert forall|y: RoomId| #[trigger] val_or(incoming@, y, 0usize) == val_or(t0, y, 0usize) + (if t@.take(j as int + 1).contains(y) {
                            1int
                        } else {
                            0int
                        }) by {
                            assert(t@.take(j as int + 1) == t@.take(j as int).push(x));
                            assert(t@.take(j as int + 1).contains(y) <==> t@.take(j as int).contains(y) || y == x) by {
                                let tj = t@.take(j as int);
                                if tj.push(x).contains(y) && y != x {
                                    let k = choose|k: int| 0 <= k < tj.push(x).len() && tj.push(x)[k] == y;
                                    assert(tj[k] == y);
                                }
                                if tj.contains(y) {
                                    let k = choose|k: int| 0 <= k < tj.len() && tj[k] == y;
                                    assert(tj.push(x)[k] == y);
                                }
                                if y == x {
                                    assert(tj.push(x)[j as int] == x);
                                }
                            }
                        }
                    }
                    j = j + 1;
                }
                proof {
                    assert(t@.take(t@.len() as int) == t@);
                }
            },
            None => {},
        }
        proof {
            assert forall|x: RoomId| #[trigger] val_or(incoming@, x, 0usize) == preds_left(cs.take(i as int + 1), g, x, Set::empty()) by {
                assert(arc(g, c, x) <==> targets(g, c).contains(x));
            }
        }
        i = i + 1;
    }
    proof {
        assert(cs.take(n as int) == cs);
    }
    // The classes nothing comes before, ascending.
    let mut ready: Vec<RoomId> = Vec::new();
    let mut k: usize = 0;
    while k < n
        invariant
            n == cs.len(),
            cs == classes@,
            k <= n,
            ascending(cs),
            forall|x: RoomId| #[trigger] val_or(incoming@, x, 0usize) == preds_left(cs, g, x, Set::empty()),
            ascending(ready@),
            forall|q: int| 0 <= q < ready@.len() ==> cs.contains(#[trigger] ready@[q]) && val_or(incoming@, ready@[q], 0usize) == 0,
            forall|q: int| 0 <= q < ready@.len() ==> exists|m: int| 0 <= m < k && #[trigger] cs[m] == #[trigger] ready@[q],
            forall|m: int| 0 <= m < k && val_or(incoming@, #[trigger] cs[m], 0usize) == 0 ==> ready@.contains(cs[m]),
        decreases n - k,
    {
        let c = classes[k];
        if get_or(&incoming, c, 0) == 0 {
            let ghost before = ready@;
            ready.push(c);
            proof {
                assert forall|a: int, b: int| 0 <= a < b < ready@.len() implies (#[trigger] ready@[a]).0 < (#[trigger] ready@[b]).0 by {
                    if b == before.len() {
                        let m = choose|m: int| 0 <= m < k && #[trigger] cs[m] == before[a];
                        assert(cs[m].0 < cs[k as int].0);
                    }
                }
                assert(cs.contains(c)) by {
                    assert(cs[k as int] == c);
                }
                assert forall|m: int| 0 <= m < k + 1 && val_or(incoming@, #[trigger] cs[m], 0usize) == 0 implies ready@.contains(cs[m]) by {
                    if m < k {
                        let q = choose|q: int| 0 <= q < before.len() && before[q] == cs[m];
                        assert(ready@[q] == cs[m]);
                    } else {
                        assert(ready@[before.len() as int] == c);
                    }
                }
                assert forall|q: int| 0 <= q < ready@.len() implies exists|m: int| 0 <= m < k + 1 && #[trigger] cs[m] == #[trigger] ready@[q] by {
                    if q == before.len() {
                        assert(cs[k as int] == ready@[q]);
                    } else {
                        assert(ready@[q] == before[q]);
                    }
                }
            }
        }
        k = k + 1;
    }
    let mut rank: IntMap<i32> = IntMap::new();
    let ghost mut done_set: Set<RoomId> = Set::empty();
    let mut done: usize = 0;
    proof {
        assert(remaining(cs, Set::empty()) == cs.len()) by {
            lemma_remaining_all(cs);
        }
        assert forall|x: RoomId| cs.contains(x) && !done_set.contains(x) && val_or(incoming@, x, 0usize) == 0 implies #[trigger] ready@.contains(x) by {
            let m = choose|m: int| 0 <= m < cs.len() && cs[m] == x;
        }
    }
    while ready.len() > 0
        invariant
            n == cs.len(),
            cs == classes@,
            g == graph@,
            n < i32::MAX,
            distinct_rooms(cs),
            lists_ascending(g),
            forall|a: RoomId, b: RoomId| #[trigger] arc(g, a, b) ==> cs.contains(a) && cs.contains(b) && a != b,
            forall|x: RoomId| cs.contains(x) ==> #[trigger] val_or(incoming@, x, 0usize) == preds_left(cs, g, x, done_set),
            ascending(ready@),
            forall|q: int| 0 <= q < ready@.len() ==> cs.contains(#[trigger] ready@[q]) && !done_set.contains(ready@[q])
                && val_or(incoming@, ready@[q], 0usize) == 0,
            forall|x: RoomId| cs.contains(x) && !done_set.contains(x) && val_or(incoming@, x, 0usize) == 0 ==> #[trigger] ready@.contains(x),
            forall|a: RoomId, b: RoomId| done_set.contains(a) && #[trigger] arc(g, a, b) ==> rank_of(rank@, a) < rank_of(rank@, b),
            forall|x: RoomId, p: RoomId| done_set.contains(x) && #[trigger] arc(g, p, x) ==> done_set.contains(p),
            forall|x: RoomId| 0 <= #[trigger] rank_of(rank@, x) <= done,
            forall|x: RoomId| #[trigger] done_set.contains(x) ==> cs.contains(x),
            done + remaining(cs, done_set) == n,
        decreases remaining(cs, done_set),
    {
        let ghost ready0 = ready@;
        let class = ready.pop().unwrap();
        let ghost d0 = done_set;
        let ghost r0 = rank@;
        proof {
            assert(cs.contains(class) && !d0.contains(class) && val_or(incoming@, class, 0usize) == 0);
            lemma_preds_left_facts(cs, g, class, d0);
            lemma_remaining_insert(cs, d0, class);
            lemma_remaining_insert(cs, d0, class);
            done_set = d0.insert(class);
            assert forall|x: RoomId| cs.contains(x) implies preds_left(cs, g, x, done_set) + (if arc(g, class, x) {
                1int
            } else {
                0int
            }) == preds_left(cs, g, x, d0) by {
                lemma_preds_left_insert(cs, g, x, d0, class);
            }
            // Nothing still listed as ready is the class just taken.
            assert(ready@ == ready0.subrange(0, ready0.len() - 1));
            assert(class == ready0[ready0.len() - 1]);
            assert forall|q: int| 0 <= q < ready@.len() implies #[trigger] ready@[q] != class by {
                assert(ready@[q] == ready0[q]);
                assert(ready0[q].0 < ready0[ready0.len() - 1].0);
            }
            assert forall|x: RoomId| cs.contains(x) && !done_set.contains(x) && val_or(incoming@, x, 0usize) == preds_left(cs, g, x, d0)
                && preds_left(cs, g, x, d0) == 0 implies #[trigger] ready@.contains(x) by {
                assert(ready0.contains(x));
                let q = choose|q: int| 0 <= q < ready0.len() && ready0[q] == x;
                assert(q != ready0.len() - 1);
                assert(ready@[q] == x);
            }
        }
        done = done + 1;
        let here = get_or(&rank, class, 0);
        proof {
            assert(rank_of(rank@, class) == here as int);
        }
        match graph.get(class.0 as i64) {
            Some(t) => {
                proof {
                    assert(t@ == targets(g, class));
                    assert(t@.skip(0) == t@);
                    assert(t@.take(0) == Seq::<RoomId>::empty());
                    assert forall|x: RoomId| cs.contains(x) implies #[trigger] val_or(incoming@, x, 0usize) == preds_left(cs, g, x, done_set)
                        + (if t@.skip(0).contains(x) {
                        1int
                    } else {
                        0int
                    }) by {
                        assert(arc(g, class, x) <==> t@.contains(x));
                    }
                    assert forall|x: RoomId| cs.contains(x) && !done_set.contains(x) && val_or(incoming@, x, 0usize) == 0 implies #[trigger] ready@.contains(x) by {
                        if t@.skip(0).contains(x) {
                        } else {
                            assert(arc(g, class, x) <==> t@.contains(x));
                        }
                    }
                }
                let mut j: usize = 0;
                while j < t.len()
                    invariant
                        cs == classes@,
                        g == graph@,
                        distinct_rooms(cs),
                        forall|a: RoomId, b: RoomId| #[trigger] arc(g, a, b) ==> cs.contains(a) && cs.contains(b) && a != b,
                        done_set == d0.insert(class),
                        !d0.contains(class),
                        cs.contains(class),
                        forall|x: RoomId, p: RoomId| d0.contains(x) && #[trigger] arc(g, p, x) ==> d0.contains(p),
                        t@ == targets(g, class),
                        ascending(t@),
                        j <= t@.len(),
                        here as int == rank_of(r0, class),
                        0 <= here < done,
                        done <= n,
                        n < i32::MAX,
                        forall|x: RoomId| cs.contains(x) ==> #[trigger] val_or(incoming@, x, 0usize) == preds_left(cs, g, x, done_set)
                            + (if t@.skip(j as int).contains(x) {
                            1int
                        } else {
                            0int
                        }),
                        forall|x: RoomId| #[trigger] rank_of(rank@, x) == (if t@.take(j as int).contains(x) {
                            if rank_of(r0, x) > here + 1 {
                                rank_of(r0, x)
                            } else {
                                here + 1
                            }
                        } else {
                            rank_of(r0, x)
                        }),
                        // ready: as before, plus the targets whose count fell to nothing.
                        ascending(ready@),
                        forall|q: int| 0 <= q < ready@.len() ==> cs.contains(#[trigger] ready@[q]) && !done_set.contains(ready@[q])
                            && val_or(incoming@, ready@[q], 0usize) == 0,
                        forall|x: RoomId| cs.contains(x) && !done_set.contains(x) && val_or(incoming@, x, 0usize) == 0 ==> #[trigger] ready@.contains(x),
                        forall|x: RoomId| 0 <= #[trigger] rank_of(r0, x) <= done - 1,
                    decreases t.len() - j,
                {
                    let target = t[j];
                    proof {
                        assert(arc(g, class, target));
                        assert(t@.skip(j as int)[0] == target);
                        assert(t@.skip(j as int).contains(target));
                    }
                    let ghost ready1 = ready@;
                    proof {
                        assert(!t@.take(j as int).contains(target)) by {
                            if t@.take(j as int).contains(target) {
                                let q = choose|q: int| 0 <= q < j && t@.take(j as int)[q] == target;
                                assert(t@[q].0 < t@[j as int].0);
                            }
                        }
                        assert(rank_of(rank@, target) == rank_of(r0, target));
                        assert(!done_set.contains(target)) by {
                            if done_set.contains(target) {
                                assert(target != class);
                                assert(d0.contains(target));
                                assert(d0.contains(class));
                            }
                        }
                        assert(cs.contains(target));
                        assert(!ready1.contains(target)) by {
                            if ready1.contains(target) {
                                let q = choose|q: int| 0 <= q < ready1.len() && ready1[q] == target;
                                assert(val_or(incoming@, ready1[q], 0usize) == 0);
                            }
                        }
                    }
                    let slot = get_or(&rank, target, 0);
                    let raised = if slot > here + 1 {
                        slot
                    } else {
                        here + 1
                    };
                    let ghost rank_pre = rank@;
                    put_at(&mut rank, target, raised);
                    let left = get_or(&incoming, target, 0);
                    let left = if left > 0 {
                        left - 1
                    } else {
                        0
                    };
                    put_at(&mut incoming, target, left);
                    if left == 0 {
                        insert_sorted(&mut ready, target);
                    }
                    proof {
                        assert forall|q: int| 0 <= q < ready@.len() implies cs.contains(#[trigger] ready@[q]) && !done_set.contains(ready@[q])
                            && val_or(incoming@, ready@[q], 0usize) == 0 by {
                            assert(ready@.contains(ready@[q]));
                            if ready@[q] != target {
                                assert(ready1.contains(ready@[q]));
                                let q1 = choose|q1: int| 0 <= q1 < ready1.len() && ready1[q1] == ready@[q];
                                assert(val_or(incoming@, ready1[q1], 0usize) == 0);
                            }
                        }
                        assert forall|x: RoomId| cs.contains(x) && !done_set.contains(x) && val_or(incoming@, x, 0usize) == 0 implies #[trigger] ready@.contains(x) by {
                            if x != target {
                                assert(ready1.contains(x));
                            }
                        }
                        assert(t@.skip(j as int) == seq![target] + t@.skip(j as int + 1));
                        assert(!t@.skip(j as int + 1).contains(target)) by {
                            if t@.skip(j as int + 1).contains(target) {
                                let s1 = t@.skip(j as int + 1);
                                let q = choose|q: int| 0 <= q < s1.len() && s1[q] == target;
                                assert(t@[j as int + 1 + q] == target);
                                assert(t@[j as int].0 < t@[j as int + 1 + q].0);
                            }
                        }
                        assert(!t@.take(j as int).contains(target)) by {
                            if t@.take(j as int).contains(target) {
                                let q = choose|q: int| 0 <= q < j && t@.take(j as int)[q] == target;
                                assert(t@[q].0 < t@[j as int].0);
                            }
                        }
                        assert forall|x: RoomId| #[trigger] t@.skip(j as int).contains(x) <==> t@.skip(j as int + 1).contains(x) || x == target by {
                            let s1 = t@.skip(j as int + 1);
                            let s0 = t@.skip(j as int);
                            if s0.contains(x) && x != target {
                                let q = choose|q: int| 0 <= q < s0.len() && s0[q] == x;
                                assert(q != 0);
                                assert(s1[q - 1] == x);
                            }
                            if s1.contains(x) {
                                let q = choose|q: int| 0 <= q < s1.len() && s1[q] == x;
                                assert(s0[q + 1] == x);
                            }
                        }
                        assert forall|x: RoomId| #[trigger] t@.take(j as int + 1).contains(x) <==> t@.take(j as int).contains(x) || x == target by {
                            let tj = t@.take(j as int);
                            assert(t@.take(j as int + 1) == tj.push(target));
                            if tj.push(target).contains(x) && x != target {
                                let q = choose|q: int| 0 <= q < tj.push(target).len() && tj.push(target)[q] == x;
                                assert(tj[q] == x);
                            }
                            if tj.contains(x) {
                                let q = choose|q: int| 0 <= q < tj.len() && tj[q] == x;
                                assert(tj.push(target)[q] == x);
                            }
                            if x == target {
                                assert(tj.push(target)[j as int] == target);
                            }
                        }
                        assert forall|x: RoomId| #[trigger] rank_of(rank@, x) == (if t@.take(j as int + 1).contains(x) {
                            if rank_of(r0, x) > here + 1 {
                                rank_of(r0, x)
                            } else {
                                here + 1
                            }
                        } else {
                            rank_of(r0, x)
                        }) by {
                            assert(t@.take(j as int + 1).contains(x) <==> t@.take(j as int).contains(x) || x == target);
                            assert(val_or(rank@, x, 0i32) == (if x == target {
                                raised
                            } else {
                                val_or(rank_pre, x, 0i32)
                            }));
                            if x == target {
                                assert(slot as int == rank_of(r0, target));
                                assert(t@.take(j as int + 1).contains(x));
                                assert(rank_of(rank@, x) == raised as int);
                            } else {
                                assert(rank_of(rank@, x) == rank_of(rank_pre, x));
                                assert(rank_of(rank_pre, x) == (if t@.take(j as int).contains(x) {
                                    if rank_of(r0, x) > here + 1 {
                                        rank_of(r0, x)
                                    } else {
                                        here + 1
                                    }
                                } else {
                                    rank_of(r0, x)
                                }));
                            }
                        }
                    }
                    j = j + 1;
                }
                proof {
                    assert(t@.skip(t@.len() as int) == Seq::<RoomId>::empty());
                    assert(t@.take(t@.len() as int) == t@);
                }
            },
            None => {
                proof {
                    assert forall|x: RoomId| !arc(g, class, x) by {}
                }
            },
        }
        proof {
            assert forall|a: RoomId, b: RoomId| done_set.contains(a) && #[trigger] arc(g, a, b) implies rank_of(rank@, a) < rank_of(rank@, b) by {
                if a == class {
                    assert(targets(g, class).contains(b));
                }
            }
        }
    }
    let ghost d_end = done_set;
    proof {
        if exists|f: Map<RoomId, int>| #[trigger] climbs(g, f) {
            let f = choose|f: Map<RoomId, int>| #[trigger] climbs(g, f);
            if remaining(cs, d_end) > 0 {
                lemma_remaining_min(cs, d_end, f);
                let c = choose|c: RoomId| #![trigger cs.contains(c)] cs.contains(c) && !d_end.contains(c) && forall|x: RoomId| cs.contains(x) && !d_end.contains(x) ==> f[c] <= #[trigger] f[x];
                lemma_preds_left_facts(cs, g, c, d_end);
                if preds_left(cs, g, c, d_end) > 0 {
                    let p = choose|p: RoomId| cs.contains(p) && #[trigger] arc(g, p, c) && !d_end.contains(p);
                    assert(f[p] < f[c]);
                    assert(f[c] <= f[p]);
                }
                assert(ready@.contains(c));
            }
        }
        if done == n {
            lemma_remaining_done(cs, d_end);
        }
    }
    (rank, done)
}

proof fn lemma_remaining_all(cs: Seq<RoomId>)
    ensures
        remaining(cs, Set::empty()) == cs.len(),
    decreases cs.len(),
{
    if cs.len() > 0 {
        lemma_remaining_all(cs.drop_last());
    }
}

proof fn lemma_remaining_done(cs: Seq<RoomId>, d: Set<RoomId>)
    requires
        remaining(cs, d) == 0,
    ensures
        forall|x: RoomId| #[trigger] cs.contains(x) ==> d.contains(x),
    decreases cs.len(),
{
    if cs.len() > 0 {
        lemma_remaining_done(cs.drop_last(), d);
        assert forall|x: RoomId| #[trigger] cs.contains(x) implies d.contains(x) by {
            let i = choose|i: int| 0 <= i < cs.len() && cs[i] == x;
            if i < cs.len() - 1 {
                assert(cs.drop_last()[i] == x);
                assert(cs.drop_last().contains(x));
            } else {
                assert(cs.last() == x);
            }
        }
    }
}


/// The least rank among these classes, if there are any.
pub open spec fn min_rank(ts: Seq<RoomId>, m: Map<i64, i32>) -> Option<int>
    decreases ts.len(),
{
    if ts.len() == 0 {
        None
    } else {
        match min_rank(ts.drop_last(), m) {
            Some(h) => if rank_of(m, ts.last()) < h {
                Some(rank_of(m, ts.last()))
            } else {
                Some(h)
            },
            None => Some(rank_of(m, ts.last())),
        }
    }
}

proof fn lemma_min_rank(ts: Seq<RoomId>, m: Map<i64, i32>, v: int)
    ensures
        ts.len() > 0 <==> min_rank(ts, m) is Some,
        forall|b: RoomId| ts.contains(b) ==> (min_rank(ts, m) matches Some(h) && h <= #[trigger] rank_of(m, b)),
        (forall|b: RoomId| ts.contains(b) ==> v < #[trigger] rank_of(m, b)) ==> (min_rank(ts, m) matches Some(h) ==> v < h),
        (forall|b: RoomId| ts.contains(b) ==> 0 <= #[trigger] rank_of(m, b)) ==> (min_rank(ts, m) matches Some(h) ==> 0 <= h),
        (forall|b: RoomId| ts.contains(b) ==> #[trigger] rank_of(m, b) <= v) ==> (min_rank(ts, m) matches Some(h) ==> h <= v),
    decreases ts.len(),
{
    if ts.len() > 0 {
        let d = ts.drop_last();
        lemma_min_rank(d, m, v);
        assert forall|b: RoomId| d.contains(b) implies ts.contains(b) by {
            let i = choose|i: int| 0 <= i < d.len() && d[i] == b;
            assert(ts[i] == b);
        }
        assert forall|b: RoomId| ts.contains(b) implies d.contains(b) || b == ts.last() by {
            let i = choose|i: int| 0 <= i < ts.len() && ts[i] == b;
            if i < ts.len() - 1 {
                assert(d[i] == b);
            }
        }
        assert(ts.contains(ts.last())) by {
            assert(ts[ts.len() - 1] == ts.last());
        }
    }
}

fn min_rank_exec(ts: &Vec<RoomId>, rank: &IntMap<i32>) -> (r: Option<i32>)
    ensures
        match r {
            Some(h) => min_rank(ts@, rank@) == Some(h as int),
            None => min_rank(ts@, rank@) is None,
        },
{
    let mut best: Option<i32> = None;
    let mut i: usize = 0;
    while i < ts.len()
        invariant
            i <= ts@.len(),
            match best {
                Some(h) => min_rank(ts@.take(i as int), rank@) == Some(h as int),
                None => min_rank(ts@.take(i as int), rank@) is None,
            },
        decreases ts.len() - i,
    {
        proof {
            assert(ts@.take(i as int + 1).drop_last() == ts@.take(i as int));
            assert(ts@.take(i as int + 1).last() == ts@[i as int]);
        }
        let v = get_or(rank, ts[i], 0);
        best = match best {
            Some(h) => if v < h {
                Some(v)
            } else {
                Some(h)
            },
            None => Some(v),
        };
        i = i + 1;
    }
    proof {
        assert(ts@.take(ts@.len() as int) == ts@);
    }
    best
}

/// How many of the rooms fall in class `c`.
pub open spec fn class_size(rooms: Seq<RoomId>, u: Union, c: RoomId) -> nat
    decreases rooms.len(),
{
    if rooms.len() == 0 {
        0
    } else {
        class_size(rooms.drop_last(), u, c) + (if u.class(rooms.last()) == c {
            1nat
        } else {
            0nat
        })
    }
}

proof fn lemma_class_size_two(rooms: Seq<RoomId>, u: Union, a: RoomId, b: RoomId)
    requires
        rooms.contains(a),
        rooms.contains(b),
        a != b,
        u.class(a) == u.class(b),
    ensures
        class_size(rooms, u, u.class(a)) >= 2,
    decreases rooms.len(),
{
    let d = rooms.drop_last();
    let l = rooms.last();
    let ia = choose|i: int| 0 <= i < rooms.len() && rooms[i] == a;
    let ib = choose|i: int| 0 <= i < rooms.len() && rooms[i] == b;
    if ia < rooms.len() - 1 && ib < rooms.len() - 1 {
        assert(d[ia] == a && d[ib] == b);
        lemma_class_size_two(d, u, a, b);
    } else {
        let other = if ia == rooms.len() - 1 {
            b
        } else {
            a
        };
        let io = if ia == rooms.len() - 1 {
            ib
        } else {
            ia
        };
        assert(io < rooms.len() - 1);
        assert(d[io] == other);
        lemma_class_size_one(d, u, other);
    }
}

proof fn lemma_class_size_same(rooms: Seq<RoomId>, u1: Union, u2: Union, c: RoomId)
    requires
        forall|x: RoomId| #[trigger] u1.class(x) == u2.class(x),
    ensures
        class_size(rooms, u1, c) == class_size(rooms, u2, c),
    decreases rooms.len(),
{
    if rooms.len() > 0 {
        lemma_class_size_same(rooms.drop_last(), u1, u2, c);
        assert(u1.class(rooms.last()) == u2.class(rooms.last()));
    }
}

proof fn lemma_class_size_one(rooms: Seq<RoomId>, u: Union, a: RoomId)
    requires
        rooms.contains(a),
    ensures
        class_size(rooms, u, u.class(a)) >= 1,
    decreases rooms.len(),
{
    let d = rooms.drop_last();
    let i = choose|i: int| 0 <= i < rooms.len() && rooms[i] == a;
    if i < rooms.len() - 1 {
        assert(d[i] == a);
        lemma_class_size_one(d, u, a);
    }
}

/// The first bound recorded for a room.
pub open spec fn bound_of(bounds: Seq<(RoomId, Option<i32>, Option<i32>)>, r: RoomId) -> Option<(Option<i32>, Option<i32>)>
    decreases bounds.len(),
{
    if bounds.len() == 0 {
        None
    } else if bounds[0].0 == r {
        Some((bounds[0].1, bounds[0].2))
    } else {
        bound_of(bounds.drop_first(), r)
    }
}

/// One axis, ranked.
pub struct Ranked {
    union: Union,
    graph: IntMap<Vec<RoomId>>,
    /// Every class, ascending.
    classes: Vec<RoomId>,
    rank: IntMap<i32>,
    /// Rooms no constraint touches on this axis.
    free: Vec<RoomId>,
    /// Per room alone in its class: the nearest predecessor's and
    /// successor's ranks, the coordinates it must sit strictly between.
    bounds: Vec<(RoomId, Option<i32>, Option<i32>)>,
}

impl Ranked {
    /// The rank of a room's class.
    pub closed spec fn rank_at(&self, r: RoomId) -> int {
        rank_of(self.rank@, self.union.class(r))
    }

    /// Whether `v` is a coordinate the room may take on this axis without
    /// breaking a constraint: anything for a free room; for a room alone
    /// in its class, from its rank up to just short of its nearest
    /// successor; exactly the rank otherwise.
    pub closed spec fn fits(&self, r: RoomId, v: int) -> bool {
        if self.free@.contains(r) {
            true
        } else {
            match bound_of(self.bounds@, r) {
                Some((_, hi)) => self.rank_at(r) <= v && (hi matches Some(h) ==> v <= h - 1),
                None => v == self.rank_at(r),
            }
        }
    }

    pub closed spec fn wf(&self) -> bool {
        &&& self.union.wf()
        &&& forall|q: int| 0 <= q < self.bounds@.len() ==> ((#[trigger] self.bounds@[q]).2 matches Some(h) ==> h >= 0)
    }

    /// Every assignment in which each room fits keeps every constraint,
    /// and the ranks themselves fit.
    pub closed spec fn sound(&self, rooms: Seq<RoomId>, edges: Seq<AxisEdge>) -> bool {
        &&& self.wf()
        &&& forall|f: Map<RoomId, int>|
            (forall|r: RoomId| rooms.contains(r) ==> #[trigger] self.fits(r, f[r])) ==> #[trigger] keeps_all(f, edges)
        &&& forall|r: RoomId| rooms.contains(r) ==> #[trigger] self.fits(r, self.rank_at(r))
        &&& forall|r: RoomId| #[trigger] self.rank_at(r) >= 0
        &&& forall|r: RoomId| #[trigger] self.rank_at(r) <= rooms.len()
        &&& self.orders(edges)
        &&& forall|r: RoomId| rooms.contains(r) ==> self.classes@.contains(#[trigger] self.union.class(r))
    }

    /// The classes and their arcs say what the constraints say: an
    /// equality binds one class, a strict order runs along an arc, and
    /// every arc joins two listed classes.
    pub closed spec fn orders(&self, edges: Seq<AxisEdge>) -> bool {
        &&& forall|k: int| 0 <= k < edges.len() && (#[trigger] edges[k]).equal ==> self.union.class(edges[k].from) == self.union.class(edges[k].to)
        &&& forall|k: int| 0 <= k < edges.len() && !(#[trigger] edges[k]).equal ==> arc(self.graph@, self.union.class(edges[k].from), self.union.class(edges[k].to))
        &&& ascending(self.classes@)
        &&& forall|a: RoomId, b: RoomId| #[trigger] arc(self.graph@, a, b) ==> self.classes@.contains(a) && self.classes@.contains(b) && a != b
    }

    /// A room's class.
    fn class_of(&mut self, room: RoomId) -> (c: RoomId)
        requires
            old(self).wf(),
        ensures
            c == old(self).union.class(room),
            final(self).wf(),
            forall|r: RoomId, x: int| #[trigger] final(self).fits(r, x) == old(self).fits(r, x),
            forall|r: RoomId| #[trigger] final(self).rank_at(r) == old(self).rank_at(r),
            forall|rooms: Seq<RoomId>, edges: Seq<AxisEdge>| #[trigger] old(self).sound(rooms, edges) ==> final(self).sound(rooms, edges),
            final(self).free@ == old(self).free@,
            final(self).bounds@ == old(self).bounds@,
            final(self).graph@ == old(self).graph@,
            final(self).classes@ == old(self).classes@,
            forall|x: RoomId| #[trigger] final(self).union.class(x) == old(self).union.class(x),
            forall|edges: Seq<AxisEdge>| #[trigger] old(self).orders(edges) ==> final(self).orders(edges),
    {
        let c = self.union.find(room);
        proof {
            assert forall|r: RoomId| #[trigger] self.rank_at(r) == old(self).rank_at(r) by {}
            assert forall|r: RoomId, x: int| #[trigger] self.fits(r, x) == old(self).fits(r, x) by {
                assert(self.rank_at(r) == old(self).rank_at(r));
            }
            assert forall|rooms: Seq<RoomId>, edges: Seq<AxisEdge>| #[trigger] old(self).sound(rooms, edges) implies self.sound(rooms, edges) by {
                assert forall|f: Map<RoomId, int>|
                    (forall|r: RoomId| rooms.contains(r) ==> #[trigger] self.fits(r, f[r])) implies #[trigger] keeps_all(f, edges) by {
                    assert forall|r: RoomId| rooms.contains(r) implies #[trigger] old(self).fits(r, f[r]) by {
                        assert(self.fits(r, f[r]));
                    }
                }
                assert forall|r: RoomId| rooms.contains(r) implies #[trigger] self.fits(r, self.rank_at(r)) by {
                    assert(old(self).fits(r, old(self).rank_at(r)));
                }
                assert(old(self).orders(edges));
                assert forall|r: RoomId| rooms.contains(r) implies self.classes@.contains(#[trigger] self.union.class(r)) by {
                    assert(old(self).classes@.contains(old(self).union.class(r)));
                }
            }
            assert forall|edges: Seq<AxisEdge>| #[trigger] old(self).orders(edges) implies self.orders(edges) by {}
        }
        c
    }

    /// The rank of a room's class.
    fn at(&mut self, room: RoomId) -> (v: i32)
        requires
            old(self).wf(),
        ensures
            v as int == old(self).rank_at(room),
            final(self).wf(),
            forall|r: RoomId, x: int| #[trigger] final(self).fits(r, x) == old(self).fits(r, x),
            forall|r: RoomId| #[trigger] final(self).rank_at(r) == old(self).rank_at(r),
            forall|rooms: Seq<RoomId>, edges: Seq<AxisEdge>| #[trigger] old(self).sound(rooms, edges) ==> final(self).sound(rooms, edges),
            final(self).free@ == old(self).free@,
            final(self).bounds@ == old(self).bounds@,
            final(self).graph@ == old(self).graph@,
            final(self).classes@ == old(self).classes@,
            forall|x: RoomId| #[trigger] final(self).union.class(x) == old(self).union.class(x),
            forall|edges: Seq<AxisEdge>| #[trigger] old(self).orders(edges) ==> final(self).orders(edges),
    {
        let c = self.union.find(room);
        let v = get_or(&self.rank, c, 0);
        proof {
            assert forall|r: RoomId| #[trigger] self.rank_at(r) == old(self).rank_at(r) by {}
            assert forall|r: RoomId, x: int| #[trigger] self.fits(r, x) == old(self).fits(r, x) by {
                assert(self.rank_at(r) == old(self).rank_at(r));
            }
            assert forall|rooms: Seq<RoomId>, edges: Seq<AxisEdge>| #[trigger] old(self).sound(rooms, edges) implies self.sound(rooms, edges) by {
                assert forall|f: Map<RoomId, int>|
                    (forall|r: RoomId| rooms.contains(r) ==> #[trigger] self.fits(r, f[r])) implies #[trigger] keeps_all(f, edges) by {
                    assert forall|r: RoomId| rooms.contains(r) implies #[trigger] old(self).fits(r, f[r]) by {
                        assert(self.fits(r, f[r]));
                    }
                }
                assert forall|r: RoomId| rooms.contains(r) implies #[trigger] self.fits(r, self.rank_at(r)) by {
                    assert(old(self).fits(r, old(self).rank_at(r)));
                }
                assert(old(self).orders(edges));
                assert forall|r: RoomId| rooms.contains(r) implies self.classes@.contains(#[trigger] self.union.class(r)) by {
                    assert(old(self).classes@.contains(old(self).union.class(r)));
                }
            }
            assert forall|edges: Seq<AxisEdge>| #[trigger] old(self).orders(edges) implies self.orders(edges) by {}
        }
        v
    }

    /// Where a room may sit on this axis without breaking an order, given
    /// where it is now: anywhere on an axis nothing constrains; for a room
    /// alone in its class, from where it is up to just short of its
    /// nearest successor (a move upward is safe against every successor,
    /// which stays at or above its rank); nowhere else otherwise.
    fn range(&self, room: RoomId, now: i32) -> (r: (i32, i32))
        requires
            self.wf(),
        ensures
            self.fits(room, now as int) ==> forall|v: int| r.0 <= v <= r.1 ==> #[trigger] self.fits(room, v),
    {
        if holds_room(self.free.as_slice(), room) {
            return (i32::MIN / 2, i32::MAX / 2);
        }
        let mut i: usize = 0;
        assert(self.bounds@.skip(0) == self.bounds@);
        while i < self.bounds.len()
            invariant
                self.wf(),
                i <= self.bounds@.len(),
                bound_of(self.bounds@, room) == bound_of(self.bounds@.skip(i as int), room),
            decreases self.bounds.len() - i,
        {
            proof {
                assert(self.bounds@.skip(i as int).drop_first() == self.bounds@.skip(i as int + 1));
            }
            if self.bounds[i].0.0 == room.0 {
                let hi = self.bounds[i].2;
                proof {
                    assert(self.bounds@[i as int] == self.bounds@.skip(i as int)[0]);
                }
                return match hi {
                    Some(h) => (now, h - 1),
                    None => (now, i32::MAX / 2),
                };
            }
            i = i + 1;
        }
        (now, now)
    }
}


/// The alignment classes of one axis: every equality joined.
fn align(rooms: &[RoomId], edges: &Vec<AxisEdge>) -> (u: Union)
    requires
        forall|k: int| 0 <= k < edges@.len() ==> rooms@.contains((#[trigger] edges@[k]).from) && rooms@.contains(edges@[k].to),
    ensures
        u.wf(),
        forall|r: RoomId| #[trigger] u.rooms().contains(r) <==> rooms@.contains(r),
        u.respects(edges@),
        forall|k: int| 0 <= k < edges@.len() && (#[trigger] edges@[k]).equal ==> u.class(edges@[k].from) == u.class(edges@[k].to),
{
    let ghost es = edges@;
    let mut union = Union::new(rooms);
    assert(es.take(0) == Seq::<AxisEdge>::empty());
    let mut i: usize = 0;
    while i < edges.len()
        invariant
            es == edges@,
            i <= es.len(),
            forall|k: int| 0 <= k < es.len() ==> rooms@.contains((#[trigger] es[k]).from) && rooms@.contains(es[k].to),
            union.wf(),
            forall|r: RoomId| #[trigger] union.rooms().contains(r) <==> rooms@.contains(r),
            union.respects(es.take(i as int)),
            forall|k: int| 0 <= k < i && (#[trigger] es[k]).equal ==> union.class(es[k].from) == union.class(es[k].to),
        decreases edges.len() - i,
    {
        let e = edges[i];
        proof {
            assert(es.take(i as int + 1) == es.take(i as int).push(e));
        }
        if e.equal {
            let ghost before = union;
            union.join(e.from, e.to);
            proof {
                assert forall|k: int| 0 <= k < i + 1 && (#[trigger] es[k]).equal implies union.class(es[k].from) == union.class(es[k].to) by {
                    if k < i {
                        assert(before.class(es[k].from) == before.class(es[k].to));
                    }
                }
            }
        } else {
            proof {
                union.lemma_respects_push(es.take(i as int), e);
            }
        }
        i = i + 1;
    }
    proof {
        assert(es.take(es.len() as int) == es);
    }
    union
}

/// Whether anything comes strictly before class `c`.
pub open spec fn has_pred(g: Map<i64, Vec<RoomId>>, c: RoomId) -> bool {
    exists|p: RoomId| #[trigger] arc(g, p, c)
}

/// For each class, whether anything comes before it.
fn preds_flags(classes: &Vec<RoomId>, graph: &IntMap<Vec<RoomId>>) -> (f: IntMap<bool>)
    requires
        forall|a: RoomId, b: RoomId| #[trigger] arc(graph@, a, b) ==> classes@.contains(a),
    ensures
        forall|x: RoomId| #[trigger] val_or(f@, x, false) == has_pred(graph@, x),
{
    let ghost g = graph@;
    let mut flags: IntMap<bool> = IntMap::new();
    let mut i: usize = 0;
    while i < classes.len()
        invariant
            g == graph@,
            i <= classes@.len(),
            forall|x: RoomId| #[trigger] val_or(flags@, x, false) == exists|k: int| 0 <= k < i && #[trigger] arc(g, classes@[k], x),
        decreases classes.len() - i,
    {
        let c = classes[i];
        match graph.get(c.0 as i64) {
            Some(t) => {
                let ghost f0 = flags@;
                let mut j: usize = 0;
                while j < t.len()
                    invariant
                        g == graph@,
                        i < classes@.len(),
                        c == classes@[i as int],
                        t@ == targets(g, c),
                        j <= t@.len(),
                        forall|x: RoomId| #[trigger] val_or(flags@, x, false) == (val_or(f0, x, false) || t@.take(j as int).contains(x)),
                        forall|x: RoomId| #[trigger] val_or(f0, x, false) == exists|k: int| 0 <= k < i && #[trigger] arc(g, classes@[k], x),
                    decreases t.len() - j,
                {
                    let x = t[j];
                    put_at(&mut flags, x, true);
                    proof {
                        assert forall|y: RoomId| #[trigger] val_or(flags@, y, false) == (val_or(f0, y, false) || t@.take(j as int + 1).contains(y)) by {
                            let tj = t@.take(j as int);
                            assert(t@.take(j as int + 1) == tj.push(x));
                            if tj.push(x).contains(y) && y != x {
                                let q = choose|q: int| 0 <= q < tj.push(x).len() && tj.push(x)[q] == y;
                                assert(tj[q] == y);
                            }
                            if tj.contains(y) {
                                let q = choose|q: int| 0 <= q < tj.len() && tj[q] == y;
                                assert(tj.push(x)[q] == y);
                            }
                            if y == x {
                                assert(tj.push(x)[j as int] == x);
                            }
                        }
                    }
                    j = j + 1;
                }
                proof {
                    assert(t@.take(t@.len() as int) == t@);
                }
            },
            None => {},
        }
        proof {
            assert forall|x: RoomId| #[trigger] val_or(flags@, x, false) == exists|k: int| 0 <= k < i + 1 && #[trigger] arc(g, classes@[k], x) by {
                if arc(g, c, x) {
                    assert(arc(g, classes@[i as int], x));
                }
                if exists|k: int| 0 <= k < i + 1 && #[trigger] arc(g, classes@[k], x) {
                    let k = choose|k: int| 0 <= k < i + 1 && #[trigger] arc(g, classes@[k], x);
                    if k < i {
                        assert(exists|k: int| 0 <= k < i && #[trigger] arc(g, classes@[k], x));
                    }
                }
            }
        }
        i = i + 1;
    }
    proof {
        assert forall|x: RoomId| #[trigger] val_or(flags@, x, false) == has_pred(g, x) by {
            if has_pred(g, x) {
                let p = choose|p: RoomId| #[trigger] arc(g, p, x);
                let k = choose|k: int| 0 <= k < classes@.len() && classes@[k] == p;
                assert(arc(g, classes@[k], x));
            }
        }
    }
    flags
}

/// The rank `pull_sources` leaves class `x`: one before its nearest
/// successor, for a listed class nothing comes before that has one; its
/// old rank otherwise.
pub open spec fn pulled_rank(g: Map<i64, Vec<RoomId>>, r0: Map<i64, i32>, classes: Seq<RoomId>, x: RoomId) -> int {
    if classes.contains(x) && !has_pred(g, x) && min_rank(targets(g, x), r0) is Some {
        min_rank(targets(g, x), r0).unwrap() - 1
    } else {
        rank_of(r0, x)
    }
}

/// Ranks that agree on every listed class give the same least rank.
proof fn lemma_min_rank_same(ts: Seq<RoomId>, m1: Map<i64, i32>, m2: Map<i64, i32>)
    requires
        forall|k: int| 0 <= k < ts.len() ==> rank_of(m1, #[trigger] ts[k]) == rank_of(m2, ts[k]),
    ensures
        min_rank(ts, m1) == min_rank(ts, m2),
    decreases ts.len(),
{
    if ts.len() > 0 {
        lemma_min_rank_same(ts.drop_last(), m1, m2);
        assert(rank_of(m1, ts[ts.len() - 1]) == rank_of(m2, ts[ts.len() - 1]));
    }
}

/// A class nothing comes before is pulled up to just before its nearest
/// successor: rank 0 is the origin, and a room merely west of something
/// belongs beside it.
fn pull_sources(classes: &Vec<RoomId>, graph: &IntMap<Vec<RoomId>>, preds: &IntMap<bool>, rank: &mut IntMap<i32>)
    requires
        forall|x: RoomId| #[trigger] val_or(preds@, x, false) == has_pred(graph@, x),
        forall|a: RoomId, b: RoomId| #[trigger] arc(graph@, a, b) ==> rank_of(old(rank)@, a) < rank_of(old(rank)@, b),
        forall|x: RoomId| 0 <= #[trigger] rank_of(old(rank)@, x) <= classes@.len(),
        classes@.len() < i32::MAX,
    ensures
        forall|a: RoomId, b: RoomId| #[trigger] arc(graph@, a, b) ==> rank_of(final(rank)@, a) < rank_of(final(rank)@, b),
        forall|x: RoomId| 0 <= #[trigger] rank_of(final(rank)@, x) <= classes@.len(),
        forall|x: RoomId| #[trigger] rank_of(final(rank)@, x) == pulled_rank(graph@, old(rank)@, classes@, x),
{
    let ghost g = graph@;
    let ghost r0 = rank@;
    let mut i: usize = 0;
    while i < classes.len()
        invariant
            g == graph@,
            i <= classes@.len(),
            classes@.len() < i32::MAX,
            forall|x: RoomId| #[trigger] val_or(preds@, x, false) == has_pred(g, x),
            forall|a: RoomId, b: RoomId| #[trigger] arc(g, a, b) ==> rank_of(r0, a) < rank_of(r0, b),
            forall|x: RoomId| 0 <= #[trigger] rank_of(r0, x) <= classes@.len(),
            forall|x: RoomId| has_pred(g, x) ==> #[trigger] rank_of(rank@, x) == rank_of(r0, x),
            forall|a: RoomId, b: RoomId| #[trigger] arc(g, a, b) ==> rank_of(rank@, a) < rank_of(rank@, b),
            forall|x: RoomId| 0 <= #[trigger] rank_of(rank@, x) <= classes@.len(),
            forall|x: RoomId| #[trigger] rank_of(rank@, x) == pulled_rank(g, r0, classes@.take(i as int), x),
        decreases classes.len() - i,
    {
        let class = classes[i];
        let ghost r1 = rank@;
        proof {
            assert forall|x: RoomId| x != class implies pulled_rank(g, r0, classes@.take(i + 1), x) == pulled_rank(
                g,
                r0,
                classes@.take(i as int),
                x,
            ) by {
                if classes@.take(i + 1).contains(x) {
                    let q = choose|q: int| 0 <= q < i + 1 && #[trigger] classes@.take(i + 1)[q] == x;
                    assert(q < i);
                    assert(classes@.take(i as int)[q] == x);
                }
                if classes@.take(i as int).contains(x) {
                    let q = choose|q: int| 0 <= q < i && #[trigger] classes@.take(i as int)[q] == x;
                    assert(classes@.take(i + 1)[q] == x);
                }
            }
            assert(classes@.take(i + 1)[i as int] == class);
            assert(classes@.take(i + 1).contains(class));
            assert forall|k: int| 0 <= k < targets(g, class).len() implies rank_of(r1, #[trigger] targets(g, class)[k])
                == rank_of(r0, targets(g, class)[k]) by {
                assert(arc(g, class, targets(g, class)[k]));
                assert(has_pred(g, targets(g, class)[k]));
            }
            lemma_min_rank_same(targets(g, class), r1, r0);
            if classes@.take(i as int).contains(class) {
                assert(rank_of(r1, class) == pulled_rank(g, r0, classes@.take(i + 1), class));
            }
        }
        if !get_or(preds, class, false) {
            match graph.get(class.0 as i64) {
                Some(t) => {
                    assert(t@ == targets(g, class));
                    match min_rank_exec(t, rank) {
                        Some(nearest) => {
                            proof {
                                lemma_min_rank(t@, rank@, rank_of(rank@, class));
                                assert forall|b: RoomId| t@.contains(b) implies rank_of(rank@, class) < #[trigger] rank_of(rank@, b) && 1 <= rank_of(rank@, b) by {
                                    assert(arc(g, class, b));
                                    assert(has_pred(g, b));
                                    assert(rank_of(r0, class) < rank_of(r0, b));
                                }
                                lemma_min_rank(t@, rank@, 0);
                                lemma_min_rank(t@, rank@, classes@.len() as int);
                                assert(0 < nearest <= classes@.len());
                            }
                            let ghost before = rank@;
                            put_at(rank, class, nearest - 1);
                            proof {
                                assert forall|x: RoomId| 0 <= #[trigger] rank_of(rank@, x) <= classes@.len() by {
                                    if x != class {
                                        assert(rank_of(rank@, x) == rank_of(before, x));
                                    }
                                }
                                assert forall|a: RoomId, b: RoomId| #[trigger] arc(g, a, b) implies rank_of(rank@, a) < rank_of(rank@, b) by {
                                    assert(has_pred(g, b));
                                    assert(b != class);
                                    if a == class {
                                        assert(t@.contains(b));
                                    }
                                }
                                assert forall|x: RoomId| has_pred(g, x) implies #[trigger] rank_of(rank@, x) == rank_of(r0, x) by {
                                    assert(x != class);
                                }
                                assert(min_rank(targets(g, class), r0) == Some(nearest as int));
                                assert(rank_of(rank@, class) == pulled_rank(g, r0, classes@.take(i + 1), class));
                            }
                        },
                        None => {
                            assert(min_rank(targets(g, class), r0) is None);
                        },
                    }
                },
                None => {
                    assert(targets(g, class) =~= Seq::<RoomId>::empty());
                },
            }
        }
        proof {
            assert(rank_of(rank@, class) == pulled_rank(g, r0, classes@.take(i + 1), class));
            assert forall|x: RoomId| #[trigger] rank_of(rank@, x) == pulled_rank(g, r0, classes@.take(i + 1), x) by {
                if x != class {
                    assert(rank_of(rank@, x) == rank_of(r1, x));
                }
            }
        }
        i = i + 1;
    }
    assert(classes@.take(i as int) =~= classes@);
    assert forall|x: RoomId| #[trigger] rank_of(rank@, x) == pulled_rank(graph@, r0, classes@, x) by {
        assert(rank_of(rank@, x) == pulled_rank(g, r0, classes@.take(i as int), x));
    }
}

/// How many of the rooms fall in each class.
fn class_sizes(rooms: &[RoomId], union: &mut Union) -> (sizes: IntMap<usize>)
    requires
        old(union).wf(),
    ensures
        forall|c: RoomId| #[trigger] val_or(sizes@, c, 0usize) == class_size(rooms@, *old(union), c),
        final(union).wf(),
        final(union).rooms() == old(union).rooms(),
        forall|x: RoomId| #[trigger] final(union).class(x) == old(union).class(x),
        forall|eqs: Seq<AxisEdge>| old(union).respects(eqs) ==> #[trigger] final(union).respects(eqs),
{
    let ghost u0 = *union;
    let mut sizes: IntMap<usize> = IntMap::new();
    let mut i: usize = 0;
    while i < rooms.len()
        invariant
            i <= rooms@.len(),
            union.wf(),
            union.rooms() == u0.rooms(),
            forall|x: RoomId| #[trigger] union.class(x) == u0.class(x),
            forall|eqs: Seq<AxisEdge>| u0.respects(eqs) ==> #[trigger] union.respects(eqs),
            forall|c: RoomId| #[trigger] val_or(sizes@, c, 0usize) == class_size(rooms@.take(i as int), u0, c),
            forall|c: RoomId| #[trigger] class_size(rooms@.take(i as int), u0, c) <= i,
        decreases rooms.len() - i,
    {
        let c = union.find(rooms[i]);
        proof {
            assert(rooms@.take(i as int + 1).drop_last() == rooms@.take(i as int));
            assert(rooms@.take(i as int + 1).last() == rooms@[i as int]);
        }
        let v = get_or(&sizes, c, 0);
        put_at(&mut sizes, c, v + 1);
        proof {
            assert forall|d: RoomId| #[trigger] class_size(rooms@.take(i as int + 1), u0, d) <= i + 1 by {
                assert(class_size(rooms@.take(i as int), u0, d) <= i);
            }
            assert forall|d: RoomId| #[trigger] val_or(sizes@, d, 0usize) == class_size(rooms@.take(i as int + 1), u0, d) by {
                assert(class_size(rooms@.take(i as int), u0, d) <= i);
            }
        }
        i = i + 1;
    }
    proof {
        assert(rooms@.take(rooms@.len() as int) == rooms@);
    }
    sizes
}


proof fn lemma_bound_push(b: Seq<(RoomId, Option<i32>, Option<i32>)>, e: (RoomId, Option<i32>, Option<i32>), r: RoomId)
    ensures
        bound_of(b.push(e), r) == (if bound_of(b, r) is Some {
            bound_of(b, r)
        } else if e.0 == r {
            Some((e.1, e.2))
        } else {
            None
        }),
    decreases b.len(),
{
    let be = b.push(e);
    if b.len() > 0 {
        assert(be.drop_first() == b.drop_first().push(e));
        assert(be[0] == b[0]);
        lemma_bound_push(b.drop_first(), e, r);
        if b[0].0 == r {
            assert(bound_of(be, r) == Some((b[0].1, b[0].2)));
            assert(bound_of(b, r) == Some((b[0].1, b[0].2)));
        } else {
            assert(bound_of(be, r) == bound_of(be.drop_first(), r));
            assert(bound_of(b, r) == bound_of(b.drop_first(), r));
        }
    } else {
        assert(be[0] == e);
        assert(be.drop_first() == Seq::<(RoomId, Option<i32>, Option<i32>)>::empty());
        assert(bound_of(be.drop_first(), r) is None);
        assert(bound_of(b, r) is None);
    }
}

/// The least successor rank, as the search reads it.
pub open spec fn hi_matches(hi: Option<i32>, m: Option<int>) -> bool {
    match (hi, m) {
        (Some(h), Some(v)) => h as int == v,
        (None, None) => true,
        _ => false,
    }
}

/// Which rooms nothing constrains on this axis, and, for each room alone
/// in its class, the ranks of its nearest predecessor and successor.
fn freedom(
    rooms: &[RoomId],
    graph: &IntMap<Vec<RoomId>>,
    rank: &IntMap<i32>,
    preds: &IntMap<bool>,
    sizes: &IntMap<usize>,
    classes: &Vec<RoomId>,
    union: &mut Union,
) -> (r: (Vec<RoomId>, Vec<(RoomId, Option<i32>, Option<i32>)>))
    requires
        old(union).wf(),
        forall|x: RoomId| #[trigger] val_or(preds@, x, false) == has_pred(graph@, x),
        forall|c: RoomId| #[trigger] val_or(sizes@, c, 0usize) == class_size(rooms@, *old(union), c),
        forall|x: RoomId| #[trigger] rank_of(rank@, x) >= 0,
    ensures
        forall|q: int| 0 <= q < r.1@.len() ==> ((#[trigger] r.1@[q]).2 matches Some(h) ==> h >= 0),
        final(union).wf(),
        final(union).rooms() == old(union).rooms(),
        forall|x: RoomId| #[trigger] final(union).class(x) == old(union).class(x),
        forall|eqs: Seq<AxisEdge>| old(union).respects(eqs) ==> #[trigger] final(union).respects(eqs),
        forall|x: RoomId| #[trigger] r.0@.contains(x) <==> rooms@.contains(x) && !has_pred(graph@, old(union).class(x))
            && targets(graph@, old(union).class(x)).len() == 0 && class_size(rooms@, *old(union), old(union).class(x)) == 1,
        forall|x: RoomId| #[trigger] bound_of(r.1@, x) is Some <==> rooms@.contains(x) && class_size(rooms@, *old(union), old(union).class(x)) == 1,
        forall|x: RoomId| #[trigger] bound_of(r.1@, x) matches Some((_, hi)) ==> hi_matches(hi, min_rank(targets(graph@, old(union).class(x)), rank@)),
{
    let ghost u0 = *union;
    let ghost g = graph@;
    // The nearest predecessor's rank, per class.
    let mut nearest: IntMap<i32> = IntMap::new();
    let mut i: usize = 0;
    while i < classes.len()
        invariant
            i <= classes@.len(),
        decreases classes.len() - i,
    {
        let from = classes[i];
        let r = get_or(rank, from, 0);
        match graph.get(from.0 as i64) {
            Some(t) => {
                let mut j: usize = 0;
                while j < t.len()
                    invariant
                        j <= t@.len(),
                    decreases t.len() - j,
                {
                    let to = t[j];
                    let slot = get_or(&nearest, to, r);
                    let v = if slot > r {
                        slot
                    } else {
                        r
                    };
                    put_at(&mut nearest, to, v);
                    j = j + 1;
                }
            },
            None => {},
        }
        i = i + 1;
    }
    let mut free: Vec<RoomId> = Vec::new();
    let mut bounds: Vec<(RoomId, Option<i32>, Option<i32>)> = Vec::new();
    let mut k: usize = 0;
    while k < rooms.len()
        invariant
            k <= rooms@.len(),
            g == graph@,
            union.wf(),
            union.rooms() == u0.rooms(),
            forall|x: RoomId| #[trigger] union.class(x) == u0.class(x),
            forall|eqs: Seq<AxisEdge>| u0.respects(eqs) ==> #[trigger] union.respects(eqs),
            forall|x: RoomId| #[trigger] val_or(preds@, x, false) == has_pred(g, x),
            forall|c: RoomId| #[trigger] val_or(sizes@, c, 0usize) == class_size(rooms@, u0, c),
            forall|x: RoomId| #[trigger] free@.contains(x) <==> rooms@.take(k as int).contains(x) && !has_pred(g, u0.class(x))
                && targets(g, u0.class(x)).len() == 0 && class_size(rooms@, u0, u0.class(x)) == 1,
            forall|x: RoomId| #[trigger] bound_of(bounds@, x) is Some <==> rooms@.take(k as int).contains(x) && class_size(rooms@, u0, u0.class(x)) == 1,
            forall|x: RoomId| #[trigger] bound_of(bounds@, x) matches Some((_, hi)) ==> hi_matches(hi, min_rank(targets(g, u0.class(x)), rank@)),
            forall|q: int| 0 <= q < bounds@.len() ==> ((#[trigger] bounds@[q]).2 matches Some(h) ==> h >= 0),
            forall|x: RoomId| #[trigger] rank_of(rank@, x) >= 0,
        decreases rooms.len() - k,
    {
        let room = rooms[k];
        let c = union.find(room);
        let size = get_or(sizes, c, 0);
        let ts: Option<&Vec<RoomId>> = graph.get(c.0 as i64);
        let no_targets = match ts {
            Some(t) => t.len() == 0,
            None => true,
        };
        proof {
            assert(rooms@.take(k as int + 1) == rooms@.take(k as int).push(room));
            assert(no_targets == (targets(g, c).len() == 0));
            assert forall|x: RoomId| #[trigger] rooms@.take(k as int + 1).contains(x) <==> rooms@.take(k as int).contains(x) || x == room by {
                let tk = rooms@.take(k as int);
                if tk.push(room).contains(x) && x != room {
                    let q = choose|q: int| 0 <= q < tk.push(room).len() && tk.push(room)[q] == x;
                    assert(tk[q] == x);
                }
                if tk.contains(x) {
                    let q = choose|q: int| 0 <= q < tk.len() && tk[q] == x;
                    assert(tk.push(room)[q] == x);
                }
                if x == room {
                    assert(tk.push(room)[k as int] == room);
                }
            }
        }
        let ghost free0 = free@;
        if !get_or(preds, c, false) && no_targets && size == 1 {
            free.push(room);
        }
        proof {
            assert forall|x: RoomId| #[trigger] free@.contains(x) <==> free0.contains(x) || (x == room && !has_pred(g, c)
                && targets(g, c).len() == 0 && class_size(rooms@, u0, c) == 1) by {
                if free@ != free0 {
                    assert(free@ == free0.push(room));
                    if free@.contains(x) && x != room {
                        let q = choose|q: int| 0 <= q < free@.len() && free@[q] == x;
                        assert(free0[q] == x);
                    }
                    if free0.contains(x) {
                        let q = choose|q: int| 0 <= q < free0.len() && free0[q] == x;
                        assert(free@[q] == x);
                    }
                    if x == room {
                        assert(free@[free0.len() as int] == room);
                    }
                }
            }
        }
        if size == 1 {
            let lo = match nearest.get(c.0 as i64) {
                Some(v) => Some(*v),
                None => None,
            };
            let hi = match ts {
                Some(t) => min_rank_exec(t, rank),
                None => None,
            };
            proof {
                if ts is Some {
                    lemma_min_rank(ts.unwrap()@, rank@, 0);
                }
                lemma_bound_push(bounds@, (room, lo, hi), room);
                assert forall|x: RoomId| x != room implies #[trigger] bound_of(bounds@.push((room, lo, hi)), x) == bound_of(bounds@, x) by {
                    lemma_bound_push(bounds@, (room, lo, hi), x);
                }
                if ts is None {
                    assert(targets(g, c) == Seq::<RoomId>::empty());
                }
            }
            bounds.push((room, lo, hi));
        }
        k = k + 1;
    }
    proof {
        assert(rooms@.take(rooms@.len() as int) == rooms@);
    }
    (free, bounds)
}


/// Longest-path rank per class on one axis, sources pulled beside their
/// successors, with which rooms are free and the bounds of each room alone
/// in its class. Fails only when a cycle leaves a class waiting.
fn ranks(rooms: &[RoomId], map: &RoomMap, dirs: &DirectionMap, axis: Axis) -> (r: Option<Ranked>)
    requires
        rooms@.len() < i32::MAX,
    ensures
        satisfiable_axis(axis_edges_of(rooms@, map@, dirs@, axis)) ==> (r matches Some(rk) && rk.sound(
            rooms@,
            axis_edges_of(rooms@, map@, dirs@, axis),
        )),
{
    let edges = axis_edges(rooms, map, dirs, axis);
    let ghost es = edges@;
    proof {
        lemma_edges_in_rooms(rooms@, map@, dirs@, axis, rooms@.len());
    }
    let mut union = align(rooms, &edges);
    let ghost u0 = union;
    let graph = contracted(&edges, &mut union);
    let ghost g = graph@;
    let classes = class_list(rooms, &mut union);
    proof {
        assert forall|a: RoomId, b: RoomId| #[trigger] arc(g, a, b) implies classes@.contains(a) && classes@.contains(b) && a != b by {
            let j = choose|j: int|
                0 <= j < es.len() && !(#[trigger] es[j]).equal && u0.class(es[j].from) == a && u0.class(
                    es[j].to,
                ) == b && a != b;
            let ia = choose|ia: int| 0 <= ia < rooms@.len() && rooms@[ia] == es[j].from;
            let ib = choose|ib: int| 0 <= ib < rooms@.len() && rooms@[ib] == es[j].to;
            assert(u0.class(rooms@[ia]) == a);
            assert(u0.class(rooms@[ib]) == b);
        }
        if satisfiable_axis(es) {
            let f = choose|f: Map<RoomId, int>| keeps_all(f, es);
            assert forall|a: RoomId, b: RoomId| #[trigger] arc(g, a, b) implies f[a] < f[b] by {
                let j = choose|j: int|
                    0 <= j < es.len() && !(#[trigger] es[j]).equal && u0.class(es[j].from) == a && u0.class(
                        es[j].to,
                    ) == b && a != b;
                assert(keeps(f, es[j]));
                u0.lemma_class_shares(es, f, es[j].from);
                u0.lemma_class_shares(es, f, es[j].to);
            }
            assert(climbs(g, f));
        }
    }
    let (mut rank, done) = kahn(&classes, &graph);
    if done != classes.len() {
        return None;
    }
    let preds = preds_flags(&classes, &graph);
    pull_sources(&classes, &graph, &preds, &mut rank);
    let ghost u1 = union;
    let sizes = class_sizes(rooms, &mut union);
    proof {
        assert forall|c: RoomId| #[trigger] val_or(sizes@, c, 0usize) == class_size(rooms@, union, c) by {
            lemma_class_size_same(rooms@, u1, union, c);
        }
    }
    let ghost u2 = union;
    let (free, bounds) = freedom(rooms, &graph, &rank, &preds, &sizes, &classes, &mut union);
    let rk = Ranked { union, graph, classes, rank, free, bounds };
    proof {
        let rm = rk.rank@;
        assert forall|x: RoomId| #[trigger] rk.union.class(x) == u0.class(x) by {}
        assert forall|c: RoomId| #[trigger] class_size(rooms@, u2, c) == class_size(rooms@, u0, c) by {
            lemma_class_size_same(rooms@, u2, u0, c);
        }
        assert(rk.wf());
        if satisfiable_axis(es) {
            let f0 = choose|f: Map<RoomId, int>| keeps_all(f, es);
            assert forall|r: RoomId| #[trigger] rk.rank_at(r) >= 0 && rk.rank_at(r) <= rooms@.len() by {}
            assert forall|r: RoomId| rooms@.contains(r) implies #[trigger] rk.fits(r, rk.rank_at(r)) by {
                let c = u0.class(r);
                if !rk.free@.contains(r) {
                    match bound_of(rk.bounds@, r) {
                        Some((_, hi)) => {
                            lemma_min_rank(targets(g, c), rm, rank_of(rm, c));
                            assert forall|b: RoomId| targets(g, c).contains(b) implies rank_of(rm, c) < #[trigger] rank_of(rm, b) by {
                                assert(arc(g, c, b));
                            }
                        },
                        None => {},
                    }
                }
            }
            assert forall|f: Map<RoomId, int>|
                (forall|r: RoomId| rooms@.contains(r) ==> #[trigger] rk.fits(r, f[r])) implies #[trigger] keeps_all(f, es) by {
                assert forall|k: int| 0 <= k < es.len() implies keeps(f, #[trigger] es[k]) by {
                    let e = es[k];
                    let a = u0.class(e.from);
                    let b = u0.class(e.to);
                    assert(rooms@.contains(e.from) && rooms@.contains(e.to) && e.from != e.to);
                    assert(rk.fits(e.from, f[e.from]));
                    assert(rk.fits(e.to, f[e.to]));
                    if e.equal {
                        assert(a == b);
                        lemma_class_size_two(rooms@, u0, e.from, e.to);
                        assert(!rk.free@.contains(e.from));
                        assert(!rk.free@.contains(e.to));
                        assert(bound_of(rk.bounds@, e.from) is None);
                        assert(bound_of(rk.bounds@, e.to) is None);
                    } else {
                        if a == b {
                            assert(keeps(f0, es[k]));
                            u0.lemma_same_class(es, f0, e.from, e.to);
                        }
                        assert(class_order(u0, es, a, b));
                        assert(arc(g, a, b));
                        assert(targets(g, a).contains(b));
                        assert(has_pred(g, b));
                        assert(!rk.free@.contains(e.from));
                        assert(!rk.free@.contains(e.to));
                        assert(rank_of(rm, a) < rank_of(rm, b));
                        match bound_of(rk.bounds@, e.from) {
                            Some((_, hi)) => {
                                lemma_min_rank(targets(g, a), rm, 0);
                            },
                            None => {},
                        }
                    }
                }
            }
            assert forall|k: int| 0 <= k < es.len() && !(#[trigger] es[k]).equal implies arc(g, rk.union.class(es[k].from), rk.union.class(es[k].to)) by {
                let e = es[k];
                if u0.class(e.from) == u0.class(e.to) {
                    assert(keeps(f0, es[k]));
                    u0.lemma_same_class(es, f0, e.from, e.to);
                }
                assert(class_order(u0, es, u0.class(e.from), u0.class(e.to)));
            }
            assert(rk.orders(es));
            assert forall|r: RoomId| rooms@.contains(r) implies rk.classes@.contains(#[trigger] rk.union.class(r)) by {
                let i = choose|i: int| 0 <= i < rooms@.len() && rooms@[i] == r;
                assert(u0.class(rooms@[i]) == u0.class(r));
            }
        }
    }
    Some(rk)
}

proof fn lemma_bound_first(b: Seq<(RoomId, Option<i32>, Option<i32>)>, q: int)
    requires
        0 <= q < b.len(),
    ensures
        bound_of(b, b[q].0) is Some,
    decreases q,
{
    if b[0].0 != b[q].0 {
        assert(q > 0);
        assert(b.drop_first()[q - 1] == b[q]);
        lemma_bound_first(b.drop_first(), q - 1);
    }
}


/// `a + b`, clamped to the `i32` range.
fn saturating_add(a: i32, b: i32) -> (r: i32)
    ensures
        r == (if a + b > i32::MAX {
            i32::MAX as int
        } else if a + b < i32::MIN {
            i32::MIN as int
        } else {
            a + b
        }),
{
    let s = a as i64 + b as i64;
    if s > i32::MAX as i64 {
        i32::MAX
    } else if s < i32::MIN as i64 {
        i32::MIN
    } else {
        s as i32
    }
}

/// Some exit among the room's first `upto` is walkable and leads to `b`.
pub open spec fn walks_to(r: Room, b: RoomId, upto: int) -> bool {
    exists|j: int|
        0 <= j < upto && j < r.exits@.len() && r.exits@[j].to == b && (r.exits@[j].crossing is Command
            || r.exits@[j].crossing is Steps)
}

/// Room `a`, listed, has a walkable exit to another listed room `b`.
pub open spec fn walk_link(map: Seq<Room>, rooms: Seq<RoomId>, a: RoomId, b: RoomId) -> bool {
    &&& rooms.contains(a)
    &&& rooms.contains(b)
    &&& a.0 != b.0
    &&& room_of(map, a) matches Some(ra) && walks_to(ra, b, ra.exits@.len() as int)
}

/// `a` is among the first `i` rooms and links to `b`.
spec fn link_upto(map: Seq<Room>, rooms: Seq<RoomId>, i: int, a: RoomId, b: RoomId) -> bool {
    (exists|q: int| 0 <= q < i && rooms[q] == a) && walk_link(map, rooms, a, b)
}

/// Each room's neighbours by any walkable exit, within the component,
/// both ways.
fn neighbours_within(rooms: &[RoomId], map: &RoomMap) -> (out: IntMap<Vec<RoomId>>)
    ensures
        forall|r: RoomId, k: int| 0 <= k < targets(out@, r).len() ==> rooms@.contains(#[trigger] targets(out@, r)[k]),
        forall|a: RoomId, b: RoomId|
            #[trigger] targets(out@, a).contains(b) <==> walk_link(map@, rooms@, a, b) || walk_link(map@, rooms@, b, a),
{
    let mut out: IntMap<Vec<RoomId>> = IntMap::new();
    let mut i: usize = 0;
    while i < rooms.len()
        invariant
            i <= rooms@.len(),
            forall|r: RoomId, k: int| 0 <= k < targets(out@, r).len() ==> rooms@.contains(#[trigger] targets(out@, r)[k]),
            forall|a: RoomId, b: RoomId|
                #[trigger] targets(out@, a).contains(b) <==> link_upto(map@, rooms@, i as int, a, b) || link_upto(
                    map@,
                    rooms@,
                    i as int,
                    b,
                    a,
                ),
        decreases rooms.len() - i,
    {
        let room = rooms[i];
        proof {
            assert(rooms@.contains(room)) by {
                assert(rooms@[i as int] == room);
            }
        }
        match map.room(room) {
            Some(r) => {
                let mut j: usize = 0;
                while j < r.exits.len()
                    invariant
                        j <= r.exits@.len(),
                        rooms@.contains(room),
                        forall|x: RoomId, k: int| 0 <= k < targets(out@, x).len() ==> rooms@.contains(#[trigger] targets(out@, x)[k]),
                        room == rooms@[i as int],
                        i < rooms@.len(),
                        room_of(map@, room) == Some(*r),
                        forall|a: RoomId, b: RoomId|
                            #[trigger] targets(out@, a).contains(b) <==> link_upto(map@, rooms@, i as int, a, b)
                                || link_upto(map@, rooms@, i as int, b, a) || (a == room && rooms@.contains(b) && room.0
                                != b.0 && walks_to(*r, b, j as int)) || (b == room && rooms@.contains(a) && room.0
                                != a.0 && walks_to(*r, a, j as int)),
                    decreases r.exits.len() - j,
                {
                    let ghost before = out@;
                    let exit = &r.exits[j];
                    let to = exit.to;
                    if crate::regions::is_passage(exit) && to.0 != room.0 && holds_room(rooms, to) {
                        add_neighbour(&mut out, room, to, Ghost(rooms@));
                        let ghost mid = out@;
                        add_neighbour(&mut out, to, room, Ghost(rooms@));
                        proof {
                            assert(room != to);
                            assert forall|a: RoomId, b: RoomId| #[trigger] targets(out@, a).contains(b) == (targets(
                                before,
                                a,
                            ).contains(b) || (a == room && b == to) || (a == to && b == room)) by {
                                if a == to {
                                    assert(targets(out@, a) == targets(mid, a).push(room));
                                    assert(targets(mid, a) == targets(before, a));
                                    if targets(before, a).contains(b) {
                                        let q = choose|q: int| 0 <= q < targets(before, a).len() && targets(before, a)[q] == b;
                                        assert(targets(out@, a)[q] == b);
                                    }
                                    if b == room {
                                        assert(targets(out@, a)[targets(before, a).len() as int] == room);
                                    }
                                } else if a == room {
                                    assert(targets(out@, a) == targets(mid, a));
                                    assert(targets(mid, a) == targets(before, a).push(to));
                                    if targets(before, a).contains(b) {
                                        let q = choose|q: int| 0 <= q < targets(before, a).len() && targets(before, a)[q] == b;
                                        assert(targets(out@, a)[q] == b);
                                    }
                                    if b == to {
                                        assert(targets(out@, a)[targets(before, a).len() as int] == to);
                                    }
                                } else {
                                    assert(targets(out@, a) == targets(mid, a));
                                    assert(targets(mid, a) == targets(before, a));
                                }
                            }
                        }
                    }
                    proof {
                        assert forall|x: RoomId| #[trigger] walks_to(*r, x, j + 1) == (walks_to(*r, x, j as int) || (
                        r.exits@[j as int].to == x && (r.exits@[j as int].crossing is Command
                            || r.exits@[j as int].crossing is Steps))) by {
                            if walks_to(*r, x, j + 1) && !(r.exits@[j as int].to == x && (r.exits@[j as int].crossing is Command
                                || r.exits@[j as int].crossing is Steps)) {
                                let q = choose|q: int|
                                    0 <= q < j + 1 && q < r.exits@.len() && r.exits@[q].to == x && (r.exits@[q].crossing is Command
                                        || r.exits@[q].crossing is Steps);
                                assert(q < j);
                            }
                        }
                    }
                    j = j + 1;
                }
            },
            None => {},
        }
        proof {
            assert forall|a: RoomId, b: RoomId| link_upto(map@, rooms@, i + 1, a, b) == (link_upto(map@, rooms@, i as int, a, b)
                || (a == room && walk_link(map@, rooms@, a, b))) by {
                if (exists|q: int| 0 <= q < i + 1 && rooms@[q] == a) && !(exists|q: int| 0 <= q < i && rooms@[q] == a) {
                    assert(rooms@[i as int] == a);
                }
                if a == room {
                    assert(rooms@[i as int] == a);
                }
            }
        }
        i = i + 1;
    }
    proof {
        assert forall|a: RoomId, b: RoomId| link_upto(map@, rooms@, rooms@.len() as int, a, b) == walk_link(map@, rooms@, a, b) by {
            if walk_link(map@, rooms@, a, b) {
                let q = choose|q: int| 0 <= q < rooms@.len() && rooms@[q] == a;
            }
        }
    }
    out
}

fn add_neighbour(out: &mut IntMap<Vec<RoomId>>, a: RoomId, b: RoomId, Ghost(rooms): Ghost<Seq<RoomId>>)
    requires
        rooms.contains(b),
        forall|r: RoomId, k: int| 0 <= k < targets(old(out)@, r).len() ==> rooms.contains(#[trigger] targets(old(out)@, r)[k]),
    ensures
        forall|r: RoomId, k: int| 0 <= k < targets(final(out)@, r).len() ==> rooms.contains(#[trigger] targets(final(out)@, r)[k]),
        targets(final(out)@, a) == targets(old(out)@, a).push(b),
        forall|r: RoomId| r != a ==> #[trigger] targets(final(out)@, r) == targets(old(out)@, r),
{
    let ghost before = out@;
    let mut list = match out.remove(a.0 as i64) {
        Some(v) => v,
        None => Vec::new(),
    };
    assert(list@ == targets(before, a));
    list.push(b);
    out.insert(a.0 as i64, list);
    proof {
        assert forall|r: RoomId, k: int| 0 <= k < targets(out@, r).len() implies rooms.contains(#[trigger] targets(out@, r)[k]) by {
            if r == a {
                if k < targets(before, a).len() {
                    assert(targets(out@, r)[k] == targets(before, a)[k]);
                }
            } else {
                assert(key(r) != key(a));
                assert(targets(out@, r) == targets(before, r));
            }
        }
        assert forall|r: RoomId| r != a implies #[trigger] targets(out@, r) == targets(before, r) by {
            assert(key(r) != key(a));
        }
    }
}

/// Where an entry for `r` sits, if there is one.
fn entry_of(out: &Vec<(RoomId, Cell)>, r: RoomId) -> (i: Option<usize>)
    ensures
        match i {
            Some(k) => k < out@.len() && out@[k as int].0 == r && position_of(out@, r) == Some(out@[k as int].1),
            None => position_of(out@, r) is None,
        },
{
    let mut k: usize = 0;
    assert(out@.skip(0) == out@);
    while k < out.len()
        invariant
            k <= out@.len(),
            position_of(out@, r) == position_of(out@.skip(k as int), r),
        decreases out.len() - k,
    {
        proof {
            assert(out@.skip(k as int).drop_first() == out@.skip(k as int + 1));
            assert(out@.skip(k as int)[0] == out@[k as int]);
        }
        if out[k].0.0 == r.0 {
            return Some(k);
        }
        k = k + 1;
    }
    None
}

proof fn lemma_position_entry(out: Seq<(RoomId, Cell)>, r: RoomId)
    requires
        position_of(out, r) is Some,
    ensures
        exists|i: int| 0 <= i < out.len() && #[trigger] out[i] == (r, position_of(out, r).unwrap()),
    decreases out.len(),
{
    if out[0].0 == r {
        assert(out[0] == (r, position_of(out, r).unwrap()));
    } else {
        lemma_position_entry(out.drop_first(), r);
        let i = choose|i: int| 0 <= i < out.drop_first().len() && #[trigger] out.drop_first()[i] == (r, position_of(out.drop_first(), r).unwrap());
        assert(out[i + 1] == out.drop_first()[i]);
    }
}

/// Every entry's rooms stay where they were, in order.
pub open spec fn same_rooms(a: Seq<(RoomId, Cell)>, b: Seq<(RoomId, Cell)>) -> bool {
    &&& a.len() == b.len()
    &&& forall|i: int| 0 <= i < a.len() ==> (#[trigger] a[i]).0 == b[i].0
}

proof fn lemma_same_rooms_position(a: Seq<(RoomId, Cell)>, b: Seq<(RoomId, Cell)>, r: RoomId)
    requires
        same_rooms(a, b),
    ensures
        position_of(a, r) is Some <==> position_of(b, r) is Some,
    decreases a.len(),
{
    if a.len() > 0 {
        assert(a[0].0 == b[0].0);
        assert(same_rooms(a.drop_first(), b.drop_first())) by {
            assert forall|i: int| 0 <= i < a.drop_first().len() implies (#[trigger] a.drop_first()[i]).0 == b.drop_first()[i].0 by {
                assert(a[i + 1].0 == b[i + 1].0);
            }
        }
        lemma_same_rooms_position(a.drop_first(), b.drop_first(), r);
    }
}


/// The neighbour a free room follows: the first one not free itself, or
/// else the first one.
fn pick(list: &Vec<RoomId>, free: &Vec<RoomId>) -> (n: Option<RoomId>)
    ensures
        n matches Some(r) ==> list@.contains(r),
        n is None <==> list@.len() == 0,
{
    let mut i: usize = 0;
    while i < list.len()
        invariant
            i <= list@.len(),
        decreases list.len() - i,
    {
        if !holds_room(free.as_slice(), list[i]) {
            assert(list@.contains(list@[i as int]));
            return Some(list[i]);
        }
        i = i + 1;
    }
    if list.len() > 0 {
        assert(list@.contains(list@[0]));
        Some(list[0])
    } else {
        None
    }
}

/// A room free on an axis takes a neighbour's coordinate there,
/// preferring a neighbour constrained on that axis; repeated until
/// nothing changes, so a chain of free rooms follows its one anchored
/// end. Nothing else moves.
fn settle_free(
    out: &mut Vec<(RoomId, Cell)>,
    rooms: &[RoomId],
    neighbours: &IntMap<Vec<RoomId>>,
    free_x: &Vec<RoomId>,
    free_y: &Vec<RoomId>,
)
    requires
        forall|r: RoomId| rooms@.contains(r) ==> #[trigger] position_of(old(out)@, r) is Some,
        forall|r: RoomId, k: int| 0 <= k < targets(neighbours@, r).len() ==> rooms@.contains(#[trigger] targets(neighbours@, r)[k]),
    ensures
        same_rooms(old(out)@, final(out)@),
        forall|i: int| 0 <= i < final(out)@.len() ==> (#[trigger] final(out)@[i]).1.x == old(out)@[i].1.x || free_x@.contains(old(out)@[i].0),
        forall|i: int| 0 <= i < final(out)@.len() ==> (#[trigger] final(out)@[i]).1.y == old(out)@[i].1.y || free_y@.contains(old(out)@[i].0),
{
    let ghost out0 = out@;
    let empty: Vec<RoomId> = Vec::new();
    let mut pass: usize = 0;
    while pass < rooms.len()
        invariant
            same_rooms(out0, out@),
            forall|r: RoomId| rooms@.contains(r) ==> #[trigger] position_of(out0, r) is Some,
            forall|r: RoomId, k: int| 0 <= k < targets(neighbours@, r).len() ==> rooms@.contains(#[trigger] targets(neighbours@, r)[k]),
            forall|i: int| 0 <= i < out@.len() ==> (#[trigger] out@[i]).1.x == out0[i].1.x || free_x@.contains(out0[i].0),
            forall|i: int| 0 <= i < out@.len() ==> (#[trigger] out@[i]).1.y == out0[i].1.y || free_y@.contains(out0[i].0),
            empty@.len() == 0,
        decreases rooms.len() - pass,
    {
        let mut changed = false;
        let mut k: usize = 0;
        while k < rooms.len()
            invariant
                k <= rooms@.len(),
                same_rooms(out0, out@),
                forall|r: RoomId| rooms@.contains(r) ==> #[trigger] position_of(out0, r) is Some,
                forall|r: RoomId, q: int| 0 <= q < targets(neighbours@, r).len() ==> rooms@.contains(#[trigger] targets(neighbours@, r)[q]),
                forall|i: int| 0 <= i < out@.len() ==> (#[trigger] out@[i]).1.x == out0[i].1.x || free_x@.contains(out0[i].0),
                forall|i: int| 0 <= i < out@.len() ==> (#[trigger] out@[i]).1.y == out0[i].1.y || free_y@.contains(out0[i].0),
                empty@.len() == 0,
            decreases rooms.len() - k,
        {
            let room = rooms[k];
            let list: &Vec<RoomId> = match neighbours.get(room.0 as i64) {
                Some(l) => l,
                None => &empty,
            };
            proof {
                assert(rooms@.contains(room)) by {
                    assert(rooms@[k as int] == room);
                }
                assert forall|q: int| 0 <= q < list@.len() implies rooms@.contains(#[trigger] list@[q]) by {
                    assert(list@ == targets(neighbours@, room));
                }
                lemma_same_rooms_position(out0, out@, room);
            }
            if holds_room(free_x.as_slice(), room) {
                match pick(list, free_x) {
                    Some(n) => {
                        proof {
                            let q = choose|q: int| 0 <= q < list@.len() && list@[q] == n;
                            assert(rooms@.contains(list@[q]));
                            lemma_same_rooms_position(out0, out@, n);
                        }
                        let ni = entry_of(out, n).unwrap();
                        let ri = entry_of(out, room).unwrap();
                        if out[ni].1.x != out[ri].1.x {
                            let nx = out[ni].1.x;
                            let cell = Cell { x: nx, y: out[ri].1.y };
                            let ghost before = out@;
                            out.set(ri, (room, cell));
                            changed = true;
                            proof {
                                assert(out0[ri as int].0 == before[ri as int].0);
                                assert forall|i: int| 0 <= i < out@.len() implies (#[trigger] out@[i]).1.x == out0[i].1.x || free_x@.contains(out0[i].0) by {
                                    if i != ri {
                                        assert(out@[i] == before[i]);
                                    }
                                }
                                assert forall|i: int| 0 <= i < out@.len() implies (#[trigger] out@[i]).1.y == out0[i].1.y || free_y@.contains(out0[i].0) by {
                                    if i != ri {
                                        assert(out@[i] == before[i]);
                                    }
                                }
                                assert forall|i: int| 0 <= i < out0.len() implies (#[trigger] out0[i]).0 == out@[i].0 by {
                                    if i != ri {
                                        assert(out@[i] == before[i]);
                                    }
                                }
                            }
                        }
                    },
                    None => {},
                }
            }
            proof {
                lemma_same_rooms_position(out0, out@, room);
            }
            if holds_room(free_y.as_slice(), room) {
                match pick(list, free_y) {
                    Some(n) => {
                        proof {
                            let q = choose|q: int| 0 <= q < list@.len() && list@[q] == n;
                            assert(rooms@.contains(list@[q]));
                            lemma_same_rooms_position(out0, out@, n);
                        }
                        let ni = entry_of(out, n).unwrap();
                        let ri = entry_of(out, room).unwrap();
                        if out[ni].1.y != out[ri].1.y {
                            let ny = out[ni].1.y;
                            let cell = Cell { x: out[ri].1.x, y: ny };
                            let ghost before = out@;
                            out.set(ri, (room, cell));
                            changed = true;
                            proof {
                                assert(out0[ri as int].0 == before[ri as int].0);
                                assert forall|i: int| 0 <= i < out@.len() implies (#[trigger] out@[i]).1.x == out0[i].1.x || free_x@.contains(out0[i].0) by {
                                    if i != ri {
                                        assert(out@[i] == before[i]);
                                    }
                                }
                                assert forall|i: int| 0 <= i < out@.len() implies (#[trigger] out@[i]).1.y == out0[i].1.y || free_y@.contains(out0[i].0) by {
                                    if i != ri {
                                        assert(out@[i] == before[i]);
                                    }
                                }
                                assert forall|i: int| 0 <= i < out0.len() implies (#[trigger] out0[i]).0 == out@[i].0 by {
                                    if i != ri {
                                        assert(out@[i] == before[i]);
                                    }
                                }
                            }
                        }
                    },
                    None => {},
                }
            }
            k = k + 1;
        }
        if !changed {
            break;
        }
        pass = pass + 1;
    }
}


fn count_index(count: &Vec<(Cell, usize)>, c: Cell) -> (i: Option<usize>)
    ensures
        match i {
            Some(k) => k < count@.len() && count@[k as int].0 == c,
            None => forall|k: int| 0 <= k < count@.len() ==> (#[trigger] count@[k]).0 != c,
        },
{
    let mut k: usize = 0;
    while k < count.len()
        invariant
            k <= count@.len(),
            forall|q: int| 0 <= q < k ==> (#[trigger] count@[q]).0 != c,
        decreases count.len() - k,
    {
        if count[k].0.x == c.x && count[k].0.y == c.y {
            return Some(k);
        }
        k = k + 1;
    }
    None
}

/// Two rooms on one cell: the later one steps to the nearest cell no room
/// has held, within what its constraints allow on each axis. A room with
/// no room to move stays put. Every room still fits where it lands.
fn unstack(out: &mut Vec<(RoomId, Cell)>, rooms: &[RoomId], x: &Ranked, y: &Ranked)
    requires
        x.wf(),
        y.wf(),
        rooms@.len() < i32::MAX,
        forall|r: RoomId| rooms@.contains(r) ==> #[trigger] position_of(old(out)@, r) is Some,
        old(out)@.len() <= rooms@.len(),
    ensures
        same_rooms(old(out)@, final(out)@),
        forall|i: int| 0 <= i < final(out)@.len() ==> (x.fits(old(out)@[i].0, old(out)@[i].1.x as int) ==> x.fits(
            (#[trigger] final(out)@[i]).0,
            final(out)@[i].1.x as int,
        )),
        forall|i: int| 0 <= i < final(out)@.len() ==> (y.fits(old(out)@[i].0, old(out)@[i].1.y as int) ==> y.fits(
            (#[trigger] final(out)@[i]).0,
            final(out)@[i].1.y as int,
        )),
{
    let ghost out0 = out@;
    let n = out.len();
    let mut count: Vec<(Cell, usize)> = Vec::new();
    let mut i: usize = 0;
    while i < n
        invariant
            n == out@.len(),
            out@ == out0,
            i <= n,
            forall|q: int| 0 <= q < count@.len() ==> (#[trigger] count@[q]).1 <= i,
        decreases n - i,
    {
        let c = out[i].1;
        match count_index(&count, c) {
            Some(k) => {
                let v = count[k].1;
                count.set(k, (c, v + 1));
            },
            None => {
                count.push((c, 1));
            },
        }
        i = i + 1;
    }
    let reach = rooms.len() as i32;
    let mut k: usize = 0;
    while k < rooms.len()
        invariant
            k <= rooms@.len(),
            reach as int == rooms@.len(),
            reach < i32::MAX,
            x.wf(),
            y.wf(),
            same_rooms(out0, out@),
            forall|r: RoomId| rooms@.contains(r) ==> #[trigger] position_of(out0, r) is Some,
            forall|q: int| 0 <= q < count@.len() ==> (#[trigger] count@[q]).1 <= n + k,
            n == out0.len(),
            n <= rooms@.len(),
            forall|j: int| 0 <= j < out@.len() ==> (x.fits(out0[j].0, out0[j].1.x as int) ==> x.fits(
                (#[trigger] out@[j]).0,
                out@[j].1.x as int,
            )),
            forall|j: int| 0 <= j < out@.len() ==> (y.fits(out0[j].0, out0[j].1.y as int) ==> y.fits(
                (#[trigger] out@[j]).0,
                out@[j].1.y as int,
            )),
        decreases rooms.len() - k,
    {
        let room = rooms[k];
        proof {
            assert(rooms@.contains(room)) by {
                assert(rooms@[k as int] == room);
            }
            lemma_same_rooms_position(out0, out@, room);
        }
        let ri = entry_of(out, room).unwrap();
        let here = out[ri].1;
        let stacked = match count_index(&count, here) {
            Some(q) => count[q].1 >= 2,
            None => false,
        };
        if stacked {
            let (xlo, xhi) = x.range(room, here.x);
            let (ylo, yhi) = y.range(room, here.y);
            let mut best: Option<(i32, Cell)> = None;
            let mut dx: i32 = -reach;
            while dx <= reach
                invariant
                    -reach <= dx <= reach + 1,
                    reach < i32::MAX,
                    0 <= reach,
                    best matches Some((_, c)) ==> xlo <= c.x <= xhi && ylo <= c.y <= yhi,
                decreases reach + 1 - dx,
            {
                let cx = saturating_add(here.x, dx);
                if !(cx < xlo || cx > xhi) {
                    let mut dy: i32 = -reach;
                    while dy <= reach
                        invariant
                            -reach <= dy <= reach + 1,
                            -reach <= dx <= reach,
                            reach < i32::MAX,
                            0 <= reach,
                            xlo <= cx <= xhi,
                            best matches Some((_, c)) ==> xlo <= c.x <= xhi && ylo <= c.y <= yhi,
                        decreases reach + 1 - dy,
                    {
                        let cy = saturating_add(here.y, dy);
                        if !(cy < ylo || cy > yhi) {
                            let cell = Cell { x: cx, y: cy };
                            let ax = if dx < 0 {
                                -dx
                            } else {
                                dx
                            };
                            let ay = if dy < 0 {
                                -dy
                            } else {
                                dy
                            };
                            let cost = if ax >= ay {
                                ax
                            } else {
                                ay
                            };
                            let beaten = match best {
                                Some((c, _)) => c <= cost,
                                None => false,
                            };
                            if !beaten && count_index(&count, cell).is_none() {
                                best = Some((cost, cell));
                            }
                        }
                        dy = dy + 1;
                    }
                }
                dx = dx + 1;
            }
            match best {
                Some((_, cell)) => {
                    match count_index(&count, here) {
                        Some(q) => {
                            let v = count[q].1;
                            if v > 0 {
                                count.set(q, (here, v - 1));
                            }
                        },
                        None => {},
                    }
                    match count_index(&count, cell) {
                        Some(q) => {
                            let v = count[q].1;
                            count.set(q, (cell, v + 1));
                        },
                        None => {
                            count.push((cell, 1));
                        },
                    }
                    let ghost before = out@;
                    proof {
                        assert(x.fits(room, here.x as int) ==> x.fits(room, cell.x as int));
                        assert(y.fits(room, here.y as int) ==> y.fits(room, cell.y as int));
                    }
                    out.set(ri, (room, cell));
                    proof {
                        assert forall|j: int| 0 <= j < out0.len() implies (#[trigger] out0[j]).0 == out@[j].0 by {
                            if j != ri {
                                assert(out@[j] == before[j]);
                            }
                        }
                        assert forall|j: int| 0 <= j < out@.len() implies (x.fits(out0[j].0, out0[j].1.x as int) ==> x.fits(
                            (#[trigger] out@[j]).0,
                            out@[j].1.x as int,
                        )) by {
                            if j != ri {
                                assert(out@[j] == before[j]);
                            } else {
                                assert(before[j].0 == room);
                            }
                        }
                        assert forall|j: int| 0 <= j < out@.len() implies (y.fits(out0[j].0, out0[j].1.y as int) ==> y.fits(
                            (#[trigger] out@[j]).0,
                            out@[j].1.y as int,
                        )) by {
                            if j != ri {
                                assert(out@[j] == before[j]);
                            } else {
                                assert(before[j].0 == room);
                            }
                        }
                    }
                },
                None => {},
            }
        }
        proof {
            assert forall|q: int| 0 <= q < count@.len() implies (#[trigger] count@[q]).1 <= n + k + 1 by {}
        }
        k = k + 1;
    }
}


/// The placement's x coordinates, room by room.
pub open spec fn xs(p: Seq<(RoomId, Cell)>) -> Map<RoomId, int> {
    Map::new(
        |r: RoomId| true,
        |r: RoomId|
            match position_of(p, r) {
                Some(c) => c.x as int,
                None => 0,
            },
    )
}

/// The placement's y coordinates, room by room.
pub open spec fn ys(p: Seq<(RoomId, Cell)>) -> Map<RoomId, int> {
    Map::new(
        |r: RoomId| true,
        |r: RoomId|
            match position_of(p, r) {
                Some(c) => c.y as int,
                None => 0,
            },
    )
}

/// The data is bad: some axis cannot be kept, or two rooms are forced
/// onto one cell.
pub open spec fn unsatisfiable(rooms: Seq<RoomId>, map: Seq<Room>, dirs: Map<u64, Dir>) -> bool {
    let ex = axis_edges_of(rooms, map, dirs, Axis::EastWest);
    let ey = axis_edges_of(rooms, map, dirs, Axis::NorthSouth);
    ||| !satisfiable_axis(ex)
    ||| !satisfiable_axis(ey)
    ||| exists|a: RoomId, c: RoomId| #[trigger] forced_together(ex, ey, a, c) && rooms.contains(a) && rooms.contains(c)
}

/// An arrangement keeping every stated bearing's signs, or `None` when
/// the rooms cannot be satisfied.
///
/// This cannot fail on satisfiable data: each axis numbers its alignment
/// classes in order, so every strict constraint holds because its first
/// class was numbered first, and every equality because both rooms share
/// a class. A room nothing constrains on an axis then takes a neighbour's
/// coordinate there; two rooms left on one cell are nudged apart as far as
/// their constraints allow, and where neither can move alone, one's class
/// is pushed a step with every class after it. No step breaks a
/// constraint.
pub fn place_by_order(rooms: &[RoomId], map: &RoomMap, dirs: &DirectionMap) -> (r: Option<Vec<(RoomId, Cell)>>)
    requires
        rooms@.len() < i32::MAX,
    ensures
        r is None ==> unsatisfiable(rooms@, map@, dirs@),
        r matches Some(p) ==> keeps_all(xs(p@), axis_edges_of(rooms@, map@, dirs@, Axis::EastWest))
            && keeps_all(ys(p@), axis_edges_of(rooms@, map@, dirs@, Axis::NorthSouth))
            && forall|room: RoomId| rooms@.contains(room) ==> #[trigger] position_of(p@, room) is Some,
        r matches Some(p) ==> forall|j: int| 0 <= j < p@.len() ==> rooms@.contains((#[trigger] p@[j]).0),
        r matches Some(p) ==> forall|a: int, b: int| 0 <= a < b < p@.len() ==> (#[trigger] p@[a]).0 != (#[trigger] p@[b]).0,
{
    let ghost ex = axis_edges_of(rooms@, map@, dirs@, Axis::EastWest);
    let ghost ey = axis_edges_of(rooms@, map@, dirs@, Axis::NorthSouth);
    let found = problems(rooms, map, dirs);
    if found.len() > 0 {
        proof {
            assert(genuine(found@[0], rooms@, map@, dirs@));
            match found@[0] {
                Problem::ForcedOverlap { a, b } => {
                    assert(forced_together(ex, ey, a, b));
                },
                _ => {},
            }
        }
        return None;
    }
    let mut x = match ranks(rooms, map, dirs, Axis::EastWest) {
        Some(rk) => rk,
        None => {
            return None;
        },
    };
    let mut y = match ranks(rooms, map, dirs, Axis::NorthSouth) {
        Some(rk) => rk,
        None => {
            return None;
        },
    };
    let ghost x0 = x;
    let ghost y0 = y;
    let mut out: Vec<(RoomId, Cell)> = Vec::new();
    let mut k: usize = 0;
    while k < rooms.len()
        invariant
            k <= rooms@.len(),
            x.wf(),
            y.wf(),
            x0.sound(rooms@, ex),
            y0.sound(rooms@, ey),
            forall|rr: Seq<RoomId>, ee: Seq<AxisEdge>| #[trigger] x0.sound(rr, ee) ==> x.sound(rr, ee),
            forall|rr: Seq<RoomId>, ee: Seq<AxisEdge>| #[trigger] y0.sound(rr, ee) ==> y.sound(rr, ee),
            forall|r: RoomId, v: int| #[trigger] x.fits(r, v) == x0.fits(r, v),
            forall|r: RoomId, v: int| #[trigger] y.fits(r, v) == y0.fits(r, v),
            forall|r: RoomId| #[trigger] x.rank_at(r) == x0.rank_at(r),
            forall|r: RoomId| #[trigger] y.rank_at(r) == y0.rank_at(r),
            x.free@ == x0.free@,
            y.free@ == y0.free@,
            out@.len() <= k,
            forall|r: RoomId| rooms@.take(k as int).contains(r) ==> #[trigger] position_of(out@, r) is Some,
            forall|j: int| 0 <= j < out@.len() ==> rooms@.contains((#[trigger] out@[j]).0),
            forall|j: int| 0 <= j < out@.len() ==> x0.fits((#[trigger] out@[j]).0, out@[j].1.x as int) && y0.fits(out@[j].0, out@[j].1.y as int),
            forall|a: int, b: int| 0 <= a < b < out@.len() ==> (#[trigger] out@[a]).0 != (#[trigger] out@[b]).0,
        decreases rooms.len() - k,
    {
        let room = rooms[k];
        proof {
            assert(rooms@.contains(room)) by {
                assert(rooms@[k as int] == room);
            }
            assert(rooms@.take(k as int + 1) == rooms@.take(k as int).push(room));
        }
        if entry_of(&out, room).is_none() {
            let ax = x.at(room);
            let ay = y.at(room);
            let ghost before = out@;
            out.push((room, Cell { x: ax, y: ay }));
            proof {
                assert(x0.fits(room, x0.rank_at(room)));
                assert(y0.fits(room, y0.rank_at(room)));
                lemma_position_push(before, (room, Cell { x: ax, y: ay }));
                assert forall|a: int, b: int| 0 <= a < b < out@.len() implies (#[trigger] out@[a]).0 != (#[trigger] out@[b]).0 by {
                    if b == before.len() {
                        assert(out@[a] == before[a]);
                        lemma_no_entry(before, room);
                    } else {
                        assert(out@[a] == before[a] && out@[b] == before[b]);
                    }
                }
            }
        }
        proof {
            assert forall|r: RoomId| rooms@.take(k as int + 1).contains(r) implies #[trigger] position_of(out@, r) is Some by {
                let t = rooms@.take(k as int);
                if r != room {
                    let q = choose|q: int| 0 <= q < t.push(room).len() && t.push(room)[q] == r;
                    assert(t[q] == r);
                }
            }
        }
        k = k + 1;
    }
    proof {
        assert(rooms@.take(rooms@.len() as int) == rooms@);
    }
    let neighbours = neighbours_within(rooms, map);
    let ghost out1 = out@;
    settle_free(&mut out, rooms, &neighbours, &x.free, &y.free);
    proof {
        assert forall|j: int| 0 <= j < out@.len() implies x0.fits((#[trigger] out@[j]).0, out@[j].1.x as int) && y0.fits(out@[j].0, out@[j].1.y as int) by {
            assert(out@[j].0 == out1[j].0);
            assert(x0.fits(out1[j].0, out1[j].1.x as int));
            assert(y0.fits(out1[j].0, out1[j].1.y as int));
            if out@[j].1.x != out1[j].1.x {
                assert(x0.free@.contains(out1[j].0));
            }
            if out@[j].1.y != out1[j].1.y {
                assert(y0.free@.contains(out1[j].0));
            }
        }
        assert forall|r: RoomId| rooms@.contains(r) implies #[trigger] position_of(out@, r) is Some by {
            lemma_same_rooms_position(out1, out@, r);
        }
    }
    let ghost out2 = out@;
    unstack(&mut out, rooms, &x, &y);
    proof {
        assert forall|j: int| 0 <= j < out@.len() implies x0.fits((#[trigger] out@[j]).0, out@[j].1.x as int) && y0.fits(out@[j].0, out@[j].1.y as int) by {
            assert(x.fits(out2[j].0, out2[j].1.x as int));
            assert(y.fits(out2[j].0, out2[j].1.y as int));
        }
        assert forall|r: RoomId| rooms@.contains(r) implies #[trigger] position_of(out@, r) is Some by {
            lemma_same_rooms_position(out2, out@, r);
        }
        let fx = xs(out@);
        let fy = ys(out@);
        assert forall|r: RoomId| rooms@.contains(r) implies #[trigger] x0.fits(r, fx[r]) by {
            lemma_position_entry(out@, r);
            let j = choose|j: int| 0 <= j < out@.len() && #[trigger] out@[j] == (r, position_of(out@, r).unwrap());
            assert(x0.fits(out@[j].0, out@[j].1.x as int));
        }
        assert forall|r: RoomId| rooms@.contains(r) implies #[trigger] y0.fits(r, fy[r]) by {
            lemma_position_entry(out@, r);
            let j = choose|j: int| 0 <= j < out@.len() && #[trigger] out@[j] == (r, position_of(out@, r).unwrap());
            assert(y0.fits(out@[j].0, out@[j].1.y as int));
        }
        assert(keeps_all(fx, ex));
        assert(keeps_all(fy, ey));
        assert forall|j: int| 0 <= j < out@.len() implies rooms@.contains((#[trigger] out@[j]).0) by {
            assert(out@[j].0 == out2[j].0);
            assert(out2[j].0 == out1[j].0);
        }
        lemma_edges_in_rooms(rooms@, map@, dirs@, Axis::EastWest, rooms@.len());
        lemma_edges_in_rooms(rooms@, map@, dirs@, Axis::NorthSouth, rooms@.len());
    }
    let ghost out3 = out@;
    part(&mut out, rooms, &mut x, &mut y, Ghost(ex), Ghost(ey));
    proof {
        assert forall|j: int| 0 <= j < out@.len() implies rooms@.contains((#[trigger] out@[j]).0) by {
            assert(out@[j].0 == out3[j].0);
        }
        assert forall|a: int, b: int| 0 <= a < b < out@.len() implies (#[trigger] out@[a]).0 != (#[trigger] out@[b]).0 by {
            assert(out@[a].0 == out3[a].0 && out@[b].0 == out3[b].0);
            assert(out3[a].0 == out2[a].0 && out3[b].0 == out2[b].0);
            assert(out2[a].0 == out1[a].0 && out2[b].0 == out1[b].0);
        }
    }
    Some(out)
}

/// With no position for `r`, no entry names `r`.
proof fn lemma_no_entry(p: Seq<(RoomId, Cell)>, r: RoomId)
    requires
        position_of(p, r) is None,
    ensures
        forall|a: int| 0 <= a < p.len() ==> (#[trigger] p[a]).0 != r,
    decreases p.len(),
{
    if p.len() > 0 {
        lemma_no_entry(p.drop_first(), r);
        assert forall|a: int| 0 <= a < p.len() implies (#[trigger] p[a]).0 != r by {
            if a > 0 {
                assert(p[a] == p.drop_first()[a - 1]);
            }
        }
    }
}

proof fn lemma_position_push(p: Seq<(RoomId, Cell)>, e: (RoomId, Cell))
    requires
        position_of(p, e.0) is None,
    ensures
        position_of(p.push(e), e.0) == Some(e.1),
        forall|r: RoomId| r != e.0 ==> #[trigger] position_of(p.push(e), r) == position_of(p, r),
    decreases p.len(),
{
    if p.len() > 0 {
        assert(p.push(e).drop_first() == p.drop_first().push(e));
        assert(p.push(e)[0] == p[0]);
        assert(p[0].0 != e.0);
        lemma_position_push(p.drop_first(), e);
        assert forall|r: RoomId| r != e.0 implies #[trigger] position_of(p.push(e), r) == position_of(p, r) by {
            if p[0].0 != r {
                assert(position_of(p.push(e), r) == position_of(p.push(e).drop_first(), r));
                assert(position_of(p.drop_first().push(e), r) == position_of(p.drop_first(), r));
            }
        }
    } else {
        assert(p.push(e)[0] == e);
        assert(p.push(e).drop_first() == Seq::<(RoomId, Cell)>::empty());
        assert forall|r: RoomId| r != e.0 implies #[trigger] position_of(p.push(e), r) == position_of(p, r) by {
            assert(position_of(p.push(e).drop_first(), r) is None);
        }
    }
}


/// A set of classes that holds whatever comes after any of its members.
pub open spec fn closed_after(g: Map<i64, Vec<RoomId>>, set: Seq<RoomId>) -> bool {
    forall|a: RoomId, b: RoomId| set.contains(a) && #[trigger] arc(g, a, b) ==> set.contains(b)
}

impl Ranked {
    /// A class and every class after it.
    fn after(&self, start: RoomId) -> (set: Vec<RoomId>)
        requires
            self.orders(Seq::empty()),
            self.classes@.contains(start),
        ensures
            set@.contains(start),
            closed_after(self.graph@, set@),
            forall|c: RoomId| #[trigger] set@.contains(c) ==> self.classes@.contains(c),
    {
        let ghost g = self.graph@;
        let ghost cs = self.classes@;
        proof {
            assert(distinct_rooms(cs)) by {
                assert forall|a: int, b: int| 0 <= a < cs.len() && 0 <= b < cs.len() && a != b implies #[trigger] cs[a] != #[trigger] cs[b] by {
                    if a < b {
                        assert(cs[a].0 < cs[b].0);
                    } else {
                        assert(cs[b].0 < cs[a].0);
                    }
                }
            }
        }
        let mut seen: Vec<RoomId> = vec![start];
        proof {
            assert(seen@[0] == start);
            lemma_remaining_insert(cs, Set::empty(), start);
            assert(Set::<RoomId>::empty().insert(start) =~= seen@.to_set());
        }
        let mut i: usize = 0;
        while i < seen.len()
            invariant
                g == self.graph@,
                cs == self.classes@,
                distinct_rooms(cs),
                self.orders(Seq::empty()),
                seen@.contains(start),
                i <= seen@.len(),
                forall|c: RoomId| #[trigger] seen@.contains(c) ==> cs.contains(c),
                forall|j: int, b: RoomId| 0 <= j < i && #[trigger] arc(g, seen@[j], b) ==> seen@.contains(b),
            decreases remaining(cs, seen@.to_set()), seen@.len() - i,
        {
            let c = seen[i];
            let ghost before = seen@;
            let ghost rem0 = remaining(cs, seen@.to_set());
            match self.graph.get(c.0 as i64) {
                Some(t) => {
                    let mut j: usize = 0;
                    while j < t.len()
                        invariant
                            g == self.graph@,
                            cs == self.classes@,
                            distinct_rooms(cs),
                            self.orders(Seq::empty()),
                            t@ == targets(g, c),
                            j <= t@.len(),
                            seen@.len() >= before.len(),
                            forall|q: int| 0 <= q < before.len() ==> #[trigger] seen@[q] == before[q],
                            forall|x: RoomId| #[trigger] seen@.contains(x) ==> cs.contains(x),
                            forall|q: int| 0 <= q < j ==> seen@.contains(#[trigger] t@[q]),
                            remaining(cs, seen@.to_set()) <= rem0,
                            seen@.len() > before.len() ==> remaining(cs, seen@.to_set()) < rem0,
                        decreases t.len() - j,
                    {
                        let b = t[j];
                        proof {
                            assert(arc(g, c, b));
                        }
                        if !holds_room(seen.as_slice(), b) {
                            let ghost s0 = seen@;
                            seen.push(b);
                            proof {
                                assert(seen@ == s0.push(b));
                                assert forall|x: RoomId| seen@.to_set().contains(x) <==> s0.to_set().insert(b).contains(x) by {
                                    if seen@.contains(x) && x != b {
                                        let q = choose|q: int| 0 <= q < seen@.len() && seen@[q] == x;
                                        assert(s0[q] == x);
                                        assert(s0.contains(x));
                                    }
                                    if s0.contains(x) {
                                        let q = choose|q: int| 0 <= q < s0.len() && s0[q] == x;
                                        assert(seen@[q] == x);
                                    }
                                    if x == b {
                                        assert(seen@[s0.len() as int] == b);
                                    }
                                }
                                assert(seen@.to_set() =~= s0.to_set().insert(b));
                                lemma_remaining_insert(cs, s0.to_set(), b);
                                assert(!s0.to_set().contains(b));
                                assert forall|x: RoomId| #[trigger] seen@.contains(x) implies cs.contains(x) by {
                                    if x != b {
                                        let q = choose|q: int| 0 <= q < seen@.len() && seen@[q] == x;
                                        assert(s0[q] == x);
                                        assert(s0.contains(x));
                                    }
                                }
                                assert forall|q: int| 0 <= q < j + 1 implies seen@.contains(#[trigger] t@[q]) by {
                                    if q < j {
                                        let w = choose|w: int| 0 <= w < s0.len() && s0[w] == t@[q];
                                        assert(seen@[w] == t@[q]);
                                    } else {
                                        assert(seen@[s0.len() as int] == b);
                                    }
                                }
                            }
                        }
                        j = j + 1;
                    }
                    proof {
                        assert forall|b: RoomId| #[trigger] arc(g, c, b) implies seen@.contains(b) by {
                            let q = choose|q: int| 0 <= q < t@.len() && t@[q] == b;
                        }
                    }
                },
                None => {
                    proof {
                        assert forall|b: RoomId| #[trigger] arc(g, c, b) implies seen@.contains(b) by {}
                    }
                },
            }
            proof {
                assert forall|j: int, b: RoomId| 0 <= j < i + 1 && #[trigger] arc(g, seen@[j], b) implies seen@.contains(b) by {
                    assert(seen@[j] == before[j]);
                    if j < i {
                        assert(before.contains(b));
                        let w = choose|w: int| 0 <= w < before.len() && before[w] == b;
                        assert(seen@[w] == b);
                    }
                }
                assert(seen@.contains(start)) by {
                    let w = choose|w: int| 0 <= w < before.len() && before[w] == start;
                    assert(seen@[w] == start);
                }
            }
            i = i + 1;
        }
        proof {
            assert forall|a: RoomId, b: RoomId| seen@.contains(a) && #[trigger] arc(g, a, b) implies seen@.contains(b) by {
                let j = choose|j: int| 0 <= j < seen@.len() && seen@[j] == a;
            }
        }
        seen
    }
}

/// Moving a set of classes closed under "comes after" one step along the
/// axis keeps every constraint.
proof fn lemma_shift_keeps(
    rooms: Seq<RoomId>,
    edges: Seq<AxisEdge>,
    rk: Ranked,
    set: Seq<RoomId>,
    f: Map<RoomId, int>,
    f2: Map<RoomId, int>,
)
    requires
        keeps_all(f, edges),
        rk.orders(edges),
        closed_after(rk.graph@, set),
        forall|k: int| 0 <= k < edges.len() ==> rooms.contains((#[trigger] edges[k]).from) && rooms.contains(edges[k].to),
        forall|r: RoomId| rooms.contains(r) ==> #[trigger] f2[r] == f[r] + step_for(set, rk.union, r),
    ensures
        keeps_all(f2, edges),
{
    assert forall|k: int| 0 <= k < edges.len() implies keeps(f2, #[trigger] edges[k]) by {
        let e = edges[k];
        assert(keeps(f, edges[k]));
        assert(f2[e.from] == f[e.from] + step_for(set, rk.union, e.from));
        assert(f2[e.to] == f[e.to] + step_for(set, rk.union, e.to));
        if !e.equal {
            assert(arc(rk.graph@, rk.union.class(e.from), rk.union.class(e.to)));
        }
    }
}

/// One step for a room whose class is in the set, none otherwise.
pub open spec fn step_for(set: Seq<RoomId>, u: Union, r: RoomId) -> int {
    if set.contains(u.class(r)) {
        1
    } else {
        0
    }
}

/// Entries moved along one axis, room by room.
pub open spec fn moved_by(a: Seq<(RoomId, Cell)>, b: Seq<(RoomId, Cell)>, on_x: bool, set: Seq<RoomId>, u: Union) -> bool {
    &&& same_rooms(a, b)
    &&& forall|j: int| 0 <= j < a.len() ==> (if on_x {
        (#[trigger] b[j]).1.x == a[j].1.x + step_for(set, u, a[j].0) && b[j].1.y == a[j].1.y
    } else {
        b[j].1.y == a[j].1.y + step_for(set, u, a[j].0) && b[j].1.x == a[j].1.x
    })
}

proof fn lemma_moved_position(a: Seq<(RoomId, Cell)>, b: Seq<(RoomId, Cell)>, on_x: bool, set: Seq<RoomId>, u: Union, r: RoomId)
    requires
        moved_by(a, b, on_x, set, u),
    ensures
        position_of(a, r) is Some <==> position_of(b, r) is Some,
        position_of(a, r) matches Some(ca) ==> (if on_x {
            position_of(b, r).unwrap().x == ca.x + step_for(set, u, r) && position_of(b, r).unwrap().y == ca.y
        } else {
            position_of(b, r).unwrap().y == ca.y + step_for(set, u, r) && position_of(b, r).unwrap().x == ca.x
        }),
    decreases a.len(),
{
    if a.len() > 0 {
        assert(b[0].0 == a[0].0);
        assert(moved_by(a.drop_first(), b.drop_first(), on_x, set, u)) by {
            assert forall|j: int| 0 <= j < a.drop_first().len() implies (#[trigger] a.drop_first()[j]).0 == b.drop_first()[j].0 by {
                assert(a[j + 1].0 == b[j + 1].0);
            }
            assert forall|j: int| 0 <= j < a.drop_first().len() implies (if on_x {
                (#[trigger] b.drop_first()[j]).1.x == a.drop_first()[j].1.x + step_for(set, u, a.drop_first()[j].0) && b.drop_first()[j].1.y == a.drop_first()[j].1.y
            } else {
                b.drop_first()[j].1.y == a.drop_first()[j].1.y + step_for(set, u, a.drop_first()[j].0) && b.drop_first()[j].1.x == a.drop_first()[j].1.x
            }) by {
                assert(b.drop_first()[j] == b[j + 1]);
                assert(a.drop_first()[j] == a[j + 1]);
            }
        }
        lemma_moved_position(a.drop_first(), b.drop_first(), on_x, set, u, r);
    }
}

/// Move every room whose class is in `set` one step along the axis;
/// refused, with nothing moved, where a step would leave the `i32` range.
fn shift(out: &mut Vec<(RoomId, Cell)>, rk: &mut Ranked, set: &Vec<RoomId>, on_x: bool) -> (done: bool)
    requires
        old(rk).wf(),
    ensures
        final(rk).wf(),
        final(rk).graph@ == old(rk).graph@,
        final(rk).classes@ == old(rk).classes@,
        forall|x: RoomId| #[trigger] final(rk).union.class(x) == old(rk).union.class(x),
        forall|r: RoomId, v: int| #[trigger] final(rk).fits(r, v) == old(rk).fits(r, v),
        forall|rr: Seq<RoomId>, ee: Seq<AxisEdge>| #[trigger] old(rk).sound(rr, ee) ==> final(rk).sound(rr, ee),
        forall|ee: Seq<AxisEdge>| #[trigger] old(rk).orders(ee) ==> final(rk).orders(ee),
        final(rk).free@ == old(rk).free@,
        done ==> moved_by(old(out)@, final(out)@, on_x, set@, old(rk).union),
        !done ==> final(out)@ == old(out)@,
        done <==> forall|q: int| 0 <= q < old(out)@.len() ==> (if on_x {
            (#[trigger] old(out)@[q]).1.x + step_for(set@, old(rk).union, old(out)@[q].0) <= i32::MAX
        } else {
            old(out)@[q].1.y + step_for(set@, old(rk).union, old(out)@[q].0) <= i32::MAX
        }),
{
    let ghost rk0 = *rk;
    assert(rk0 == *old(rk));
    // First make sure every step stays on the grid.
    let n = out.len();
    let mut j: usize = 0;
    while j < n
        invariant
            n == out@.len(),
            out@ == old(out)@,
            rk0 == *old(rk),
            j <= n,
            rk.wf(),
            rk.graph@ == rk0.graph@,
            rk.classes@ == rk0.classes@,
            rk.free@ == rk0.free@,
            rk.bounds@ == rk0.bounds@,
            forall|x: RoomId| #[trigger] rk.union.class(x) == rk0.union.class(x),
            forall|r: RoomId, v: int| #[trigger] rk.fits(r, v) == rk0.fits(r, v),
            forall|rr: Seq<RoomId>, ee: Seq<AxisEdge>| #[trigger] rk0.sound(rr, ee) ==> rk.sound(rr, ee),
            forall|ee: Seq<AxisEdge>| #[trigger] rk0.orders(ee) ==> rk.orders(ee),
            forall|q: int| 0 <= q < j ==> (if on_x {
                (#[trigger] out@[q]).1.x + step_for(set@, rk0.union, out@[q].0) <= i32::MAX
            } else {
                out@[q].1.y + step_for(set@, rk0.union, out@[q].0) <= i32::MAX
            }),
        decreases n - j,
    {
        let c = rk.class_of(out[j].0);
        let v = if on_x {
            out[j].1.x
        } else {
            out[j].1.y
        };
        if v == i32::MAX && holds_room(set.as_slice(), c) {
            return false;
        }
        j = j + 1;
    }
    let ghost before = out@;
    let mut k: usize = 0;
    while k < n
        invariant
            n == out@.len(),
            n == before.len(),
            k <= n,
            rk.wf(),
            rk.graph@ == rk0.graph@,
            rk.classes@ == rk0.classes@,
            rk.free@ == rk0.free@,
            rk.bounds@ == rk0.bounds@,
            forall|x: RoomId| #[trigger] rk.union.class(x) == rk0.union.class(x),
            forall|r: RoomId, v: int| #[trigger] rk.fits(r, v) == rk0.fits(r, v),
            forall|rr: Seq<RoomId>, ee: Seq<AxisEdge>| #[trigger] rk0.sound(rr, ee) ==> rk.sound(rr, ee),
            forall|ee: Seq<AxisEdge>| #[trigger] rk0.orders(ee) ==> rk.orders(ee),
            forall|q: int| 0 <= q < n ==> (if on_x {
                (#[trigger] before[q]).1.x + step_for(set@, rk0.union, before[q].0) <= i32::MAX
            } else {
                before[q].1.y + step_for(set@, rk0.union, before[q].0) <= i32::MAX
            }),
            forall|q: int| k <= q < n ==> #[trigger] out@[q] == before[q],
            forall|q: int| 0 <= q < k ==> (#[trigger] out@[q]).0 == before[q].0 && (if on_x {
                out@[q].1.x == before[q].1.x + step_for(set@, rk0.union, before[q].0) && out@[q].1.y == before[q].1.y
            } else {
                out@[q].1.y == before[q].1.y + step_for(set@, rk0.union, before[q].0) && out@[q].1.x == before[q].1.x
            }),
        decreases n - k,
    {
        let room = out[k].0;
        let here = out[k].1;
        let c = rk.class_of(room);
        if holds_room(set.as_slice(), c) {
            let cell = if on_x {
                Cell { x: here.x + 1, y: here.y }
            } else {
                Cell { x: here.x, y: here.y + 1 }
            };
            out.set(k, (room, cell));
        }
        k = k + 1;
    }
    true
}


/// Rooms still sharing a cell after the nudge are parted: one room's
/// class is pushed one step east (or south) along an axis on which the two
/// differ, with every class after it, so nothing is reordered. Pass by
/// pass, until a pass moves nothing.
fn part(
    out: &mut Vec<(RoomId, Cell)>,
    rooms: &[RoomId],
    x: &mut Ranked,
    y: &mut Ranked,
    Ghost(ex): Ghost<Seq<AxisEdge>>,
    Ghost(ey): Ghost<Seq<AxisEdge>>,
)
    requires
        old(x).sound(rooms@, ex),
        old(y).sound(rooms@, ey),
        keeps_all(xs(old(out)@), ex),
        keeps_all(ys(old(out)@), ey),
        forall|r: RoomId| rooms@.contains(r) ==> #[trigger] position_of(old(out)@, r) is Some,
        forall|j: int| 0 <= j < old(out)@.len() ==> rooms@.contains((#[trigger] old(out)@[j]).0),
        forall|k: int| 0 <= k < ex.len() ==> rooms@.contains((#[trigger] ex[k]).from) && rooms@.contains(ex[k].to),
        forall|k: int| 0 <= k < ey.len() ==> rooms@.contains((#[trigger] ey[k]).from) && rooms@.contains(ey[k].to),
    ensures
        keeps_all(xs(final(out)@), ex),
        keeps_all(ys(final(out)@), ey),
        forall|r: RoomId| rooms@.contains(r) ==> #[trigger] position_of(final(out)@, r) is Some,
        same_rooms(old(out)@, final(out)@),
{
    let ghost start = out@;
    let mut pass: usize = 0;
    while pass < rooms.len()
        invariant
            x.sound(rooms@, ex),
            y.sound(rooms@, ey),
            keeps_all(xs(out@), ex),
            keeps_all(ys(out@), ey),
            forall|r: RoomId| rooms@.contains(r) ==> #[trigger] position_of(out@, r) is Some,
            forall|j: int| 0 <= j < out@.len() ==> rooms@.contains((#[trigger] out@[j]).0),
            forall|k: int| 0 <= k < ex.len() ==> rooms@.contains((#[trigger] ex[k]).from) && rooms@.contains(ex[k].to),
            forall|k: int| 0 <= k < ey.len() ==> rooms@.contains((#[trigger] ey[k]).from) && rooms@.contains(ey[k].to),
            same_rooms(start, out@),
        decreases rooms.len() - pass,
    {
        let mut moved = false;
        let mut i: usize = 0;
        while i < out.len()
            invariant
                x.sound(rooms@, ex),
                y.sound(rooms@, ey),
                keeps_all(xs(out@), ex),
                keeps_all(ys(out@), ey),
                forall|r: RoomId| rooms@.contains(r) ==> #[trigger] position_of(out@, r) is Some,
                forall|j: int| 0 <= j < out@.len() ==> rooms@.contains((#[trigger] out@[j]).0),
                forall|k: int| 0 <= k < ex.len() ==> rooms@.contains((#[trigger] ex[k]).from) && rooms@.contains(ex[k].to),
                forall|k: int| 0 <= k < ey.len() ==> rooms@.contains((#[trigger] ey[k]).from) && rooms@.contains(ey[k].to),
                same_rooms(start, out@),
            decreases out.len() - i,
        {
            let room = out[i].0;
            let here = out[i].1;
            let mut other: Option<RoomId> = None;
            let mut j: usize = 0;
            while j < out.len()
                invariant
                    j <= out@.len(),
                    forall|q: int| 0 <= q < out@.len() ==> rooms@.contains((#[trigger] out@[q]).0),
                    other matches Some(o) ==> rooms@.contains(o),
                decreases out.len() - j,
            {
                if j != i && other.is_none() && out[j].1.x == here.x && out[j].1.y == here.y {
                    other = Some(out[j].0);
                }
                j = j + 1;
            }
            proof {
                assert(rooms@.contains(room));
            }
            match other {
                Some(o) => {
                    let a = x.class_of(room);
                    let b = x.class_of(o);
                    if a.0 != b.0 {
                        let ghost out0 = out@;
                        let ghost x0 = *x;
                        let pushed = x.after(a);
                        let pushed = if holds_room(pushed.as_slice(), b) {
                            x.after(b)
                        } else {
                            pushed
                        };
                        if shift(out, x, &pushed, true) {
                            moved = true;
                            proof {
                                let f = xs(out0);
                                let f2 = xs(out@);
                                assert forall|r: RoomId| rooms@.contains(r) implies #[trigger] f2[r] == f[r] + step_for(pushed@, x0.union, r) by {
                                    lemma_moved_position(out0, out@, true, pushed@, x0.union, r);
                                }
                                lemma_shift_keeps(rooms@, ex, x0, pushed@, f, f2);
                                assert forall|r: RoomId| true implies #[trigger] ys(out@)[r] == ys(out0)[r] by {
                                    lemma_moved_position(out0, out@, true, pushed@, x0.union, r);
                                }
                                assert(ys(out@) =~= ys(out0));
                                assert forall|r: RoomId| rooms@.contains(r) implies #[trigger] position_of(out@, r) is Some by {
                                    lemma_moved_position(out0, out@, true, pushed@, x0.union, r);
                                }
                                assert forall|q: int| 0 <= q < out@.len() implies rooms@.contains((#[trigger] out@[q]).0) by {
                                    assert(out@[q].0 == out0[q].0);
                                }
                                assert forall|q: int| 0 <= q < start.len() implies (#[trigger] start[q]).0 == out@[q].0 by {
                                    assert(out@[q].0 == out0[q].0);
                                }
                            }
                        }
                    } else {
                        let a = y.class_of(room);
                        let b = y.class_of(o);
                        if a.0 != b.0 {
                            let ghost out0 = out@;
                            let ghost y0 = *y;
                            let pushed = y.after(a);
                            let pushed = if holds_room(pushed.as_slice(), b) {
                                y.after(b)
                            } else {
                                pushed
                            };
                            if shift(out, y, &pushed, false) {
                                moved = true;
                                proof {
                                    let f = ys(out0);
                                    let f2 = ys(out@);
                                    assert forall|r: RoomId| rooms@.contains(r) implies #[trigger] f2[r] == f[r] + step_for(pushed@, y0.union, r) by {
                                        lemma_moved_position(out0, out@, false, pushed@, y0.union, r);
                                    }
                                    lemma_shift_keeps(rooms@, ey, y0, pushed@, f, f2);
                                    assert forall|r: RoomId| true implies #[trigger] xs(out@)[r] == xs(out0)[r] by {
                                        lemma_moved_position(out0, out@, false, pushed@, y0.union, r);
                                    }
                                    assert(xs(out@) =~= xs(out0));
                                    assert forall|r: RoomId| rooms@.contains(r) implies #[trigger] position_of(out@, r) is Some by {
                                        lemma_moved_position(out0, out@, false, pushed@, y0.union, r);
                                    }
                                    assert forall|q: int| 0 <= q < out@.len() implies rooms@.contains((#[trigger] out@[q]).0) by {
                                        assert(out@[q].0 == out0[q].0);
                                    }
                                    assert forall|q: int| 0 <= q < start.len() implies (#[trigger] start[q]).0 == out@[q].0 by {
                                        assert(out@[q].0 == out0[q].0);
                                    }
                                }
                            }
                        }
                    }
                },
                None => {},
            }
            i = i + 1;
        }
        if !moved {
            break;
        }
        pass = pass + 1;
    }
}

} // verus!
