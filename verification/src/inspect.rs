//! What the inspector says of a room's layout: the direction violations
//! that name it, phrased from its own point of view.

use vstd::prelude::*;

use crate::direction::{Dir, name_of};
use crate::group::{Group, Violation};
use crate::model::RoomId;
use crate::pipeline::Layout;

verus! {

/// A direction violation touching the inspected room: the room at the
/// other end, the direction the exit claims, and where that room actually
/// sits relative to this one, in cells.
pub struct ViolationLine {
    pub other: RoomId,
    pub stated: &'static str,
    pub dx: i32,
    pub dy: i32,
}

/// Every violation of the components, in order.
pub open spec fn all_violations(groups: Seq<Group>) -> Seq<Violation>
    decreases groups.len(),
{
    if groups.len() == 0 {
        Seq::empty()
    } else {
        all_violations(groups.drop_last()) + groups.last().violations@
    }
}

/// One violation as room `id` sees it: the other room, the claimed
/// direction and the offset, negated when `id` is the far end.
pub open spec fn seen_from(v: Violation, id: RoomId) -> Option<(RoomId, Dir, int, int)> {
    if v.from == id {
        Some((v.to, v.direction, v.actual.x as int, v.actual.y as int))
    } else if v.to == id {
        Some((v.from, v.direction, -v.actual.x, -v.actual.y))
    } else {
        None
    }
}

/// The violations naming `id`, each as it sees it, in order.
pub open spec fn lines_for(vs: Seq<Violation>, id: RoomId) -> Seq<(RoomId, Dir, int, int)>
    decreases vs.len(),
{
    if vs.len() == 0 {
        Seq::empty()
    } else {
        lines_for(vs.drop_last(), id) + match seen_from(vs.last(), id) {
            Some(t) => seq![t],
            None => Seq::empty(),
        }
    }
}

/// No violation's offset is the one `i32` cannot negate.
pub open spec fn negatable(groups: Seq<Group>) -> bool {
    forall|g: int, k: int|
        0 <= g < groups.len() && 0 <= k < groups[g].violations@.len() ==> (#[trigger] groups[g].violations@[k]).actual.x
            != i32::MIN && groups[g].violations@[k].actual.y != i32::MIN
}

/// Every violation naming `id`, phrased from its point of view: which room
/// is at the other end, what direction the exit claimed, and the offset it
/// actually ended up at, negated when `id` is the exit's far end.
pub fn violation_lines(id: RoomId, layout: &Layout) -> (lines: Vec<ViolationLine>)
    requires
        negatable(layout.groups@),
    ensures
        lines@.len() == lines_for(all_violations(layout.groups@), id).len(),
        forall|i: int|
            0 <= i < lines@.len() ==> {
                let t = lines_for(all_violations(layout.groups@), id)[i];
                &&& (#[trigger] lines@[i]).other == t.0
                &&& lines@[i].stated@ == name_of(t.1)
                &&& lines@[i].dx == t.2
                &&& lines@[i].dy == t.3
            },
{
    let groups = &layout.groups;
    let mut lines: Vec<ViolationLine> = Vec::new();
    let mut g: usize = 0;
    while g < groups.len()
        invariant
            g <= groups@.len(),
            negatable(groups@),
            lines@.len() == lines_for(all_violations(groups@.take(g as int)), id).len(),
            forall|i: int|
                0 <= i < lines@.len() ==> {
                    let t = lines_for(all_violations(groups@.take(g as int)), id)[i];
                    &&& (#[trigger] lines@[i]).other == t.0
                    &&& lines@[i].stated@ == name_of(t.1)
                    &&& lines@[i].dx == t.2
                    &&& lines@[i].dy == t.3
                },
        decreases groups.len() - g,
    {
        let vs = &groups[g].violations;
        let ghost pre = all_violations(groups@.take(g as int));
        let mut k: usize = 0;
        while k < vs.len()
            invariant
                g < groups@.len(),
                k <= vs@.len(),
                *vs == groups@[g as int].violations,
                negatable(groups@),
                lines@.len() == lines_for(pre + vs@.take(k as int), id).len(),
                forall|i: int|
                    0 <= i < lines@.len() ==> {
                        let t = lines_for(pre + vs@.take(k as int), id)[i];
                        &&& (#[trigger] lines@[i]).other == t.0
                        &&& lines@[i].stated@ == name_of(t.1)
                        &&& lines@[i].dx == t.2
                        &&& lines@[i].dy == t.3
                    },
            decreases vs.len() - k,
        {
            let v = &vs[k];
            let ghost before = lines@;
            let ghost s = pre + vs@.take(k as int);
            assert((pre + vs@.take(k + 1)).drop_last() =~= s);
            assert((pre + vs@.take(k + 1)).last() == vs@[k as int]);
            assert(groups@[g as int].violations@[k as int] == *v);
            if v.from.0 == id.0 {
                lines.push(ViolationLine { other: v.to, stated: v.direction.name(), dx: v.actual.x, dy: v.actual.y });
            } else if v.to.0 == id.0 {
                lines.push(ViolationLine { other: v.from, stated: v.direction.name(), dx: -v.actual.x, dy: -v.actual.y });
            }
            proof {
                let now = pre + vs@.take(k + 1);
                assert(lines_for(now, id) == lines_for(s, id) + match seen_from(vs@[k as int], id) {
                    Some(t) => seq![t],
                    None => Seq::empty(),
                });
                assert forall|i: int| 0 <= i < lines@.len() implies {
                    let t = lines_for(now, id)[i];
                    &&& (#[trigger] lines@[i]).other == t.0
                    &&& lines@[i].stated@ == name_of(t.1)
                    &&& lines@[i].dx == t.2
                    &&& lines@[i].dy == t.3
                } by {
                    if i < before.len() {
                        assert(lines@[i] == before[i]);
                        assert(lines_for(now, id)[i] == lines_for(s, id)[i]);
                    }
                }
            }
            k = k + 1;
        }
        assert(vs@.take(k as int) =~= vs@);
        assert(groups@.take(g + 1).drop_last() =~= groups@.take(g as int));
        assert(groups@.take(g + 1).last() == groups@[g as int]);
        g = g + 1;
    }
    assert(groups@.take(g as int) =~= groups@);
    lines
}

} // verus!
