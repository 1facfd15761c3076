//! A connected component of the layout: its rooms in placement order,
//! their positions inside the component, and where the packer put it.

use vstd::prelude::*;

use crate::direction::Dir;
use crate::geometry::{Bounds, Cell, PackMethod, max, min};
use crate::model::RoomId;

verus! {

/// A compass edge whose placed geometry contradicts its stated bearing: a
/// genuine conflict in the data, kept visible rather than fixed silently.
#[derive(Debug, Clone, PartialEq, Eq)]
pub struct Violation {
    pub from: RoomId,
    pub to: RoomId,
    pub direction: Dir,
    pub actual: Cell,
}

/// One connected component.
#[derive(Debug, Clone, PartialEq, Eq)]
pub struct Group {
    pub index: usize,
    /// Room ids in placement order.
    pub room_ids: Vec<RoomId>,
    /// Positions inside the component, before the sheet offset; the first
    /// entry for a room is its position.
    pub positions: Vec<(RoomId, Cell)>,
    pub violations: Vec<Violation>,
    /// Where the packer put the component on the shared sheet, once it
    /// has.
    pub base_offset: Option<Cell>,
    pub packing: Option<PackMethod>,
    /// A building's name, for an interior component.
    pub name: Option<String>,
}

/// The position recorded for `id`: its first entry.
pub open spec fn position_of(positions: Seq<(RoomId, Cell)>, id: RoomId) -> Option<Cell>
    decreases positions.len(),
{
    if positions.len() == 0 {
        None
    } else if positions[0].0 == id {
        Some(positions[0].1)
    } else {
        position_of(positions.drop_first(), id)
    }
}

/// The sheet cell of `id`: its position moved by the component's offset.
pub open spec fn final_cell_of(g: Group, id: RoomId) -> Cell {
    let p = position_of(g.positions@, id).unwrap();
    let off = g.base_offset.unwrap();
    Cell { x: (p.x + off.x) as i32, y: (p.y + off.y) as i32 }
}

/// Folds of the positions' coordinates, starting from the far ends of the
/// `i32` range.
pub open spec fn min_x_of(ps: Seq<(RoomId, Cell)>) -> int
    decreases ps.len(),
{
    if ps.len() == 0 {
        i32::MAX as int
    } else {
        min(min_x_of(ps.drop_last()), ps.last().1.x as int)
    }
}

pub open spec fn max_x_of(ps: Seq<(RoomId, Cell)>) -> int
    decreases ps.len(),
{
    if ps.len() == 0 {
        i32::MIN as int
    } else {
        max(max_x_of(ps.drop_last()), ps.last().1.x as int)
    }
}

pub open spec fn min_y_of(ps: Seq<(RoomId, Cell)>) -> int
    decreases ps.len(),
{
    if ps.len() == 0 {
        i32::MAX as int
    } else {
        min(min_y_of(ps.drop_last()), ps.last().1.y as int)
    }
}

pub open spec fn max_y_of(ps: Seq<(RoomId, Cell)>) -> int
    decreases ps.len(),
{
    if ps.len() == 0 {
        i32::MIN as int
    } else {
        max(max_y_of(ps.drop_last()), ps.last().1.y as int)
    }
}

fn find_position(positions: &Vec<(RoomId, Cell)>, id: RoomId) -> (r: Option<Cell>)
    ensures
        r == position_of(positions@, id),
{
    let mut i: usize = 0;
    assert(positions@.skip(0) == positions@);
    while i < positions.len()
        invariant
            i <= positions@.len(),
            position_of(positions@, id) == position_of(positions@.skip(i as int), id),
        decreases positions.len() - i,
    {
        proof {
            let rest = positions@.skip(i as int);
            assert(rest.drop_first() == positions@.skip(i as int + 1));
        }
        if positions[i].0.0 == id.0 {
            return Some(positions[i].1);
        }
        i = i + 1;
    }
    None
}

impl Group {
    /// A room's cell on the shared sheet. Only for a room placed in this
    /// component, after the packer has placed the component.
    pub fn final_cell(&self, room_id: RoomId) -> (c: Cell)
        requires
            position_of(self.positions@, room_id) is Some,
            self.base_offset is Some,
            i32::MIN <= position_of(self.positions@, room_id).unwrap().x + self.base_offset.unwrap().x
                <= i32::MAX,
            i32::MIN <= position_of(self.positions@, room_id).unwrap().y + self.base_offset.unwrap().y
                <= i32::MAX,
        ensures
            c == final_cell_of(*self, room_id),
    {
        let internal = find_position(&self.positions, room_id).unwrap();
        let off = self.base_offset.unwrap();
        Cell { x: internal.x + off.x, y: internal.y + off.y }
    }

    /// The extent of the component's own positions; an empty component
    /// reports the inverted extremes of the `i32` range.
    pub fn bounds(&self) -> (b: Bounds)
        ensures
            b.min_x == min_x_of(self.positions@),
            b.max_x == max_x_of(self.positions@),
            b.min_y == min_y_of(self.positions@),
            b.max_y == max_y_of(self.positions@),
    {
        let mut b = Bounds { min_x: i32::MAX, max_x: i32::MIN, min_y: i32::MAX, max_y: i32::MIN };
        let mut i: usize = 0;
        while i < self.positions.len()
            invariant
                i <= self.positions@.len(),
                b.min_x == min_x_of(self.positions@.take(i as int)),
                b.max_x == max_x_of(self.positions@.take(i as int)),
                b.min_y == min_y_of(self.positions@.take(i as int)),
                b.max_y == max_y_of(self.positions@.take(i as int)),
            decreases self.positions.len() - i,
        {
            let p = self.positions[i].1;
            proof {
                assert(self.positions@.take(i as int + 1).drop_last() == self.positions@.take(
                    i as int,
                ));
            }
            if p.x < b.min_x {
                b.min_x = p.x;
            }
            if p.x > b.max_x {
                b.max_x = p.x;
            }
            if p.y < b.min_y {
                b.min_y = p.y;
            }
            if p.y > b.max_y {
                b.max_y = p.y;
            }
            i = i + 1;
        }
        proof {
            assert(self.positions@.take(i as int) == self.positions@);
        }
        b
    }
}

} // verus!
