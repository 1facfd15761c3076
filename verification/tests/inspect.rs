use cena_map_layout::classifier::Classification;
use cena_map_layout::direction::Dir;
use cena_map_layout::geometry::Cell;
use cena_map_layout::group::{Group, Violation};
use cena_map_layout::inspect::violation_lines;
use cena_map_layout::model::RoomId;
use cena_map_layout::pipeline::Layout;

fn group(index: usize, ids: &[u32], violations: Vec<Violation>) -> Group {
    Group {
        index,
        room_ids: ids.iter().map(|&i| RoomId(i)).collect(),
        positions: ids.iter().enumerate().map(|(k, &i)| (RoomId(i), Cell { x: k as i32, y: 0 })).collect(),
        violations,
        base_offset: Some(Cell { x: 0, y: 0 }),
        packing: None,
        name: None,
    }
}

fn layout(groups: Vec<Group>) -> Layout {
    let n = groups.len();
    Layout {
        groups,
        outdoor: (0..n).collect(),
        interiors: Vec::new(),
        classification: Classification {
            interior_groups: vec![false; n],
            entrances: vec![Vec::new(); n],
            entrance_room_ids: Vec::new(),
        },
        edges: Vec::new(),
        town_scale: 4,
    }
}

#[test]
fn a_violation_reads_from_either_end() {
    let v = Violation { from: RoomId(1), to: RoomId(2), direction: Dir::North, actual: Cell { x: 3, y: 1 } };
    let other = Violation { from: RoomId(5), to: RoomId(6), direction: Dir::East, actual: Cell { x: -1, y: 0 } };
    let l = layout(vec![group(0, &[1, 2], vec![v]), group(1, &[5, 6], vec![other])]);

    let from_start = violation_lines(RoomId(1), &l);
    assert_eq!(from_start.len(), 1);
    assert_eq!(from_start[0].other, RoomId(2));
    assert_eq!(from_start[0].stated, "north");
    assert_eq!((from_start[0].dx, from_start[0].dy), (3, 1));

    let from_end = violation_lines(RoomId(2), &l);
    assert_eq!(from_end.len(), 1);
    assert_eq!(from_end[0].other, RoomId(1));
    assert_eq!(from_end[0].stated, "north");
    assert_eq!((from_end[0].dx, from_end[0].dy), (-3, -1));

    assert!(violation_lines(RoomId(9), &l).is_empty());
}
