//! Direction analysis: the compass bearing of each exit, read from its own
//! kind and text, from the ported script it runs, or from the reverse
//! exit, with curated edge corrections layered on top.

use vstd::prelude::*;
use vstd::hash_map::HashMapWithView;

use crate::model::{Action, Crossing, Exit, ExitKind, Room, RoomId, RoomMap, Step, has_room, room_of};
pub use crate::text::contains_word;
use crate::text::{has_word, lower_trim, lowercase_of, same_text, trimmed};

verus! {

broadcast use vstd::std_specs::hash::group_hash_axioms;

/// A compass bearing, or up and down.
#[derive(Debug, Clone, Copy, PartialEq, Eq, Structural, Hash)]
pub enum Dir {
    North,
    South,
    East,
    West,
    Northeast,
    Northwest,
    Southeast,
    Southwest,
    Up,
    Down,
}

/// A direction's full name.
pub open spec fn name_of(d: Dir) -> Seq<char> {
    match d {
        Dir::North => "north"@,
        Dir::South => "south"@,
        Dir::East => "east"@,
        Dir::West => "west"@,
        Dir::Northeast => "northeast"@,
        Dir::Northwest => "northwest"@,
        Dir::Southeast => "southeast"@,
        Dir::Southwest => "southwest"@,
        Dir::Up => "up"@,
        Dir::Down => "down"@,
    }
}

/// The direction a full name names exactly.
pub open spec fn exact_dir(s: Seq<char>) -> Option<Dir> {
    if s == "north"@ {
        Some(Dir::North)
    } else if s == "south"@ {
        Some(Dir::South)
    } else if s == "east"@ {
        Some(Dir::East)
    } else if s == "west"@ {
        Some(Dir::West)
    } else if s == "northeast"@ {
        Some(Dir::Northeast)
    } else if s == "northwest"@ {
        Some(Dir::Northwest)
    } else if s == "southeast"@ {
        Some(Dir::Southeast)
    } else if s == "southwest"@ {
        Some(Dir::Southwest)
    } else if s == "up"@ {
        Some(Dir::Up)
    } else if s == "down"@ {
        Some(Dir::Down)
    } else {
        None
    }
}

/// The direction a short form names exactly: `n`, `ne`, `u`, ...
pub open spec fn abbrev_dir(s: Seq<char>) -> Option<Dir> {
    if s == "n"@ {
        Some(Dir::North)
    } else if s == "s"@ {
        Some(Dir::South)
    } else if s == "e"@ {
        Some(Dir::East)
    } else if s == "w"@ {
        Some(Dir::West)
    } else if s == "ne"@ {
        Some(Dir::Northeast)
    } else if s == "nw"@ {
        Some(Dir::Northwest)
    } else if s == "se"@ {
        Some(Dir::Southeast)
    } else if s == "sw"@ {
        Some(Dir::Southwest)
    } else if s == "u"@ {
        Some(Dir::Up)
    } else if s == "d"@ {
        Some(Dir::Down)
    } else {
        None
    }
}

/// A full name, else a short form.
pub open spec fn named_dir(s: Seq<char>) -> Option<Dir> {
    if exact_dir(s) is Some {
        exact_dir(s)
    } else {
        abbrev_dir(s)
    }
}

pub open spec fn opposite_of(d: Dir) -> Dir {
    match d {
        Dir::North => Dir::South,
        Dir::South => Dir::North,
        Dir::East => Dir::West,
        Dir::West => Dir::East,
        Dir::Northeast => Dir::Southwest,
        Dir::Southwest => Dir::Northeast,
        Dir::Northwest => Dir::Southeast,
        Dir::Southeast => Dir::Northwest,
        Dir::Up => Dir::Down,
        Dir::Down => Dir::Up,
    }
}

/// The grid step a direction takes; up and down borrow north and south.
pub open spec fn offset_of(d: Dir) -> (int, int) {
    match d {
        Dir::North | Dir::Up => (0, -1),
        Dir::South | Dir::Down => (0, 1),
        Dir::East => (1, 0),
        Dir::West => (-1, 0),
        Dir::Northeast => (1, -1),
        Dir::Northwest => (-1, -1),
        Dir::Southeast => (1, 1),
        Dir::Southwest => (-1, 1),
    }
}

pub open spec fn compass(d: Dir) -> bool {
    !(d is Up || d is Down)
}

impl Dir {
    /// The direction a full name names: `north`, ..., `up`, `down`. `out`
    /// is not one of them.
    pub fn from_exact(s: &str) -> (r: Option<Dir>)
        ensures
            r == exact_dir(s@),
    {
        if same_text(s, "north") {
            Some(Dir::North)
        } else if same_text(s, "south") {
            Some(Dir::South)
        } else if same_text(s, "east") {
            Some(Dir::East)
        } else if same_text(s, "west") {
            Some(Dir::West)
        } else if same_text(s, "northeast") {
            Some(Dir::Northeast)
        } else if same_text(s, "northwest") {
            Some(Dir::Northwest)
        } else if same_text(s, "southeast") {
            Some(Dir::Southeast)
        } else if same_text(s, "southwest") {
            Some(Dir::Southwest)
        } else if same_text(s, "up") {
            Some(Dir::Up)
        } else if same_text(s, "down") {
            Some(Dir::Down)
        } else {
            None
        }
    }

    /// The short forms the game takes as whole commands: `n`, `ne`, `sw`,
    /// `u`, `d`. Only ever matched against a command in its entirety.
    pub fn from_abbreviation(s: &str) -> (r: Option<Dir>)
        ensures
            r == abbrev_dir(s@),
    {
        if same_text(s, "n") {
            Some(Dir::North)
        } else if same_text(s, "s") {
            Some(Dir::South)
        } else if same_text(s, "e") {
            Some(Dir::East)
        } else if same_text(s, "w") {
            Some(Dir::West)
        } else if same_text(s, "ne") {
            Some(Dir::Northeast)
        } else if same_text(s, "nw") {
            Some(Dir::Northwest)
        } else if same_text(s, "se") {
            Some(Dir::Southeast)
        } else if same_text(s, "sw") {
            Some(Dir::Southwest)
        } else if same_text(s, "u") {
            Some(Dir::Up)
        } else if same_text(s, "d") {
            Some(Dir::Down)
        } else {
            None
        }
    }

    pub fn name(self) -> (r: &'static str)
        ensures
            r@ == name_of(self),
    {
        match self {
            Dir::North => "north",
            Dir::South => "south",
            Dir::East => "east",
            Dir::West => "west",
            Dir::Northeast => "northeast",
            Dir::Northwest => "northwest",
            Dir::Southeast => "southeast",
            Dir::Southwest => "southwest",
            Dir::Up => "up",
            Dir::Down => "down",
        }
    }

    pub fn opposite(self) -> (r: Dir)
        ensures
            r == opposite_of(self),
    {
        match self {
            Dir::North => Dir::South,
            Dir::South => Dir::North,
            Dir::East => Dir::West,
            Dir::West => Dir::East,
            Dir::Northeast => Dir::Southwest,
            Dir::Southwest => Dir::Northeast,
            Dir::Northwest => Dir::Southeast,
            Dir::Southeast => Dir::Northwest,
            Dir::Up => Dir::Down,
            Dir::Down => Dir::Up,
        }
    }

    /// Grid offset. Up and down borrow the north/south offsets as a
    /// placement convenience; elevation is not drawn.
    pub fn offset(self) -> (r: (i32, i32))
        ensures
            r.0 == offset_of(self).0,
            r.1 == offset_of(self).1,
    {
        match self {
            Dir::North | Dir::Up => (0, -1),
            Dir::South | Dir::Down => (0, 1),
            Dir::East => (1, 0),
            Dir::West => (-1, 0),
            Dir::Northeast => (1, -1),
            Dir::Northwest => (-1, -1),
            Dir::Southeast => (1, 1),
            Dir::Southwest => (-1, 1),
        }
    }

    /// True 2D geometry only: up and down are excluded from validation
    /// and optimization.
    pub fn is_compass(self) -> (r: bool)
        ensures
            r == compass(self),
    {
        !(matches!(self, Dir::Up) || matches!(self, Dir::Down))
    }
}

/// Every direction's name reads back as that direction.
pub proof fn lemma_name_round_trip(d: Dir)
    ensures
        exact_dir(name_of(d)) == Some(d),
{
    reveal_strlit("north");
    reveal_strlit("south");
    reveal_strlit("east");
    reveal_strlit("west");
    reveal_strlit("northeast");
    reveal_strlit("northwest");
    reveal_strlit("southeast");
    reveal_strlit("southwest");
    reveal_strlit("up");
    reveal_strlit("down");
    match d {
        Dir::North => {},
        Dir::South => {
            assert(name_of(d)[0] != "north"@[0]);
        },
        Dir::East => {
            assert(name_of(d).len() != "north"@.len());
            assert(name_of(d).len() != "south"@.len());
        },
        Dir::West => {
            assert(name_of(d).len() != "north"@.len());
            assert(name_of(d).len() != "south"@.len());
            assert(name_of(d)[0] != "east"@[0]);
        },
        Dir::Northeast => {
            assert(name_of(d).len() != "north"@.len());
            assert(name_of(d).len() != "south"@.len());
            assert(name_of(d).len() != "east"@.len());
            assert(name_of(d).len() != "west"@.len());
        },
        Dir::Northwest => {
            assert(name_of(d).len() != "north"@.len());
            assert(name_of(d).len() != "south"@.len());
            assert(name_of(d).len() != "east"@.len());
            assert(name_of(d).len() != "west"@.len());
            assert(name_of(d)[5] != "northeast"@[5]);
        },
        Dir::Southeast => {
            assert(name_of(d).len() != "north"@.len());
            assert(name_of(d).len() != "south"@.len());
            assert(name_of(d).len() != "east"@.len());
            assert(name_of(d).len() != "west"@.len());
            assert(name_of(d)[0] != "northeast"@[0]);
            assert(name_of(d)[0] != "northwest"@[0]);
        },
        Dir::Southwest => {
            assert(name_of(d).len() != "north"@.len());
            assert(name_of(d).len() != "south"@.len());
            assert(name_of(d).len() != "east"@.len());
            assert(name_of(d).len() != "west"@.len());
            assert(name_of(d)[0] != "northeast"@[0]);
            assert(name_of(d)[0] != "northwest"@[0]);
            assert(name_of(d)[5] != "southeast"@[5]);
        },
        Dir::Up => {
            assert(name_of(d).len() != "north"@.len());
            assert(name_of(d).len() != "south"@.len());
            assert(name_of(d).len() != "east"@.len());
            assert(name_of(d).len() != "west"@.len());
            assert(name_of(d).len() != "northeast"@.len());
            assert(name_of(d).len() != "northwest"@.len());
            assert(name_of(d).len() != "southeast"@.len());
            assert(name_of(d).len() != "southwest"@.len());
        },
        Dir::Down => {
            assert(name_of(d).len() != "north"@.len());
            assert(name_of(d).len() != "south"@.len());
            assert(name_of(d)[0] != "east"@[0]);
            assert(name_of(d)[0] != "west"@[0]);
            assert(name_of(d).len() != "northeast"@.len());
            assert(name_of(d).len() != "northwest"@.len());
            assert(name_of(d).len() != "southeast"@.len());
            assert(name_of(d).len() != "southwest"@.len());
            assert(name_of(d).len() != "up"@.len());
        },
    }
}

/// Reversing a direction twice gives it back, and reverses its offset.
pub proof fn lemma_opposite_involution(d: Dir)
    ensures
        opposite_of(opposite_of(d)) == d,
        offset_of(opposite_of(d)).0 == -offset_of(d).0,
        offset_of(opposite_of(d)).1 == -offset_of(d).1,
        compass(opposite_of(d)) == compass(d),
{
}

/// The scan for a direction inside free text: longest names first, so
/// `northeast` wins over `north`, and only on word boundaries.
pub open spec fn scan_dir(cmd: Seq<char>) -> Option<Dir> {
    if has_word(cmd, "northeast"@) {
        Some(Dir::Northeast)
    } else if has_word(cmd, "northwest"@) {
        Some(Dir::Northwest)
    } else if has_word(cmd, "southeast"@) {
        Some(Dir::Southeast)
    } else if has_word(cmd, "southwest"@) {
        Some(Dir::Southwest)
    } else if has_word(cmd, "north"@) {
        Some(Dir::North)
    } else if has_word(cmd, "south"@) {
        Some(Dir::South)
    } else if has_word(cmd, "east"@) {
        Some(Dir::East)
    } else if has_word(cmd, "west"@) {
        Some(Dir::West)
    } else if has_word(cmd, "down"@) {
        Some(Dir::Down)
    } else if has_word(cmd, "up"@) {
        Some(Dir::Up)
    } else {
        None
    }
}

/// A command's text, as it is compared: trimmed and lowercased.
pub open spec fn command_key(command: Seq<char>) -> Seq<char> {
    lowercase_of(trimmed(command))
}

/// The direction a plain command names: an exact name or short form,
/// else a word-boundary scan of its text.
pub open spec fn command_dir(command: Seq<char>) -> Option<Dir> {
    let cmd = command_key(command);
    if named_dir(cmd) is Some {
        named_dir(cmd)
    } else {
        scan_dir(cmd)
    }
}

/// The direction an already lowered and trimmed command names exactly:
/// a full name, else a short form.
pub fn named_direction(cmd: &str) -> (r: Option<Dir>)
    ensures
        r == named_dir(cmd@),
{
    match Dir::from_exact(cmd) {
        Some(d) => Some(d),
        None => Dir::from_abbreviation(cmd),
    }
}

/// The direction named inside an already lowered command's text, on word
/// boundaries, longest names first.
pub fn scan_direction(cmd: &str) -> (r: Option<Dir>)
    ensures
        r == scan_dir(cmd@),
{
    if contains_word(cmd, "northeast") {
        Some(Dir::Northeast)
    } else if contains_word(cmd, "northwest") {
        Some(Dir::Northwest)
    } else if contains_word(cmd, "southeast") {
        Some(Dir::Southeast)
    } else if contains_word(cmd, "southwest") {
        Some(Dir::Southwest)
    } else if contains_word(cmd, "north") {
        Some(Dir::North)
    } else if contains_word(cmd, "south") {
        Some(Dir::South)
    } else if contains_word(cmd, "east") {
        Some(Dir::East)
    } else if contains_word(cmd, "west") {
        Some(Dir::West)
    } else if contains_word(cmd, "down") {
        Some(Dir::Down)
    } else if contains_word(cmd, "up") {
        Some(Dir::Up)
    } else {
        None
    }
}

/// The direction a plain command names, if any: an exact cardinal or
/// short form, else a word-boundary scan (`"go northeast gate"` is
/// northeast, `"go upper hallway"` is nothing).
pub fn direction_from_command(command: &str) -> (r: Option<Dir>)
    ensures
        r == command_dir(command@),
{
    let cmd = lower_trim(command);
    match named_direction(cmd.as_str()) {
        Some(d) => Some(d),
        None => scan_direction(cmd.as_str()),
    }
}

/// A direction found by scanning free text is one whose own name the text
/// holds as a whole word; the scan finds nothing exactly when the text
/// holds no direction's name as a whole word.
pub proof fn lemma_scan_finds_a_named_word(cmd: Seq<char>)
    ensures
        scan_dir(cmd) matches Some(d) ==> has_word(cmd, name_of(d)),
        scan_dir(cmd) is None <==> forall|d: Dir| !has_word(cmd, #[trigger] name_of(d)),
{
    if scan_dir(cmd) is None {
        assert forall|d: Dir| !has_word(cmd, #[trigger] name_of(d)) by {
            match d {
                Dir::North => {},
                Dir::South => {},
                Dir::East => {},
                Dir::West => {},
                Dir::Northeast => {},
                Dir::Northwest => {},
                Dir::Southeast => {},
                Dir::Southwest => {},
                Dir::Up => {},
                Dir::Down => {},
            }
        }
    } else {
        let d = scan_dir(cmd)->0;
        assert(has_word(cmd, name_of(d)));
    }
}

/// Where a direction's name stands in the scan: the diagonals before the
/// cardinals they contain, down before up.
pub open spec fn scan_rank(d: Dir) -> int {
    match d {
        Dir::Northeast => 0,
        Dir::Northwest => 1,
        Dir::Southeast => 2,
        Dir::Southwest => 3,
        Dir::North => 4,
        Dir::South => 5,
        Dir::East => 6,
        Dir::West => 7,
        Dir::Down => 8,
        Dir::Up => 9,
    }
}

/// The scan finds the first direction, longest names first, whose name
/// the text holds as a whole word: no direction ranked before it is
/// named there, so text naming a diagonal always gives a diagonal.
pub proof fn lemma_scan_takes_the_first_named(cmd: Seq<char>)
    ensures
        scan_dir(cmd) matches Some(d) ==> forall|e: Dir| scan_rank(e) < scan_rank(d) ==> !has_word(cmd, #[trigger] name_of(e)),
        forall|e: Dir| has_word(cmd, #[trigger] name_of(e)) ==> (scan_dir(cmd) matches Some(d) && scan_rank(d) <= scan_rank(e)),
{
    if scan_dir(cmd) is Some {
        let d = scan_dir(cmd)->0;
        assert forall|e: Dir| scan_rank(e) < scan_rank(d) implies !has_word(cmd, #[trigger] name_of(e)) by {
            match e {
                Dir::North => {},
                Dir::South => {},
                Dir::East => {},
                Dir::West => {},
                Dir::Northeast => {},
                Dir::Northwest => {},
                Dir::Southeast => {},
                Dir::Southwest => {},
                Dir::Up => {},
                Dir::Down => {},
            }
        }
    }
    assert forall|e: Dir| has_word(cmd, #[trigger] name_of(e)) implies (scan_dir(cmd) matches Some(d) && scan_rank(d)
        <= scan_rank(e)) by {
        match e {
            Dir::North => {},
            Dir::South => {},
            Dir::East => {},
            Dir::West => {},
            Dir::Northeast => {},
            Dir::Northwest => {},
            Dir::Southeast => {},
            Dir::Southwest => {},
            Dir::Up => {},
            Dir::Down => {},
        }
    }
}

/// A plain command's direction is the one its whole text names, or one
/// whose own name the text holds as a whole word.
pub proof fn lemma_command_names_its_direction(command: Seq<char>)
    ensures
        command_dir(command) matches Some(d) ==> named_dir(command_key(command)) == Some(d) || has_word(
            command_key(command),
            name_of(d),
        ),
{
    lemma_scan_finds_a_named_word(command_key(command));
}

/// Whether an action can leave the room.
pub open spec fn leaves_room(a: Action) -> bool {
    !(a is Stay)
}

/// The bearing a ported script names: only when its first action is a
/// plain move of a direction, and no later step moves again. A guard is
/// ignored: it says whether the exit can be walked, not which way it
/// points.
pub open spec fn steps_dir(steps: Seq<Step>) -> Option<Dir> {
    if steps.len() == 0 {
        None
    } else {
        match steps[0].action {
            Action::Move(command) => if exists|i: int|
                1 <= i < steps.len() && #[trigger] leaves_room(steps[i].action) {
                None
            } else {
                named_dir(command_key(command@))
            },
            _ => None,
        }
    }
}

/// One exit's direction, from its kind and how it is crossed.
pub open spec fn exit_dir(kind: ExitKind, crossing: Crossing) -> Option<Dir> {
    match crossing {
        Crossing::Command(command) => match kind {
            ExitKind::Vertical => named_dir(command_key(command@)),
            ExitKind::Scripted => None,
            _ => command_dir(command@),
        },
        Crossing::Steps(steps) => steps_dir(steps@),
        _ => None,
    }
}

/// Whether an action can leave the room.
pub fn changes_rooms(action: &Action) -> (r: bool)
    ensures
        r == leaves_room(*action),
{
    !matches!(action, Action::Stay(_))
}

/// The bearing a ported script's steps name, if any.
pub fn direction_from_steps(steps: &[Step]) -> (r: Option<Dir>)
    ensures
        r == steps_dir(steps@),
{
    if steps.len() == 0 {
        return None;
    }
    let command = match &steps[0].action {
        Action::Move(command) => command,
        _ => {
            return None;
        },
    };
    let mut i: usize = 1;
    while i < steps.len()
        invariant
            1 <= i <= steps.len(),
            forall|k: int| 1 <= k < i ==> !#[trigger] leaves_room(steps@[k].action),
        decreases steps.len() - i,
    {
        if changes_rooms(&steps[i].action) {
            return None;
        }
        i = i + 1;
    }
    let cmd = lower_trim(command.as_str());
    named_direction(cmd.as_str())
}

/// One exit's direction, read from its own kind and text. A vertical
/// exit is only ever an exact name or short form, never a text scan.
pub fn direction_from_exit(kind: ExitKind, crossing: &Crossing) -> (r: Option<Dir>)
    ensures
        r == exit_dir(kind, *crossing),
{
    match crossing {
        Crossing::Command(command) => match kind {
            ExitKind::Vertical => {
                let cmd = lower_trim(command.as_str());
                named_direction(cmd.as_str())
            },
            ExitKind::Scripted => None,
            _ => direction_from_command(command.as_str()),
        },
        Crossing::Steps(steps) => direction_from_steps(steps.as_slice()),
        _ => None,
    }
}

/// What a curated correction does to one edge.
#[derive(Debug, Clone, Copy, PartialEq, Eq, Structural, Hash)]
pub enum EdgeAction {
    /// Keep the two rooms connected, but position by nothing: a passage.
    Connector,
    /// Position by this bearing, read from the first room to the second.
    Direction(Dir),
}

/// A curated edge correction, between two rooms of this map.
#[derive(Debug, Clone, Copy, PartialEq, Eq, Structural)]
pub struct EdgeOverride {
    pub a: RoomId,
    pub b: RoomId,
    pub action: EdgeAction,
}

/// The key an ordered pair of rooms is stored under.
pub open spec fn pair_key(a: RoomId, b: RoomId) -> u64 {
    (a.0 as u64 * 4294967296 + b.0 as u64) as u64
}

/// Distinct pairs are stored under distinct keys.
pub proof fn lemma_pair_key_injective(a: RoomId, b: RoomId, c: RoomId, d: RoomId)
    ensures
        pair_key(a, b) == pair_key(c, d) ==> a == c && b == d,
{
    let (x, y, z, w) = (a.0 as int, b.0 as int, c.0 as int, d.0 as int);
    assert(x * 4294967296 + y < 18446744073709551616) by (nonlinear_arith)
        requires
            0 <= x < 4294967296,
            0 <= y < 4294967296,
    ;
    assert(z * 4294967296 + w < 18446744073709551616) by (nonlinear_arith)
        requires
            0 <= z < 4294967296,
            0 <= w < 4294967296,
    ;
    if pair_key(a, b) == pair_key(c, d) {
        assert(x == z && y == w) by (nonlinear_arith)
            requires
                x * 4294967296 + y == z * 4294967296 + w,
                0 <= y < 4294967296,
                0 <= w < 4294967296,
        ;
    }
}

pub(crate) fn key_of(a: RoomId, b: RoomId) -> (k: u64)
    ensures
        k == pair_key(a, b),
{
    assert((a.0 as int) * 4294967296 + (b.0 as int) < 18446744073709551616) by (nonlinear_arith)
        requires
            a.0 < 4294967296,
            b.0 < 4294967296,
    ;
    (a.0 as u64) * 4294967296 + (b.0 as u64)
}

/// The bearing stored for `a -> b`, if any.
pub open spec fn dir_at(m: Map<u64, Dir>, a: RoomId, b: RoomId) -> Option<Dir> {
    if m.contains_key(pair_key(a, b)) {
        Some(m[pair_key(a, b)])
    } else {
        None
    }
}

/// The first exit in the list that leads to `to`.
pub open spec fn first_exit_to(exits: Seq<Exit>, to: RoomId) -> Option<Exit>
    decreases exits.len(),
{
    if exits.len() == 0 {
        None
    } else if exits[0].to == to {
        Some(exits[0])
    } else {
        first_exit_to(exits.drop_first(), to)
    }
}

/// The bearing of `room -> target` read off the way back: only an exact
/// name or short form on the reverse exit is trusted, and reversed.
pub open spec fn reverse_dir(rooms: Seq<Room>, room: RoomId, target: RoomId) -> Option<Dir> {
    match room_of(rooms, target) {
        None => None,
        Some(back) => match first_exit_to(back.exits@, room) {
            None => None,
            Some(e) => match e.crossing {
                Crossing::Command(command) => match named_dir(command_key(command@)) {
                    Some(d) => Some(opposite_of(d)),
                    None => None,
                },
                _ => None,
            },
        },
    }
}

/// The resolved bearing of one exit of room `from`: its own, else the
/// reverse exit's. Exits leaving the map resolve to nothing.
pub open spec fn edge_dir(rooms: Seq<Room>, from: RoomId, exit: Exit) -> Option<Dir> {
    if !has_room(rooms, exit.to) {
        None
    } else if exit_dir(exit.kind, exit.crossing) is Some {
        exit_dir(exit.kind, exit.crossing)
    } else {
        reverse_dir(rooms, from, exit.to)
    }
}

/// `acc` with the bearings of these exits of room `from` recorded, later
/// exits overwriting earlier ones to the same room.
pub open spec fn resolve_exits(
    acc: Map<u64, Dir>,
    rooms: Seq<Room>,
    from: RoomId,
    exits: Seq<Exit>,
) -> Map<u64, Dir>
    decreases exits.len(),
{
    if exits.len() == 0 {
        acc
    } else {
        let prev = resolve_exits(acc, rooms, from, exits.drop_last());
        match edge_dir(rooms, from, exits.last()) {
            Some(d) => prev.insert(pair_key(from, exits.last().to), d),
            None => prev,
        }
    }
}

/// The bearings of every exit of these rooms.
pub open spec fn resolve_rooms(rooms: Seq<Room>, upto: Seq<Room>) -> Map<u64, Dir>
    decreases upto.len(),
{
    if upto.len() == 0 {
        Map::empty()
    } else {
        resolve_exits(
            resolve_rooms(rooms, upto.drop_last()),
            rooms,
            upto.last().id,
            upto.last().exits@,
        )
    }
}

/// Whether room `from` has an exit to `to`.
pub open spec fn has_exit(rooms: Seq<Room>, from: RoomId, to: RoomId) -> bool {
    match room_of(rooms, from) {
        Some(r) => exists|k: int| 0 <= k < r.exits@.len() && #[trigger] r.exits@[k].to == to,
        None => false,
    }
}

/// One correction applied: a passage forgets the edge both ways; a
/// bearing is set for the senses the map has an exit for, the reverse
/// sense to the opposite.
pub open spec fn apply_edge(m: Map<u64, Dir>, rooms: Seq<Room>, e: EdgeOverride) -> Map<u64, Dir> {
    match e.action {
        EdgeAction::Connector => m.remove(pair_key(e.a, e.b)).remove(pair_key(e.b, e.a)),
        EdgeAction::Direction(d) => {
            let m1 = if has_exit(rooms, e.a, e.b) {
                m.insert(pair_key(e.a, e.b), d)
            } else {
                m
            };
            if has_exit(rooms, e.b, e.a) {
                m1.insert(pair_key(e.b, e.a), opposite_of(d))
            } else {
                m1
            }
        },
    }
}

/// Every correction applied, in order.
pub open spec fn apply_edges(m: Map<u64, Dir>, rooms: Seq<Room>, edges: Seq<EdgeOverride>) -> Map<
    u64,
    Dir,
>
    decreases edges.len(),
{
    if edges.len() == 0 {
        m
    } else {
        apply_edge(apply_edges(m, rooms, edges.drop_last()), rooms, edges.last())
    }
}

/// Every edge's resolved direction, computed once up front.
pub struct DirectionMap {
    map: HashMapWithView<u64, Dir>,
}

impl View for DirectionMap {
    type V = Map<u64, Dir>;

    closed spec fn view(&self) -> Map<u64, Dir> {
        self.map@
    }
}

/// Whether room `from` in `map` has an exit to `to`.
fn exit_exists(map: &RoomMap, from: RoomId, to: RoomId) -> (b: bool)
    ensures
        b == has_exit(map@, from, to),
{
    match map.room(from) {
        Some(r) => {
            assert(room_of(map@, from) == Some(*r));
            let mut k: usize = 0;
            while k < r.exits.len()
                invariant
                    k <= r.exits@.len(),
                    room_of(map@, from) == Some(*r),
                    forall|j: int| 0 <= j < k ==> #[trigger] r.exits@[j].to != to,
                decreases r.exits.len() - k,
            {
                if r.exits[k].to.0 == to.0 {
                    assert(r.exits@[k as int].to == to);
                    assert(exists|j: int| 0 <= j < r.exits@.len() && #[trigger] r.exits@[j].to == to);
                    return true;
                }
                k = k + 1;
            }
            false
        },
        None => false,
    }
}

fn first_exit_index(exits: &Vec<Exit>, to: RoomId) -> (r: Option<usize>)
    ensures
        match r {
            Some(k) => k < exits.len() && first_exit_to(exits@, to) == Some(exits@[k as int]),
            None => first_exit_to(exits@, to) is None,
        },
{
    let mut k: usize = 0;
    assert(exits@.subrange(0, exits@.len() as int) =~= exits@);
    while k < exits.len()
        invariant
            k <= exits@.len(),
            first_exit_to(exits@, to) == first_exit_to(exits@.subrange(k as int, exits@.len() as int), to),
        decreases exits.len() - k,
    {
        let ghost rest = exits@.subrange(k as int, exits@.len() as int);
        assert(rest.drop_first() =~= exits@.subrange(k + 1, exits@.len() as int));
        if exits[k].to.0 == to.0 {
            return Some(k);
        }
        k = k + 1;
    }
    None
}

/// A bare name or short form on the reverse exit reverses. Extracted
/// word-boundary hints are too weak to reverse.
fn infer_from_reverse(map: &RoomMap, room: RoomId, target: RoomId) -> (r: Option<Dir>)
    ensures
        r == reverse_dir(map@, room, target),
{
    let back = match map.room(target) {
        Some(b) => b,
        None => {
            return None;
        },
    };
    let k = match first_exit_index(&back.exits, room) {
        Some(k) => k,
        None => {
            return None;
        },
    };
    match &back.exits[k].crossing {
        Crossing::Command(command) => {
            let cmd = lower_trim(command.as_str());
            match named_direction(cmd.as_str()) {
                Some(d) => Some(d.opposite()),
                None => None,
            }
        },
        _ => None,
    }
}

impl DirectionMap {
    /// Resolve every exit from a room in `map` to another room in `map`.
    /// An exit whose destination is outside the map is skipped.
    pub fn build(map: &RoomMap) -> (r: DirectionMap)
        ensures
            r@ == resolve_rooms(map@, map@),
    {
        let rooms = map.rooms();
        let mut resolved: HashMapWithView<u64, Dir> = HashMapWithView::new();
        let n = rooms.len();
        let mut i: usize = 0;
        while i < n
            invariant
                n == rooms@.len(),
                rooms@ == map@,
                i <= n,
                resolved@ == resolve_rooms(map@, map@.take(i as int)),
            decreases n - i,
        {
            let room = &rooms[i];
            let ghost before = resolved@;
            let mut j: usize = 0;
            while j < room.exits.len()
                invariant
                    room == map@[i as int],
                    i < n,
                    n == map@.len(),
                    j <= room.exits@.len(),
                    before == resolve_rooms(map@, map@.take(i as int)),
                    resolved@ == resolve_exits(before, map@, room.id, room.exits@.take(j as int)),
                decreases room.exits.len() - j,
            {
                let exit = &room.exits[j];
                assert(room.exits@.take(j + 1).drop_last() =~= room.exits@.take(j as int));
                assert(room.exits@.take(j + 1).last() == *exit);
                if map.contains(exit.to) {
                    match direction_from_exit(exit.kind, &exit.crossing) {
                        Some(d) => {
                            resolved.insert(key_of(room.id, exit.to), d);
                        },
                        None => match infer_from_reverse(map, room.id, exit.to) {
                            Some(d) => {
                                resolved.insert(key_of(room.id, exit.to), d);
                            },
                            None => {},
                        },
                    }
                }
                j = j + 1;
            }
            assert(room.exits@.take(room.exits@.len() as int) =~= room.exits@);
            assert(map@.take(i + 1).drop_last() =~= map@.take(i as int));
            assert(map@.take(i + 1).last() == *room);
            i = i + 1;
        }
        assert(map@.take(n as int) =~= map@);
        DirectionMap { map: resolved }
    }

    /// The bearing resolved for `from -> to`.
    pub fn get(&self, from: RoomId, to: RoomId) -> (r: Option<Dir>)
        ensures
            r == dir_at(self@, from, to),
    {
        match self.map.get(&key_of(from, to)) {
            Some(d) => Some(*d),
            None => None,
        }
    }

    /// Apply curated edge corrections, before positioning, so a
    /// correction is one the rooms are placed by. A passage forgets the
    /// edge in both senses; a bearing sets it and the reverse to the
    /// opposite, but only for the senses the map has an exit for, so a
    /// one-way exit does not gain a return the game does not offer.
    pub fn apply_edge_overrides(&mut self, map: &RoomMap, edges: &[EdgeOverride])
        ensures
            final(self)@ == apply_edges(old(self)@, map@, edges@),
    {
        let mut i: usize = 0;
        while i < edges.len()
            invariant
                i <= edges@.len(),
                self@ == apply_edges(old(self)@, map@, edges@.take(i as int)),
            decreases edges.len() - i,
        {
            let edge = edges[i];
            assert(edges@.take(i + 1).drop_last() =~= edges@.take(i as int));
            assert(edges@.take(i + 1).last() == edge);
            match edge.action {
                EdgeAction::Connector => {
                    self.map.remove(&key_of(edge.a, edge.b));
                    self.map.remove(&key_of(edge.b, edge.a));
                },
                EdgeAction::Direction(dir) => {
                    if exit_exists(map, edge.a, edge.b) {
                        self.map.insert(key_of(edge.a, edge.b), dir);
                    }
                    if exit_exists(map, edge.b, edge.a) {
                        self.map.insert(key_of(edge.b, edge.a), dir.opposite());
                    }
                },
            }
            i = i + 1;
        }
        assert(edges@.take(edges@.len() as int) =~= edges@);
    }
}

/// A bearing correction on a two-way edge reads the same from either end:
/// the stated bearing one way, its opposite the other.
pub proof fn lemma_bearing_reads_both_ways(
    m: Map<u64, Dir>,
    rooms: Seq<Room>,
    e: EdgeOverride,
    d: Dir,
)
    requires
        e.action == EdgeAction::Direction(d),
        e.a != e.b,
        has_exit(rooms, e.a, e.b),
        has_exit(rooms, e.b, e.a),
    ensures
        dir_at(apply_edge(m, rooms, e), e.a, e.b) == Some(d),
        dir_at(apply_edge(m, rooms, e), e.b, e.a) == Some(opposite_of(d)),
{
    lemma_pair_key_injective(e.a, e.b, e.b, e.a);
}

/// A bearing correction gives a one-way exit no return: the sense the map
/// has no exit for keeps whatever it had.
pub proof fn lemma_one_way_gains_no_return(
    m: Map<u64, Dir>,
    rooms: Seq<Room>,
    e: EdgeOverride,
    d: Dir,
)
    requires
        e.action == EdgeAction::Direction(d),
        e.a != e.b,
        !has_exit(rooms, e.b, e.a),
    ensures
        dir_at(apply_edge(m, rooms, e), e.b, e.a) == dir_at(m, e.b, e.a),
{
    lemma_pair_key_injective(e.a, e.b, e.b, e.a);
}

/// A passage correction leaves the edge with no bearing either way.
pub proof fn lemma_passage_forgets_both_ways(m: Map<u64, Dir>, rooms: Seq<Room>, e: EdgeOverride)
    requires
        e.action == EdgeAction::Connector,
    ensures
        dir_at(apply_edge(m, rooms, e), e.a, e.b) is None,
        dir_at(apply_edge(m, rooms, e), e.b, e.a) is None,
{
}

/// A correction touches only the edge it names: every other pair of
/// rooms keeps its bearing.
pub proof fn lemma_edge_touches_only_its_pair(
    m: Map<u64, Dir>,
    rooms: Seq<Room>,
    e: EdgeOverride,
    x: RoomId,
    y: RoomId,
)
    requires
        !(x == e.a && y == e.b),
        !(x == e.b && y == e.a),
    ensures
        dir_at(apply_edge(m, rooms, e), x, y) == dir_at(m, x, y),
{
    lemma_pair_key_injective(x, y, e.a, e.b);
    lemma_pair_key_injective(x, y, e.b, e.a);
}

} // verus!
