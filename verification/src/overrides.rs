//! Hand-curated corrections: a sparse diff kept beside the map and
//! applied after generation, so the solver's own output stays pristine and
//! a correction survives the next map build.
//!
//! A room is named by a [`RoomKey`], which keeps the game's uid and the
//! map's own id in separate spaces: a uid and an id that are the same
//! number are different keys, so a correction on one room can never move
//! another.

use vstd::prelude::*;

use crate::direction::{Dir, EdgeAction, EdgeOverride, opposite_of};
use crate::geometry::Cell;
use crate::group::Group;
use crate::keyed::{KeyMap, PairMap, TextMap};
use crate::model::{Room, RoomId, RoomMap};
use crate::paths::{file_stem, file_stem_of, with_file_name, with_file_name_of};
use crate::text::{
    all_digits, chars_of, decimal, decimal_text, digit_char, digits, digits_value, is_digit,
    lowercase, lowercase_of, parse_i64, parse_u32, push_char, push_text, same_text, signed_value,
    trim, trimmed, unsigned_value,
};

verus! {

/// A room's stable identity across map builds: its uid where it has one,
/// else this map's id, the variant keeping the two spaces apart.
#[derive(Debug, Clone, Copy, PartialEq, Eq, Structural, Hash, PartialOrd, Ord)]
pub enum RoomKey {
    /// The game's own room number: stable across map rebuilds.
    Uid(i64),
    /// This map's room id, for a room the game has never numbered.
    Id(u32),
}

/// The order room keys sort in: every uid before every id, then by number.
pub open spec fn key_lt(a: RoomKey, b: RoomKey) -> bool {
    match (a, b) {
        (RoomKey::Uid(x), RoomKey::Uid(y)) => x < y,
        (RoomKey::Uid(_), RoomKey::Id(_)) => true,
        (RoomKey::Id(_), RoomKey::Uid(_)) => false,
        (RoomKey::Id(x), RoomKey::Id(y)) => x < y,
    }
}

pub proof fn lemma_key_lt_transitive(a: RoomKey, b: RoomKey, c: RoomKey)
    requires
        key_lt(a, b),
        key_lt(b, c),
    ensures
        key_lt(a, c),
{
}

/// Whether `a` sorts before `b`.
pub fn key_less(a: RoomKey, b: RoomKey) -> (r: bool)
    ensures
        r == key_lt(a, b),
{
    match (a, b) {
        (RoomKey::Uid(x), RoomKey::Uid(y)) => x < y,
        (RoomKey::Uid(_), RoomKey::Id(_)) => true,
        (RoomKey::Id(_), RoomKey::Uid(_)) => false,
        (RoomKey::Id(x), RoomKey::Id(y)) => x < y,
    }
}


/// A room key as it is saved: `uid:7120`, `id:4242`.
pub open spec fn key_text(k: RoomKey) -> Seq<char> {
    match k {
        RoomKey::Uid(u) => "uid:"@ + decimal(u as int),
        RoomKey::Id(i) => "id:"@ + decimal(i as int),
    }
}

/// The position of the first `c` in `s`.
pub open spec fn first_index(s: Seq<char>, c: char) -> Option<int>
    decreases s.len(),
{
    if s.len() == 0 {
        None
    } else if s[0] == c {
        Some(0)
    } else {
        match first_index(s.drop_first(), c) {
            Some(i) => Some(i + 1),
            None => None,
        }
    }
}

/// The key a saved string names: `uid:` and a signed number, or `id:` and
/// an unsigned one, split at the first colon.
pub open spec fn parsed_key(s: Seq<char>) -> Option<RoomKey> {
    match first_index(s, ':') {
        None => None,
        Some(i) => {
            let head = s.take(i);
            let rest = s.skip(i + 1);
            if head == "uid"@ {
                match signed_value(rest) {
                    Some(v) => if i64::MIN <= v <= i64::MAX {
                        Some(RoomKey::Uid(v as i64))
                    } else {
                        None
                    },
                    None => None,
                }
            } else if head == "id"@ {
                match unsigned_value(rest) {
                    Some(v) => if v <= u32::MAX {
                        Some(RoomKey::Id(v as u32))
                    } else {
                        None
                    },
                    None => None,
                }
            } else {
                None
            }
        },
    }
}

/// A room key that could not be read back out of a saved file.
#[derive(Debug)]
pub struct BadRoomKey(pub String);

impl BadRoomKey {
    /// What a person is told: the text, and the forms a key takes.
    pub fn message(&self) -> (s: String)
        ensures
            s@ == "\""@ + self.0@ + "\" is not a room key (expected \"uid:N\" or \"id:N\")"@,
    {
        let mut s = String::new();
        push_text(&mut s, "\"");
        push_text(&mut s, self.0.as_str());
        push_text(&mut s, "\" is not a room key (expected \"uid:N\" or \"id:N\")");
        assert(Seq::<char>::empty() + "\""@ + self.0@ + "\" is not a room key (expected \"uid:N\" or \"id:N\")"@
            =~= "\""@ + self.0@ + "\" is not a room key (expected \"uid:N\" or \"id:N\")"@);
        s
    }
}

fn first_colon(v: &Vec<char>) -> (r: Option<usize>)
    ensures
        match r {
            Some(i) => i < v@.len() && first_index(v@, ':') == Some(i as int),
            None => first_index(v@, ':') is None,
        },
{
    let mut i: usize = 0;
    assert(v@.skip(0) =~= v@);
    while i < v.len()
        invariant
            i <= v@.len(),
            forall|k: int| 0 <= k < i ==> v@[k] != ':',
            first_index(v@, ':') == match first_index(v@.skip(i as int), ':') {
                Some(j) => Some(j + i),
                None => None,
            },
        decreases v.len() - i,
    {
        assert(v@.skip(i as int).drop_first() =~= v@.skip(i + 1));
        if v[i] == ':' {
            return Some(i);
        }
        i = i + 1;
    }
    None
}

/// The part of `v` from `from` to `to`, as a string.
fn slice_text(v: &Vec<char>, from: usize, to: usize) -> (s: String)
    requires
        from <= to <= v.len(),
    ensures
        s@ == v@.subrange(from as int, to as int),
{
    let mut s = String::new();
    let mut k: usize = from;
    while k < to
        invariant
            from <= k <= to <= v@.len(),
            s@ == v@.subrange(from as int, k as int),
        decreases to - k,
    {
        push_char(&mut s, v[k]);
        assert(v@.subrange(from as int, k as int).push(v@[k as int]) =~= v@.subrange(
            from as int,
            k + 1,
        ));
        k = k + 1;
    }
    s
}

impl RoomKey {
    /// The saved form: `uid:7120` or `id:4242`.
    pub fn to_text(&self) -> (s: String)
        ensures
            s@ == key_text(*self),
    {
        let mut s = String::new();
        match *self {
            RoomKey::Uid(u) => {
                push_text(&mut s, "uid:");
                crate::text::push_decimal(&mut s, u);
                assert(Seq::<char>::empty() + "uid:"@ + decimal(u as int) =~= key_text(*self));
            },
            RoomKey::Id(i) => {
                push_text(&mut s, "id:");
                crate::text::push_decimal(&mut s, i as i64);
                assert(Seq::<char>::empty() + "id:"@ + decimal(i as int) =~= key_text(*self));
            },
        }
        s
    }

    /// Read a saved key back; anything not of the two forms is refused
    /// rather than taken as some other room.
    pub fn parse(s: &str) -> (r: Result<RoomKey, BadRoomKey>)
        ensures
            match r {
                Ok(k) => parsed_key(s@) == Some(k),
                Err(bad) => parsed_key(s@) is None && bad.0@ == s@,
            },
    {
        let v = chars_of(s);
        let bad = BadRoomKey(s.to_owned());
        let i = match first_colon(&v) {
            Some(i) => i,
            None => {
                return Err(bad);
            },
        };
        let head = slice_text(&v, 0, i);
        let rest = slice_text(&v, i + 1, v.len());
        assert(head@ =~= v@.take(i as int));
        assert(rest@ =~= v@.skip(i + 1));
        if same_text(head.as_str(), "uid") {
            match parse_i64(rest.as_str()) {
                Some(u) => Ok(RoomKey::Uid(u)),
                None => Err(bad),
            }
        } else if same_text(head.as_str(), "id") {
            match parse_u32(rest.as_str()) {
                Some(n) => Ok(RoomKey::Id(n)),
                None => Err(bad),
            }
        } else {
            Err(bad)
        }
    }

    /// The stable identity of a whole group: the least key among its
    /// rooms, uid-keyed ones first, so a group keeps its anchor when a
    /// uid-less room joins it. `None` for a group of no rooms.
    pub fn anchor(group: &Group, map: &RoomMap) -> (r: Option<RoomKey>)
        ensures
            r is None <==> group.room_ids@.len() == 0,
            r matches Some(k) ==> is_anchor(map@, group.room_ids@, k),
    {
        let ids = &group.room_ids;
        if ids.len() == 0 {
            return None;
        }
        let mut best = RoomKey::of(ids[0], map);
        let mut i: usize = 1;
        while i < ids.len()
            invariant
                1 <= i <= ids@.len(),
                exists|j: int| 0 <= j < i && best == key_of_room(map@, #[trigger] ids@[j]),
                forall|j: int| 0 <= j < i ==> !key_lt(key_of_room(map@, #[trigger] ids@[j]), best),
            decreases ids.len() - i,
        {
            let k = RoomKey::of(ids[i], map);
            if key_less(k, best) {
                proof {
                    assert forall|j: int| 0 <= j < i + 1 implies !key_lt(
                        key_of_room(map@, #[trigger] ids@[j]),
                        k,
                    ) by {
                        if j < i && key_lt(key_of_room(map@, ids@[j]), k) {
                            lemma_key_lt_transitive(key_of_room(map@, ids@[j]), k, best);
                        }
                    }
                }
                best = k;
            }
            i = i + 1;
        }
        Some(best)
    }

    /// The key for `id` in `map`: its first uid, or the id itself.
    pub fn of(id: RoomId, map: &RoomMap) -> (k: RoomKey)
        ensures
            k == key_of_room(map@, id),
    {
        match map.room(id) {
            Some(room) => room_key(room),
            None => RoomKey::Id(id.0),
        }
    }
}

/// `k` is the least key among these rooms' keys in a map of `rooms`.
pub open spec fn is_anchor(rooms: Seq<Room>, ids: Seq<RoomId>, k: RoomKey) -> bool {
    &&& exists|j: int| 0 <= j < ids.len() && k == key_of_room(rooms, #[trigger] ids[j])
    &&& forall|j: int| 0 <= j < ids.len() ==> !key_lt(key_of_room(rooms, #[trigger] ids[j]), k)
}

/// A group with a uid-keyed room keeps its anchor when a room with no uid
/// joins it.
pub proof fn lemma_uidless_join_keeps_anchor(rooms: Seq<Room>, ids: Seq<RoomId>, k: RoomKey, joiner: RoomId)
    requires
        is_anchor(rooms, ids, k),
        k is Uid,
        key_of_room(rooms, joiner) is Id,
    ensures
        is_anchor(rooms, ids.push(joiner), k),
{
    let j = choose|j: int| 0 <= j < ids.len() && k == key_of_room(rooms, #[trigger] ids[j]);
    assert(ids.push(joiner)[j] == ids[j]);
    assert forall|i: int| 0 <= i < ids.len() + 1 implies !key_lt(
        key_of_room(rooms, #[trigger] ids.push(joiner)[i]),
        k,
    ) by {
        if i < ids.len() {
            assert(ids.push(joiner)[i] == ids[i]);
        }
    }
}

/// A room's own key: its first uid, else its id.
pub open spec fn room_key_of(r: Room) -> RoomKey {
    if r.uid@.len() > 0 {
        RoomKey::Uid(r.uid@[0].0)
    } else {
        RoomKey::Id(r.id.0)
    }
}

/// The key `id` has in a map of these rooms.
pub open spec fn key_of_room(rooms: Seq<Room>, id: RoomId) -> RoomKey {
    match crate::model::room_of(rooms, id) {
        Some(r) => room_key_of(r),
        None => RoomKey::Id(id.0),
    }
}

/// A room's own key.
pub fn room_key(room: &Room) -> (k: RoomKey)
    ensures
        k == room_key_of(*room),
{
    if room.uid.len() > 0 {
        RoomKey::Uid(room.uid[0].0)
    } else {
        RoomKey::Id(room.id.0)
    }
}

proof fn lemma_digit_char(d: int)
    requires
        0 <= d < 10,
    ensures
        digit_char(d) as int == '0' as int + d,
        is_digit(digit_char(d)),
{
}

proof fn lemma_digits_are_digits(n: nat)
    ensures
        all_digits(digits(n)),
        digits_value(digits(n)) == n,
        digits(n)[0] != '-' && digits(n)[0] != '+' && digits(n)[0] != ':',
        forall|i: int| 0 <= i < digits(n).len() ==> #[trigger] digits(n)[i] != ':',
    decreases n,
{
    lemma_digit_char((n % 10) as int);
    if n >= 10 {
        lemma_digits_are_digits(n / 10);
        let d = digits(n);
        assert(d.drop_last() =~= digits(n / 10));
        assert(d.last() == digit_char((n % 10) as int));
        assert(digits_value(d) == digits_value(digits(n / 10)) * 10 + (n % 10));
        assert forall|i: int| 0 <= i < d.len() implies is_digit(#[trigger] d[i]) by {
            if i < d.len() - 1 {
                assert(d[i] == digits(n / 10)[i]);
            }
        }
    } else {
        let d = digits(n);
        assert(d.drop_last() =~= Seq::<char>::empty());
        assert(digits_value(d) == digits_value(Seq::<char>::empty()) * 10 + (n % 10));
    }
}

proof fn lemma_signed_decimal(n: int)
    requires
        i64::MIN <= n <= i64::MAX,
    ensures
        signed_value(decimal(n)) == Some(n),
        forall|i: int| 0 <= i < decimal(n).len() ==> #[trigger] decimal(n)[i] != ':',
        decimal(n).len() > 0,
{
    if n < 0 {
        lemma_digits_are_digits((-n) as nat);
        let s = decimal(n);
        assert(s.drop_first() =~= digits((-n) as nat));
        assert forall|i: int| 0 <= i < s.len() implies #[trigger] s[i] != ':' by {
            if i > 0 {
                assert(s[i] == digits((-n) as nat)[i - 1]);
            }
        }
    } else {
        lemma_digits_are_digits(n as nat);
    }
}

/// A saved key reads back as the key it was saved from.
pub proof fn lemma_key_text_round_trip(k: RoomKey)
    ensures
        parsed_key(key_text(k)) == Some(k),
{
    reveal_strlit("uid:");
    reveal_strlit("id:");
    reveal_strlit("uid");
    reveal_strlit("id");
    match k {
        RoomKey::Uid(u) => {
            lemma_signed_decimal(u as int);
            let s = key_text(k);
            let d = decimal(u as int);
            assert(s.drop_first().drop_first().drop_first() =~= seq![':'] + d);
            assert(first_index(seq![':'] + d, ':') == Some(0int));
            assert(s.drop_first().drop_first() =~= seq!['d', ':'] + d);
            assert(s.drop_first() =~= seq!['i', 'd', ':'] + d);
            assert(first_index(s.drop_first().drop_first(), ':') == Some(1int));
            assert(first_index(s.drop_first(), ':') == Some(2int));
            assert(s[0] == 'u');
            assert(first_index(s, ':') == Some(3int));
            assert(s.take(3) =~= "uid"@);
            assert(s.skip(4) =~= d);
        },
        RoomKey::Id(i) => {
            lemma_digits_are_digits(i as nat);
            let s = key_text(k);
            let d = decimal(i as int);
            assert(s.drop_first().drop_first() =~= seq![':'] + d);
            assert(first_index(seq![':'] + d, ':') == Some(0int));
            assert(s.drop_first() =~= seq!['d', ':'] + d);
            assert(first_index(s.drop_first(), ':') == Some(1int));
            assert(s[0] == 'i');
            assert(first_index(s, ':') == Some(2int));
            assert(s.take(2) =~= "id"@);
            assert(s.skip(3) =~= d);
            assert(s.take(2) != "uid"@);
            assert(d =~= digits(i as nat));
            assert(d[0] != '+');
            assert(unsigned_value(d) == Some(i as int));
        },
    }
}


/// One saved edge correction, keyed by the room keys it joins.
#[derive(Debug, Clone, Copy, PartialEq, Eq, Structural)]
pub struct EdgeCorrection {
    pub a: RoomKey,
    pub b: RoomKey,
    pub action: EdgeAction,
}

/// The canonical order for an edge's two rooms, so one edge is one entry
/// however it was written.
pub open spec fn ordered_pair(a: RoomKey, b: RoomKey) -> (RoomKey, RoomKey) {
    if a == b || key_lt(a, b) {
        (a, b)
    } else {
        (b, a)
    }
}

pub fn ordered(a: RoomKey, b: RoomKey) -> (r: (RoomKey, RoomKey))
    ensures
        r == ordered_pair(a, b),
{
    if a == b || key_less(a, b) {
        (a, b)
    } else {
        (b, a)
    }
}

/// An action read the other way round: a bearing reverses, a passage is
/// the same either way.
pub open spec fn flipped(action: EdgeAction) -> EdgeAction {
    match action {
        EdgeAction::Direction(d) => EdgeAction::Direction(opposite_of(d)),
        EdgeAction::Connector => EdgeAction::Connector,
    }
}

/// What one area's corrections amount to.
pub struct LocationView {
    pub group_offsets: Map<RoomKey, Cell>,
    pub room_pins: Map<RoomKey, Cell>,
    pub edges: Map<(RoomKey, RoomKey), EdgeAction>,
}

impl LocationView {
    pub open spec fn empty() -> LocationView {
        LocationView {
            group_offsets: Map::empty(),
            room_pins: Map::empty(),
            edges: Map::empty(),
        }
    }

    pub open spec fn is_empty(self) -> bool {
        self.group_offsets == Map::<RoomKey, Cell>::empty() && self.room_pins == Map::<
            RoomKey,
            Cell,
        >::empty() && self.edges == Map::<(RoomKey, RoomKey), EdgeAction>::empty()
    }
}

/// A group's offset, or nothing when it has none.
pub open spec fn offset_or_zero(v: LocationView, anchor: RoomKey) -> Cell {
    if v.group_offsets.contains_key(anchor) {
        v.group_offsets[anchor]
    } else {
        Cell { x: 0, y: 0 }
    }
}

/// `delta` added to a group's offset, the entry dropped when the sum is
/// back at zero.
pub open spec fn nudged(v: LocationView, anchor: RoomKey, delta: Cell) -> LocationView {
    let old = offset_or_zero(v, anchor);
    let x = old.x + delta.x;
    let y = old.y + delta.y;
    LocationView {
        group_offsets: if x == 0 && y == 0 {
            v.group_offsets.remove(anchor)
        } else {
            v.group_offsets.insert(anchor, Cell { x: x as i32, y: y as i32 })
        },
        ..v
    }
}

/// A room pinned at `pin`, or its pin removed.
pub open spec fn pinned(v: LocationView, key: RoomKey, pin: Option<Cell>) -> LocationView {
    LocationView {
        room_pins: match pin {
            Some(cell) => v.room_pins.insert(key, cell),
            None => v.room_pins.remove(key),
        },
        ..v
    }
}

/// The edge between `a` and `b` set, replaced or cleared, stored under
/// its canonical pair and read from the pair's first room.
pub open spec fn edge_set(v: LocationView, a: RoomKey, b: RoomKey, action: Option<EdgeAction>) -> LocationView {
    let pair = ordered_pair(a, b);
    LocationView {
        edges: match action {
            Some(act) => v.edges.insert(
                pair,
                if pair == (a, b) {
                    act
                } else {
                    flipped(act)
                },
            ),
            None => v.edges.remove(pair),
        },
        ..v
    }
}

/// The action saved for the edge between `a` and `b`, either way round.
pub open spec fn edge_action_of(v: LocationView, a: RoomKey, b: RoomKey) -> Option<EdgeAction> {
    let pair = ordered_pair(a, b);
    if v.edges.contains_key(pair) {
        Some(v.edges[pair])
    } else {
        None
    }
}

/// The id of the last room in map order whose key is `k`.
pub open spec fn room_for_key(rooms: Seq<Room>, k: RoomKey) -> Option<RoomId>
    decreases rooms.len(),
{
    if rooms.len() == 0 {
        None
    } else if room_key_of(rooms.last()) == k {
        Some(rooms.last().id)
    } else {
        room_for_key(rooms.drop_last(), k)
    }
}

/// The saved edges resolved to room ids, in order, dropping any that
/// name a room the map does not have.
pub open spec fn resolved_edges(
    rooms: Seq<Room>,
    edges: Seq<((RoomKey, RoomKey), EdgeAction)>,
) -> Seq<EdgeOverride>
    decreases edges.len(),
{
    if edges.len() == 0 {
        Seq::empty()
    } else {
        let prev = resolved_edges(rooms, edges.drop_last());
        let e = edges.last();
        match (room_for_key(rooms, e.0.0), room_for_key(rooms, e.0.1)) {
            (Some(a), Some(b)) => prev.push(EdgeOverride { a, b, action: e.1 }),
            _ => prev,
        }
    }
}

/// Corrections for one area's layout.
pub struct LocationOverrides {
    /// Cell delta applied to a whole group's placement, keyed by the
    /// group's anchor. Additive: dragging twice sums, and dragging back
    /// to zero removes the entry.
    pub group_offsets: KeyMap<Cell>,
    /// One room's position within its group's own frame. Absolute: the
    /// last drag wins.
    pub room_pins: KeyMap<Cell>,
    /// Edge corrections, keyed by the canonical pair they join, the
    /// action read from the pair's first room. Inputs to generation: a
    /// change here re-runs the layout.
    pub edges: PairMap<EdgeAction>,
}

impl View for LocationOverrides {
    type V = LocationView;

    open spec fn view(&self) -> LocationView {
        LocationView {
            group_offsets: self.group_offsets.view(),
            room_pins: self.room_pins.view(),
            edges: self.edges.view(),
        }
    }
}

/// The corrections an area holds, or none.
pub open spec fn area_view(m: Map<Seq<char>, LocationOverrides>, area: Seq<char>) -> LocationView {
    if m.contains_key(area) {
        m[area]@
    } else {
        LocationView::empty()
    }
}

/// `after` is `before` with `area`'s corrections now `v`: kept when `v`
/// holds anything, dropped when it is empty, every other area untouched.
pub open spec fn stored_as(
    after: Map<Seq<char>, LocationOverrides>,
    before: Map<Seq<char>, LocationOverrides>,
    area: Seq<char>,
    v: LocationView,
) -> bool {
    &&& forall|k: Seq<char>|
        k != area ==> (#[trigger] after.contains_key(k) <==> before.contains_key(k))
    &&& forall|k: Seq<char>| k != area && #[trigger] after.contains_key(k) ==> after[k] == before[k]
    &&& after.contains_key(area) <==> !v.is_empty()
    &&& after.contains_key(area) ==> after[area]@ == v
}

impl LocationOverrides {
    pub fn new() -> (r: LocationOverrides)
        ensures
            r@ == LocationView::empty(),
    {
        LocationOverrides { group_offsets: KeyMap::new(), room_pins: KeyMap::new(), edges: PairMap::new() }
    }

    pub fn is_empty(&self) -> (b: bool)
        ensures
            b == self@.is_empty(),
    {
        self.group_offsets.is_empty() && self.room_pins.is_empty() && self.edges.is_empty()
    }

    /// How many corrections this area carries.
    pub fn len(&self) -> (n: usize)
        requires
            self.group_offsets.pairs().len() + self.room_pins.pairs().len() + self.edges.pairs().len()
                <= usize::MAX,
        ensures
            n == self.group_offsets.pairs().len() + self.room_pins.pairs().len()
                + self.edges.pairs().len(),
    {
        self.group_offsets.len() + self.room_pins.len() + self.edges.len()
    }

    /// The edge corrections as the layout takes them, resolved from saved
    /// keys to this map's room ids; one naming a room the map does not
    /// have is dropped.
    pub fn edge_overrides(&self, map: &RoomMap) -> (r: Vec<EdgeOverride>)
        ensures
            r@ == resolved_edges(map@, self.edges.pairs()),
    {
        let rooms = map.rooms();
        let mut out: Vec<EdgeOverride> = Vec::new();
        let n = self.edges.len();
        let mut i: usize = 0;
        while i < n
            invariant
                n == self.edges.pairs().len(),
                rooms@ == map@,
                i <= n,
                out@ == resolved_edges(map@, self.edges.pairs().take(i as int)),
            decreases n - i,
        {
            let (a, b) = self.edges.key_at(i);
            let action = *self.edges.value_at(i);
            let ghost t = self.edges.pairs().take(i + 1);
            assert(t.drop_last() =~= self.edges.pairs().take(i as int));
            assert(t.last() == self.edges.pairs()[i as int]);
            match (last_room_with_key(rooms, a), last_room_with_key(rooms, b)) {
                (Some(ra), Some(rb)) => {
                    out.push(EdgeOverride { a: ra, b: rb, action });
                },
                _ => {},
            }
            i = i + 1;
        }
        assert(self.edges.pairs().take(n as int) =~= self.edges.pairs());
        out
    }

    /// The action saved for the edge between `a` and `b`, either way
    /// round.
    pub fn edge_action(&self, a: RoomKey, b: RoomKey) -> (r: Option<EdgeAction>)
        ensures
            r == edge_action_of(self@, a, b),
    {
        let pair = ordered(a, b);
        match self.edges.get(pair) {
            Some(act) => Some(*act),
            None => None,
        }
    }
}

/// The id of the last room in `rooms` whose key is `k`.
fn last_room_with_key(rooms: &Vec<Room>, k: RoomKey) -> (r: Option<RoomId>)
    ensures
        r == room_for_key(rooms@, k),
{
    let mut i: usize = rooms.len();
    assert(rooms@.take(i as int) =~= rooms@);
    while i > 0
        invariant
            i <= rooms@.len(),
            room_for_key(rooms@, k) == room_for_key(rooms@.take(i as int), k),
        decreases i,
    {
        let ghost t = rooms@.take(i as int);
        assert(t.drop_last() =~= rooms@.take(i - 1));
        assert(t.last() == rooms@[i - 1]);
        if room_key(&rooms[i - 1]) == k {
            return Some(rooms[i - 1].id);
        }
        i = i - 1;
    }
    assert(rooms@.take(0) =~= Seq::<Room>::empty());
    None
}

/// A plate: a sheet of one area, for satellites drawn apart from it.
pub struct Plate {
    /// What the picker shows.
    pub name: String,
    /// The area this plate is a sheet of, when it has one.
    pub area: Option<String>,
}

/// What a plate says: its name and its area.
pub struct PlateView {
    pub name: Seq<char>,
    pub area: Option<Seq<char>>,
}

pub open spec fn opt_view(o: Option<String>) -> Option<Seq<char>> {
    match o {
        Some(s) => Some(s@),
        None => None,
    }
}

impl View for Plate {
    type V = PlateView;

    open spec fn view(&self) -> PlateView {
        PlateView { name: self.name@, area: opt_view(self.area) }
    }
}

/// A curated area: a named place, its rooms assigned by hand.
pub struct CuratedArea {
    /// What the picker shows.
    pub name: String,
}

/// `area` as an owned string, or none.
fn owned(area: Option<&str>) -> (r: Option<String>)
    ensures
        opt_view(r) == match area {
            Some(a) => Some(a@),
            None => None::<Seq<char>>,
        },
{
    match area {
        Some(a) => Some(a.to_owned()),
        None => None,
    }
}

fn clone_opt(o: &Option<String>) -> (r: Option<String>)
    ensures
        opt_view(r) == opt_view(*o),
{
    match o {
        Some(s) => Some(s.clone()),
        None => None,
    }
}

/// Whether `c` is alphanumeric, as `char::is_alphanumeric` says.
pub uninterp spec fn alnum(c: char) -> bool;

/// `char::is_alphanumeric`.
#[verifier::external_body]
fn is_alnum(c: char) -> (b: bool)
    ensures
        b == alnum(c),
{
    c.is_alphanumeric()
}

/// The key built from these characters, and whether a dot is pending:
/// alphanumerics kept, every run of anything else between them one dot.
pub open spec fn dot_fold(s: Seq<char>) -> (Seq<char>, bool)
    decreases s.len(),
{
    if s.len() == 0 {
        (Seq::empty(), false)
    } else {
        let (key, pending) = dot_fold(s.drop_last());
        let ch = s.last();
        if alnum(ch) {
            (
                if pending && key.len() > 0 {
                    key.push('.')
                } else {
                    key
                }.push(ch),
                false,
            )
        } else {
            (key, true)
        }
    }
}

/// A plate's key, from its display name: lowercased, with runs of
/// anything else collapsed to a single dot.
pub open spec fn plate_key_of(name: Seq<char>) -> Seq<char> {
    dot_fold(lowercase_of(trimmed(name))).0
}

/// A plate's key, derived from its display name: lowercased, with runs
/// of anything else collapsed to a single dot, so the same name always
/// names the same plate.
pub fn plate_key(name: &str) -> (key: String)
    ensures
        key@ == plate_key_of(name@),
{
    let t = trim(name);
    let lower = lowercase(t.as_str());
    fold_dots(lower.as_str())
}

/// The key folded from already lowered text: alphanumerics kept, every
/// run of anything else between two of them one dot, none at either end.
pub fn fold_dots(lowered: &str) -> (key: String)
    ensures
        key@ == dot_fold(lowered@).0,
{
    let cs = chars_of(lowered);
    let mut key = String::new();
    let mut nonempty = false;
    let mut pending = false;
    let mut i: usize = 0;
    while i < cs.len()
        invariant
            i <= cs@.len(),
            cs@ == lowered@,
            (key@, pending) == dot_fold(cs@.take(i as int)),
            nonempty == (key@.len() > 0),
        decreases cs.len() - i,
    {
        let ch = cs[i];
        let ghost t = cs@.take(i + 1);
        assert(t.drop_last() =~= cs@.take(i as int));
        assert(t.last() == ch);
        if is_alnum(ch) {
            if pending && nonempty {
                push_char(&mut key, '.');
            }
            pending = false;
            push_char(&mut key, ch);
            nonempty = true;
        } else {
            pending = true;
        }
        i = i + 1;
    }
    assert(cs@.take(cs@.len() as int) =~= cs@);
    key
}

/// A well-formed plate key: alphanumerics, single separators between
/// them, none at either end.
pub open spec fn well_dotted(k: Seq<char>) -> bool {
    &&& k.len() > 0 ==> alnum(k[0]) && alnum(k.last())
    &&& forall|i: int| 0 <= i < k.len() ==> alnum(#[trigger] k[i]) || k[i] == '.'
    &&& forall|i: int| 0 <= i < k.len() - 1 && !alnum(#[trigger] k[i]) ==> alnum(k[i + 1])
}

proof fn lemma_dot_fold_well_dotted(s: Seq<char>)
    ensures
        well_dotted(dot_fold(s).0),
    decreases s.len(),
{
    if s.len() > 0 {
        lemma_dot_fold_well_dotted(s.drop_last());
        let (key, pending) = dot_fold(s.drop_last());
        let ch = s.last();
        if alnum(ch) {
            let mid = if pending && key.len() > 0 {
                key.push('.')
            } else {
                key
            };
            let out = mid.push(ch);
            assert forall|i: int| 0 <= i < out.len() - 1 && !alnum(#[trigger] out[i]) implies alnum(out[i + 1]) by {
                if i < key.len() - 1 {
                    assert(out[i] == key[i] && out[i + 1] == key[i + 1]);
                } else if i == key.len() - 1 {
                    assert(out[i] == key.last());
                }
            }
            assert forall|i: int| 0 <= i < out.len() implies alnum(#[trigger] out[i]) || out[i] == '.' by {
                if i < key.len() {
                    assert(out[i] == key[i]);
                }
            }
            if key.len() > 0 {
                assert(out[0] == key[0]);
            }
        }
    }
}

/// Plate keys are dotted: alphanumerics with single separators between
/// them and none at either end.
pub proof fn lemma_plate_key_is_dotted(name: Seq<char>)
    ensures
        well_dotted(plate_key_of(name)),
{
    lemma_dot_fold_well_dotted(lowercase_of(trimmed(name)));
}


/// `after` holds `k`, and every other key exactly as `before` did.
pub open spec fn set_at<V>(after: Map<Seq<char>, V>, before: Map<Seq<char>, V>, k: Seq<char>) -> bool {
    &&& after.contains_key(k)
    &&& forall|j: Seq<char>| j != k ==> (#[trigger] after.contains_key(j) <==> before.contains_key(j))
    &&& forall|j: Seq<char>| j != k && #[trigger] after.contains_key(j) ==> after[j] == before[j]
}

/// The plates that are sheets of `area`, as (key, name), in key order.
pub open spec fn plates_in(pairs: Seq<(Seq<char>, Plate)>, area: Seq<char>) -> Seq<(Seq<char>, Seq<char>)>
    decreases pairs.len(),
{
    if pairs.len() == 0 {
        Seq::empty()
    } else {
        let prev = plates_in(pairs.drop_last(), area);
        let (key, plate) = pairs.last();
        if opt_view(plate.area) == Some(area) {
            prev.push((key, plate.name@))
        } else {
            prev
        }
    }
}

/// The owner recorded by the first plate, in key order, of this name.
pub open spec fn owner_in(pairs: Seq<(Seq<char>, Plate)>, name: Seq<char>) -> Option<Seq<char>>
    decreases pairs.len(),
{
    if pairs.len() == 0 {
        None
    } else if pairs[0].1.name@ == name {
        opt_view(pairs[0].1.area)
    } else {
        owner_in(pairs.drop_first(), name)
    }
}

/// A plate recorded as its own area, by name or by key.
pub open spec fn self_owned(key: Seq<char>, p: PlateView) -> bool {
    match p.area {
        Some(a) => a == p.name || a == key,
        None => false,
    }
}

/// The first repair: a self-owning plate loses its owner.
pub open spec fn unowned_if_self(key: Seq<char>, p: PlateView) -> PlateView {
    if self_owned(key, p) {
        PlateView { name: p.name, area: None }
    } else {
        p
    }
}

/// Plates after the first repair.
pub open spec fn first_repair(pairs: Seq<(Seq<char>, Plate)>) -> Seq<(Seq<char>, PlateView)> {
    pairs.map_values(|e: (Seq<char>, Plate)| (e.0, unowned_if_self(e.0, e.1@)))
}

/// Plate name to owner, a later plate of a name winning.
pub open spec fn owners(views: Seq<(Seq<char>, PlateView)>) -> Map<Seq<char>, Option<Seq<char>>>
    decreases views.len(),
{
    if views.len() == 0 {
        Map::empty()
    } else {
        owners(views.drop_last()).insert(views.last().1.name, views.last().1.area)
    }
}

/// The second repair: a plate parented to another plate adopts that
/// plate's own area, since plates are sheets of an area and never of
/// each other.
pub open spec fn adopt(owner_of: Map<Seq<char>, Option<Seq<char>>>, p: PlateView) -> PlateView {
    match p.area {
        Some(a) => if owner_of.contains_key(a) {
            PlateView { name: p.name, area: owner_of[a] }
        } else {
            p
        },
        None => p,
    }
}

/// Plate `i` after both repairs.
pub open spec fn repaired(pairs: Seq<(Seq<char>, Plate)>, i: int) -> PlateView {
    adopt(owners(first_repair(pairs)), first_repair(pairs)[i].1)
}

/// The whole override store.
pub struct MapOverrides {
    /// Per-area layout corrections, keyed by the area's store key.
    pub locations: TextMap<LocationOverrides>,
    /// Room to plate key: a room named here is drawn on that plate
    /// instead of with its area.
    pub membership_moves: KeyMap<String>,
    /// Plate key to the plate.
    pub custom_maps: TextMap<Plate>,
    /// Room to curated area key.
    pub area_moves: KeyMap<String>,
    /// Area key to the curated area.
    pub custom_areas: TextMap<CuratedArea>,
}

impl MapOverrides {
    /// An empty store.
    pub fn new() -> (r: MapOverrides)
        ensures
            r.locations.view() == Map::<Seq<char>, LocationOverrides>::empty(),
            r.membership_moves.view() == Map::<RoomKey, String>::empty(),
            r.custom_maps.view() == Map::<Seq<char>, Plate>::empty(),
            r.area_moves.view() == Map::<RoomKey, String>::empty(),
            r.custom_areas.view() == Map::<Seq<char>, CuratedArea>::empty(),
    {
        MapOverrides {
            locations: TextMap::new(),
            membership_moves: KeyMap::new(),
            custom_maps: TextMap::new(),
            area_moves: KeyMap::new(),
            custom_areas: TextMap::new(),
        }
    }

    /// The corrections for one area, if it has any.
    pub fn location(&self, area: &str) -> (r: Option<&LocationOverrides>)
        ensures
            r is Some <==> self.locations.view().contains_key(area@),
            r matches Some(l) ==> *l == self.locations.view()[area@],
    {
        self.locations.get(area)
    }

    /// Take out one area's corrections to edit them.
    fn take_location(&mut self, area: &str) -> (loc: LocationOverrides)
        ensures
            loc@ == area_view(old(self).locations.view(), area@),
            final(self).locations.view() == old(self).locations.view().remove(area@),
            final(self).membership_moves == old(self).membership_moves,
            final(self).custom_maps == old(self).custom_maps,
            final(self).area_moves == old(self).area_moves,
            final(self).custom_areas == old(self).custom_areas,
    {
        match self.locations.remove(area) {
            Some(l) => l,
            None => LocationOverrides::new(),
        }
    }

    /// Put an area's corrections back, or drop the area once it holds
    /// nothing, so the saved file does not accumulate empty sections.
    fn keep_location(&mut self, area: &str, loc: LocationOverrides)
        requires
            !old(self).locations.view().contains_key(area@),
        ensures
            stored_as(final(self).locations.view(), old(self).locations.view(), area@, loc@),
            final(self).membership_moves == old(self).membership_moves,
            final(self).custom_maps == old(self).custom_maps,
            final(self).area_moves == old(self).area_moves,
            final(self).custom_areas == old(self).custom_areas,
    {
        if !loc.is_empty() {
            let ghost v = loc@;
            self.locations.insert(area.to_owned(), loc);
            assert(self.locations.view()[area@]@ == v);
        }
    }

    /// Add `delta` to a group's offset, dropping the entry when the sum
    /// returns to zero so an undone drag leaves no trace.
    pub fn nudge_group(&mut self, area: &str, anchor: RoomKey, delta: Cell)
        requires
            i32::MIN <= offset_or_zero(area_view(old(self).locations.view(), area@), anchor).x
                + delta.x <= i32::MAX,
            i32::MIN <= offset_or_zero(area_view(old(self).locations.view(), area@), anchor).y
                + delta.y <= i32::MAX,
        ensures
            stored_as(
                final(self).locations.view(),
                old(self).locations.view(),
                area@,
                nudged(area_view(old(self).locations.view(), area@), anchor, delta),
            ),
            final(self).membership_moves == old(self).membership_moves,
            final(self).custom_maps == old(self).custom_maps,
            final(self).area_moves == old(self).area_moves,
            final(self).custom_areas == old(self).custom_areas,
    {
        let ghost before = self.locations.view();
        let mut loc = self.take_location(area);
        let current = match loc.group_offsets.get(anchor) {
            Some(c) => *c,
            None => Cell::origin(),
        };
        let total = Cell { x: current.x + delta.x, y: current.y + delta.y };
        if total.x == 0 && total.y == 0 {
            loc.group_offsets.remove(anchor);
        } else {
            loc.group_offsets.insert(anchor, total);
        }
        assert(loc@ == nudged(area_view(before, area@), anchor, delta));
        let ghost mid = self.locations.view();
        self.keep_location(area, loc);
        proof {
            assert forall|k: Seq<char>| k != area@ implies (#[trigger] self.locations.view().contains_key(k)
                <==> before.contains_key(k)) by {
                assert(mid.contains_key(k) == before.contains_key(k));
            }
        }
    }

    /// Pin one room within its group's frame, or remove its pin.
    pub fn pin_room(&mut self, area: &str, key: RoomKey, pin: Option<Cell>)
        ensures
            stored_as(
                final(self).locations.view(),
                old(self).locations.view(),
                area@,
                pinned(area_view(old(self).locations.view(), area@), key, pin),
            ),
            final(self).membership_moves == old(self).membership_moves,
            final(self).custom_maps == old(self).custom_maps,
            final(self).area_moves == old(self).area_moves,
            final(self).custom_areas == old(self).custom_areas,
    {
        let ghost before = self.locations.view();
        let mut loc = self.take_location(area);
        match pin {
            Some(cell) => {
                loc.room_pins.insert(key, cell);
            },
            None => {
                loc.room_pins.remove(key);
            },
        }
        assert(loc@ == pinned(area_view(before, area@), key, pin));
        let ghost mid = self.locations.view();
        self.keep_location(area, loc);
        proof {
            assert forall|k: Seq<char>| k != area@ implies (#[trigger] self.locations.view().contains_key(k)
                <==> before.contains_key(k)) by {
                assert(mid.contains_key(k) == before.contains_key(k));
            }
        }
    }

    /// Set, replace or clear the correction on one edge. The pair is
    /// stored in a canonical order so the same edge is one entry whichever
    /// room it was edited from; a bearing is read from the first room to
    /// the second, so when the order reverses the pair the bearing is
    /// reversed to match.
    pub fn set_edge(&mut self, area: &str, a: RoomKey, b: RoomKey, action: Option<EdgeAction>)
        ensures
            stored_as(
                final(self).locations.view(),
                old(self).locations.view(),
                area@,
                edge_set(area_view(old(self).locations.view(), area@), a, b, action),
            ),
            final(self).membership_moves == old(self).membership_moves,
            final(self).custom_maps == old(self).custom_maps,
            final(self).area_moves == old(self).area_moves,
            final(self).custom_areas == old(self).custom_areas,
    {
        let ghost before = self.locations.view();
        let mut loc = self.take_location(area);
        let (lo, hi) = ordered(a, b);
        match action {
            Some(act) => {
                let stored = if lo == a && hi == b {
                    act
                } else {
                    match act {
                        EdgeAction::Direction(dir) => EdgeAction::Direction(dir.opposite()),
                        EdgeAction::Connector => EdgeAction::Connector,
                    }
                };
                loc.edges.insert((lo, hi), stored);
            },
            None => {
                loc.edges.remove((lo, hi));
            },
        }
        assert(loc@ == edge_set(area_view(before, area@), a, b, action));
        let ghost mid = self.locations.view();
        self.keep_location(area, loc);
        proof {
            assert forall|k: Seq<char>| k != area@ implies (#[trigger] self.locations.view().contains_key(k)
                <==> before.contains_key(k)) by {
                assert(mid.contains_key(k) == before.contains_key(k));
            }
        }
    }

    /// Forget every correction for one area.
    pub fn reset_location(&mut self, area: &str)
        ensures
            final(self).locations.view() == old(self).locations.view().remove(area@),
            final(self).membership_moves == old(self).membership_moves,
            final(self).custom_maps == old(self).custom_maps,
            final(self).area_moves == old(self).area_moves,
            final(self).custom_areas == old(self).custom_areas,
    {
        self.locations.remove(area);
    }

    /// Mint a plate under `area`. Returns its key, derived from the name
    /// so the same name always names the same plate.
    pub fn create_map(&mut self, name: &str, area: Option<&str>) -> (key: String)
        ensures
            key@ == plate_key_of(name@),
            set_at(final(self).custom_maps.view(), old(self).custom_maps.view(), key@),
            final(self).custom_maps.view()[key@]@ == (PlateView {
                name: trimmed(name@),
                area: match area {
                    Some(a) => Some(a@),
                    None => None,
                },
            }),
            final(self).locations == old(self).locations,
            final(self).membership_moves == old(self).membership_moves,
            final(self).area_moves == old(self).area_moves,
            final(self).custom_areas == old(self).custom_areas,
    {
        let key = plate_key(name);
        let plate = Plate { name: trim(name), area: owned(area) };
        let ghost pv = plate@;
        self.custom_maps.insert(key.clone(), plate);
        assert(self.custom_maps.view()[key@]@ == pv);
        key
    }

    /// The plates that are sheets of `area`, as (key, name), in key order.
    pub fn plates_of(&self, area: &str) -> (r: Vec<(&str, &str)>)
        ensures
            r@.len() == plates_in(self.custom_maps.pairs(), area@).len(),
            forall|i: int|
                0 <= i < r@.len() ==> (#[trigger] r@[i].0@, r@[i].1@) == plates_in(
                    self.custom_maps.pairs(),
                    area@,
                )[i],
    {
        let mut out: Vec<(&str, &str)> = Vec::new();
        let n = self.custom_maps.len();
        let mut i: usize = 0;
        while i < n
            invariant
                n == self.custom_maps.pairs().len(),
                i <= n,
                out@.len() == plates_in(self.custom_maps.pairs().take(i as int), area@).len(),
                forall|j: int|
                    0 <= j < out@.len() ==> (#[trigger] out@[j].0@, out@[j].1@) == plates_in(
                        self.custom_maps.pairs().take(i as int),
                        area@,
                    )[j],
            decreases n - i,
        {
            let key = self.custom_maps.key_at(i);
            let plate = self.custom_maps.value_at(i);
            let ghost t = self.custom_maps.pairs().take(i + 1);
            assert(t.drop_last() =~= self.custom_maps.pairs().take(i as int));
            assert(t.last() == self.custom_maps.pairs()[i as int]);
            let matches = match &plate.area {
                Some(a) => same_text(a.as_str(), area),
                None => false,
            };
            if matches {
                out.push((key.as_str(), plate.name.as_str()));
            }
            i = i + 1;
        }
        assert(self.custom_maps.pairs().take(n as int) =~= self.custom_maps.pairs());
        out
    }

    /// Say which area a plate is a sheet of.
    pub fn set_plate_area(&mut self, plate: &str, area: Option<&str>)
        ensures
            old(self).custom_maps.view().contains_key(plate@) ==> set_at(
                final(self).custom_maps.view(),
                old(self).custom_maps.view(),
                plate@,
            ) && final(self).custom_maps.view()[plate@]@ == (PlateView {
                name: old(self).custom_maps.view()[plate@].name@,
                area: match area {
                    Some(a) => Some(a@),
                    None => None,
                },
            }),
            !old(self).custom_maps.view().contains_key(plate@) ==> final(self).custom_maps
                == old(self).custom_maps,
            final(self).locations == old(self).locations,
            final(self).membership_moves == old(self).membership_moves,
            final(self).area_moves == old(self).area_moves,
            final(self).custom_areas == old(self).custom_areas,
    {
        self.custom_maps.facts();
        match self.custom_maps.index_of(plate) {
            Some(i) => {
                proof {
                    crate::keyed::lemma_pairs_index(self.custom_maps.pairs(), i as int);
                }
                let name = self.custom_maps.value_at(i).name.clone();
                let updated = Plate { name, area: owned(area) };
                let ghost pv = updated@;
                self.custom_maps.set_value_at(i, updated);
                assert(self.custom_maps.view()[plate@]@ == pv);
            },
            None => {},
        }
    }

    /// The area a plate is a sheet of, given the plate's display name:
    /// `None` when no plate has that name, or it has no owner recorded.
    pub fn owner_of(&self, plate_name: &str) -> (r: Option<&str>)
        ensures
            r is Some <==> owner_in(self.custom_maps.pairs(), plate_name@) is Some,
            r matches Some(a) ==> owner_in(self.custom_maps.pairs(), plate_name@) == Some(a@),
    {
        let n = self.custom_maps.len();
        let mut i: usize = 0;
        assert(self.custom_maps.pairs().skip(0) =~= self.custom_maps.pairs());
        while i < n
            invariant
                n == self.custom_maps.pairs().len(),
                i <= n,
                owner_in(self.custom_maps.pairs(), plate_name@) == owner_in(
                    self.custom_maps.pairs().skip(i as int),
                    plate_name@,
                ),
            decreases n - i,
        {
            let plate = self.custom_maps.value_at(i);
            let ghost rest = self.custom_maps.pairs().skip(i as int);
            assert(rest.drop_first() =~= self.custom_maps.pairs().skip(i + 1));
            assert(rest[0] == self.custom_maps.pairs()[i as int]);
            if same_text(plate.name.as_str(), plate_name) {
                return match &plate.area {
                    Some(a) => Some(a.as_str()),
                    None => None,
                };
            }
            i = i + 1;
        }
        None
    }

    /// Mint a curated area. Returns its key, derived from the name so
    /// the same name always names the same area.
    pub fn create_area(&mut self, name: &str) -> (key: String)
        ensures
            key@ == plate_key_of(name@),
            set_at(final(self).custom_areas.view(), old(self).custom_areas.view(), key@),
            final(self).custom_areas.view()[key@].name@ == trimmed(name@),
            final(self).locations == old(self).locations,
            final(self).membership_moves == old(self).membership_moves,
            final(self).custom_maps == old(self).custom_maps,
            final(self).area_moves == old(self).area_moves,
    {
        let key = plate_key(name);
        let area = CuratedArea { name: trim(name) };
        self.custom_areas.insert(key.clone(), area);
        key
    }

    /// Put a room in a curated area, or (with `None`) take it out;
    /// returns the area it was in before.
    pub fn set_area(&mut self, key: RoomKey, area: Option<&str>) -> (r: Option<String>)
        ensures
            final(self).area_moves.view().dom() == match area {
                Some(_) => old(self).area_moves.view().dom().insert(key),
                None => old(self).area_moves.view().dom().remove(key),
            },
            forall|k: RoomKey|
                k != key && #[trigger] final(self).area_moves.view().contains_key(k)
                    ==> final(self).area_moves.view()[k] == old(self).area_moves.view()[k],
            area matches Some(a) ==> final(self).area_moves.view()[key]@ == a@,
            r is Some <==> old(self).area_moves.view().contains_key(key),
            r matches Some(prev) ==> prev == old(self).area_moves.view()[key],
            final(self).locations == old(self).locations,
            final(self).membership_moves == old(self).membership_moves,
            final(self).custom_maps == old(self).custom_maps,
            final(self).custom_areas == old(self).custom_areas,
    {
        match area {
            Some(a) => self.area_moves.insert(key, a.to_owned()),
            None => self.area_moves.remove(key),
        }
    }

    /// Delete a curated area, releasing its rooms.
    pub fn delete_area(&mut self, area: &str)
        ensures
            final(self).custom_areas.view() == old(self).custom_areas.view().remove(area@),
            final(self).area_moves.view() == old(self).area_moves.view().restrict(
                old(self).area_moves.view().dom().filter(
                    |k: RoomKey| old(self).area_moves.view()[k]@ != area@,
                ),
            ),
            final(self).locations == old(self).locations,
            final(self).membership_moves == old(self).membership_moves,
            final(self).custom_maps == old(self).custom_maps,
    {
        self.custom_areas.remove(area);
        self.area_moves.remove_values(area);
    }

    /// A curated area's display name, falling back to its key.
    pub fn area_name<'a>(&'a self, key: &'a str) -> (r: &'a str)
        ensures
            r@ == if self.custom_areas.view().contains_key(key@) {
                self.custom_areas.view()[key@].name@
            } else {
                key@
            },
    {
        match self.custom_areas.get(key) {
            Some(area) => area.name.as_str(),
            None => key,
        }
    }

    /// A plate's display name, falling back to its key for one that
    /// arrived in a hand-edited file.
    pub fn plate_name<'a>(&'a self, key: &'a str) -> (r: &'a str)
        ensures
            r@ == if self.custom_maps.view().contains_key(key@) {
                self.custom_maps.view()[key@].name@
            } else {
                key@
            },
    {
        match self.custom_maps.get(key) {
            Some(plate) => plate.name.as_str(),
            None => key,
        }
    }

    /// Whether this room is drawn on a plate rather than with its area.
    pub fn is_plated(&self, key: RoomKey) -> (b: bool)
        ensures
            b == self.membership_moves.view().contains_key(key),
    {
        self.membership_moves.contains_key(key)
    }

    /// Move a room to a plate, or (with `None`) return it to whichever
    /// area would hold it naturally.
    pub fn move_room(&mut self, key: RoomKey, to: Option<&str>)
        ensures
            final(self).membership_moves.view().dom() == match to {
                Some(_) => old(self).membership_moves.view().dom().insert(key),
                None => old(self).membership_moves.view().dom().remove(key),
            },
            forall|k: RoomKey|
                k != key && #[trigger] final(self).membership_moves.view().contains_key(k)
                    ==> final(self).membership_moves.view()[k] == old(self).membership_moves.view()[k],
            to matches Some(p) ==> final(self).membership_moves.view()[key]@ == p@,
            final(self).locations == old(self).locations,
            final(self).custom_maps == old(self).custom_maps,
            final(self).area_moves == old(self).area_moves,
            final(self).custom_areas == old(self).custom_areas,
    {
        match to {
            Some(plate) => {
                self.membership_moves.insert(key, plate.to_owned());
            },
            None => {
                self.membership_moves.remove(key);
            },
        }
    }

    /// Delete a plate and return every room that was on it.
    pub fn delete_map(&mut self, plate: &str)
        ensures
            final(self).custom_maps.view() == old(self).custom_maps.view().remove(plate@),
            final(self).membership_moves.view() == old(self).membership_moves.view().restrict(
                old(self).membership_moves.view().dom().filter(
                    |k: RoomKey| old(self).membership_moves.view()[k]@ != plate@,
                ),
            ),
            final(self).locations == old(self).locations,
            final(self).area_moves == old(self).area_moves,
            final(self).custom_areas == old(self).custom_areas,
    {
        self.custom_maps.remove(plate);
        self.membership_moves.remove_values(plate);
    }

    /// Fix what an older build could save. A plate that owns itself, by
    /// name or by key, loses its owner: leaving it browsable and
    /// re-parentable beats guessing which area it meant. Then a plate
    /// parented to another plate adopts that plate's own area.
    pub fn repair(&mut self)
        ensures
            final(self).custom_maps.pairs().len() == old(self).custom_maps.pairs().len(),
            forall|i: int|
                0 <= i < old(self).custom_maps.pairs().len() ==> #[trigger] final(self).custom_maps.pairs()[i].0
                    == old(self).custom_maps.pairs()[i].0 && final(self).custom_maps.pairs()[i].1@
                    == repaired(old(self).custom_maps.pairs(), i),
            final(self).locations == old(self).locations,
            final(self).membership_moves == old(self).membership_moves,
            final(self).area_moves == old(self).area_moves,
            final(self).custom_areas == old(self).custom_areas,
    {
        let ghost start = self.custom_maps.pairs();
        let ghost first = first_repair(start);
        let n = self.custom_maps.len();
        let mut i: usize = 0;
        while i < n
            invariant
                n == start.len(),
                i <= n,
                self.custom_maps.pairs().len() == n,
                first == first_repair(start),
                forall|j: int|
                    0 <= j < n ==> #[trigger] self.custom_maps.pairs()[j].0 == start[j].0,
                forall|j: int|
                    0 <= j < i ==> #[trigger] self.custom_maps.pairs()[j].1@ == first[j].1,
                forall|j: int|
                    i <= j < n ==> #[trigger] self.custom_maps.pairs()[j].1 == start[j].1,
                self.locations == old(self).locations,
                self.membership_moves == old(self).membership_moves,
                self.area_moves == old(self).area_moves,
                self.custom_areas == old(self).custom_areas,
            decreases n - i,
        {
            let key = self.custom_maps.key_at(i);
            let plate = self.custom_maps.value_at(i);
            let owns_itself = match &plate.area {
                Some(a) => same_text(a.as_str(), plate.name.as_str()) || same_text(
                    a.as_str(),
                    key.as_str(),
                ),
                None => false,
            };
            if owns_itself {
                let name = plate.name.clone();
                self.custom_maps.set_value_at(i, Plate { name, area: None });
            }
            i = i + 1;
        }
        let mut owner_by_name: TextMap<Option<String>> = TextMap::new();
        let mut k: usize = 0;
        while k < n
            invariant
                n == start.len(),
                k <= n,
                self.custom_maps.pairs().len() == n,
                first == first_repair(start),
                forall|j: int| 0 <= j < n ==> #[trigger] self.custom_maps.pairs()[j].0 == start[j].0,
                forall|j: int| 0 <= j < n ==> #[trigger] self.custom_maps.pairs()[j].1@ == first[j].1,
                owner_by_name.view().dom() == owners(first.take(k as int)).dom(),
                forall|nm: Seq<char>|
                    #[trigger] owner_by_name.view().contains_key(nm) ==> opt_view(owner_by_name.view()[nm])
                        == owners(first.take(k as int))[nm],
            decreases n - k,
        {
            let plate = self.custom_maps.value_at(k);
            let ghost t = first.take(k + 1);
            assert(t.drop_last() =~= first.take(k as int));
            assert(t.last() == first[k as int]);
            assert(plate@ == first[k as int].1);
            let ghost before = owner_by_name.view();
            owner_by_name.insert(plate.name.clone(), clone_opt(&plate.area));
            assert(owner_by_name.view() == before.insert(first[k as int].1.name, owner_by_name.view()[first[k as int].1.name]));
            assert(owner_by_name.view().dom() =~= owners(first.take(k + 1)).dom());
            assert forall|nm: Seq<char>| #[trigger] owner_by_name.view().contains_key(nm) implies opt_view(
                owner_by_name.view()[nm],
            ) == owners(first.take(k + 1))[nm] by {
                if nm != first[k as int].1.name {
                    assert(before.contains_key(nm));
                }
            }
            k = k + 1;
        }
        assert(first.take(n as int) =~= first);
        let ghost own = owners(first);
        let mut m: usize = 0;
        while m < n
            invariant
                n == start.len(),
                m <= n,
                self.custom_maps.pairs().len() == n,
                first == first_repair(start),
                own == owners(first),
                owner_by_name.view().dom() == own.dom(),
                forall|nm: Seq<char>|
                    #[trigger] owner_by_name.view().contains_key(nm) ==> opt_view(owner_by_name.view()[nm])
                        == own[nm],
                forall|j: int| 0 <= j < n ==> #[trigger] self.custom_maps.pairs()[j].0 == start[j].0,
                forall|j: int|
                    0 <= j < m ==> #[trigger] self.custom_maps.pairs()[j].1@ == adopt(own, first[j].1),
                forall|j: int| m <= j < n ==> #[trigger] self.custom_maps.pairs()[j].1@ == first[j].1,
                self.locations == old(self).locations,
                self.membership_moves == old(self).membership_moves,
                self.area_moves == old(self).area_moves,
                self.custom_areas == old(self).custom_areas,
            decreases n - m,
        {
            let plate = self.custom_maps.value_at(m);
            assert(plate@ == first[m as int].1);
            let fix = match &plate.area {
                Some(a) => match owner_by_name.get(a.as_str()) {
                    Some(owner) => Some(clone_opt(owner)),
                    None => None,
                },
                None => None,
            };
            assert(fix matches Some(f) ==> first[m as int].1.area matches Some(a) && own.contains_key(a)
                && opt_view(f) == own[a]);
            assert(fix is None ==> adopt(own, first[m as int].1) == first[m as int].1);
            match fix {
                Some(area) => {
                    let name = plate.name.clone();
                    let updated = Plate { name, area };
                    assert(updated@ == adopt(own, first[m as int].1));
                    self.custom_maps.set_value_at(m, updated);
                },
                None => {},
            }
            m = m + 1;
        }
    }
}

/// Undoing a drag leaves no trace: a nudge and its opposite give back the
/// area's corrections as they were.
pub proof fn lemma_cancelled_drag(v: LocationView, anchor: RoomKey, delta: Cell)
    requires
        i32::MIN <= offset_or_zero(v, anchor).x + delta.x <= i32::MAX,
        i32::MIN <= offset_or_zero(v, anchor).y + delta.y <= i32::MAX,
        delta.x != i32::MIN,
        delta.y != i32::MIN,
        !v.group_offsets.contains_key(anchor) || v.group_offsets[anchor] != (Cell { x: 0, y: 0 }),
    ensures
        nudged(nudged(v, anchor, delta), anchor, Cell { x: -delta.x as i32, y: -delta.y as i32 })
            == v,
{
    let w = nudged(v, anchor, delta);
    let back = nudged(w, anchor, Cell { x: -delta.x as i32, y: -delta.y as i32 });
    if v.group_offsets.contains_key(anchor) {
        assert(back.group_offsets =~= v.group_offsets);
    } else {
        assert(back.group_offsets =~= v.group_offsets);
    }
}

/// Successive drags of a group accumulate.
pub proof fn lemma_drags_accumulate(v: LocationView, anchor: RoomKey, d1: Cell, d2: Cell)
    requires
        i32::MIN <= offset_or_zero(v, anchor).x + d1.x <= i32::MAX,
        i32::MIN <= offset_or_zero(v, anchor).y + d1.y <= i32::MAX,
        i32::MIN <= d1.x + d2.x <= i32::MAX,
        i32::MIN <= d1.y + d2.y <= i32::MAX,
        i32::MIN <= offset_or_zero(v, anchor).x + d1.x + d2.x <= i32::MAX,
        i32::MIN <= offset_or_zero(v, anchor).y + d1.y + d2.y <= i32::MAX,
    ensures
        nudged(nudged(v, anchor, d1), anchor, d2) == nudged(
            v,
            anchor,
            Cell { x: (d1.x + d2.x) as i32, y: (d1.y + d2.y) as i32 },
        ),
{
    let a = nudged(nudged(v, anchor, d1), anchor, d2);
    let b = nudged(v, anchor, Cell { x: (d1.x + d2.x) as i32, y: (d1.y + d2.y) as i32 });
    assert(a.group_offsets =~= b.group_offsets);
}

/// The same edge stated from either end is one correction: a bearing from
/// `a` to `b` and its opposite from `b` to `a` leave the same store.
pub proof fn lemma_edge_from_either_end(v: LocationView, a: RoomKey, b: RoomKey, d: Dir)
    requires
        a != b,
    ensures
        edge_set(v, a, b, Some(EdgeAction::Direction(d))) == edge_set(
            v,
            b,
            a,
            Some(EdgeAction::Direction(opposite_of(d))),
        ),
        edge_set(v, a, b, Some(EdgeAction::Connector)) == edge_set(
            v,
            b,
            a,
            Some(EdgeAction::Connector),
        ),
        edge_set(v, a, b, None) == edge_set(v, b, a, None),
{
    crate::direction::lemma_opposite_involution(d);
    assert(key_lt(a, b) || key_lt(b, a));
}

/// An edge's correction reads the same from either end.
pub proof fn lemma_edge_action_symmetric(v: LocationView, a: RoomKey, b: RoomKey)
    ensures
        edge_action_of(v, a, b) == edge_action_of(v, b, a),
{
}

/// A correction reads back as it was set, oriented from the canonical
/// pair's first room.
pub proof fn lemma_edge_reads_back(v: LocationView, a: RoomKey, b: RoomKey, act: EdgeAction)
    ensures
        edge_action_of(edge_set(v, a, b, Some(act)), a, b) == Some(
            if ordered_pair(a, b) == (a, b) {
                act
            } else {
                flipped(act)
            },
        ),
        edge_action_of(edge_set(v, a, b, None), a, b) is None,
{
}

/// A plate that owns itself, by name or by key, is left with no owner.
pub proof fn lemma_self_owner_dropped(pairs: Seq<(Seq<char>, Plate)>, i: int)
    requires
        0 <= i < pairs.len(),
        self_owned(pairs[i].0, pairs[i].1@),
    ensures
        repaired(pairs, i).area is None,
{
}

/// Where the store lives: beside the map file it corrects, named after
/// it, so a second map file gets its own corrections.
pub open spec fn store_path_of(map_path: Seq<char>) -> Seq<char> {
    with_file_name_of(map_path, file_stem_of(map_path) + ".overrides.json"@)
}

/// Where the store lives: beside the map file it corrects, named after it.
pub fn store_path(map_path: &str) -> (p: String)
    ensures
        p@ == store_path_of(map_path@),
{
    let mut name = file_stem(map_path);
    push_text(&mut name, ".overrides.json");
    with_file_name(map_path, name.as_str())
}

} // verus!
