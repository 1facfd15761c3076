//! The room graph the layout reads: rooms, their exits, and how each exit
//! is crossed.
//!
//! Only what the layout logic reads is held here. A map is a list of rooms
//! with distinct ids, looked up by id.

use vstd::prelude::*;

verus! {

/// A room's id within one map build.
#[derive(Debug, Clone, Copy, PartialEq, Eq, Structural, Hash)]
pub struct RoomId(pub u32);

/// The game's own room number, stable across map builds.
#[derive(Debug, Clone, Copy, PartialEq, Eq, Structural, Hash)]
pub struct Uid(pub i64);

/// How the map's converter classified an exit.
#[derive(Debug, Clone, Copy, PartialEq, Eq, Structural, Hash)]
pub enum ExitKind {
    Cardinal,
    Vertical,
    Out,
    Go,
    Climb,
    Other,
    Scripted,
}

/// One action of a ported script, with the movement text it carries.
#[derive(Debug, Clone, PartialEq, Eq)]
pub enum Action {
    /// A plain movement: walk this way once.
    Move(String),
    KeepMoving(String),
    MoveUntilThere(String),
    TryMove(String),
    Moves(String),
    KeepMovingAny(String),
    CastAt(String),
    MovesFromSetting(String),
    MoveWhile(String),
    MoveAnyWhile(String),
    WanderWhile(String),
    RoundWhile(String),
    MoveByAnyExitBut(String),
    AwaitArrival,
    AwaitAny(String),
    Await(String),
    /// Anything that stays in the room: a wait, a message, an item use.
    Stay(String),
}

/// One step of a ported script: an action, and the guard it runs under.
#[derive(Debug, Clone, PartialEq, Eq)]
pub struct Step {
    pub action: Action,
    /// The guard's text, when the step has one.
    pub when: Option<String>,
}

/// How an exit is crossed.
#[derive(Debug, Clone, PartialEq, Eq)]
pub enum Crossing {
    /// A plain movement command.
    Command(String),
    /// A ported script.
    Steps(Vec<Step>),
    /// A travel routine whose destinations shuffle.
    Routine(String),
    /// Crossed as part of a neighbouring hop.
    PassThrough(String),
    /// Scripted upstream and not ported.
    Unported(String),
    /// A crossing this build does not know.
    Unknown(String),
}

/// One exit out of a room.
#[derive(Debug, Clone, PartialEq, Eq)]
pub struct Exit {
    pub to: RoomId,
    pub kind: ExitKind,
    pub crossing: Crossing,
}

/// One room, as the layout reads it.
#[derive(Debug, Clone, PartialEq, Eq)]
pub struct Room {
    pub id: RoomId,
    pub uid: Vec<Uid>,
    pub title: Vec<String>,
    /// Every variant of the room's "Obvious paths/exits" line.
    pub paths: Vec<String>,
    pub location: Option<String>,
    pub climate: Option<String>,
    pub terrain: Option<String>,
    pub tags: Vec<String>,
    pub meta: Vec<String>,
    pub exits: Vec<Exit>,
}

impl Room {
    /// A room with this id and nothing else: no uid, no titles, no exits.
    pub fn bare(id: RoomId) -> (r: Room)
        ensures
            r.id == id,
            r.uid@.len() == 0,
            r.title@.len() == 0,
            r.paths@.len() == 0,
            r.location is None,
            r.climate is None,
            r.terrain is None,
            r.tags@.len() == 0,
            r.meta@.len() == 0,
            r.exits@.len() == 0,
    {
        Room {
            id,
            uid: Vec::new(),
            title: Vec::new(),
            paths: Vec::new(),
            location: None,
            climate: None,
            terrain: None,
            tags: Vec::new(),
            meta: Vec::new(),
            exits: Vec::new(),
        }
    }
}

/// No two rooms share an id.
pub open spec fn ids_unique(rooms: Seq<Room>) -> bool {
    forall|i: int, j: int|
        0 <= i < rooms.len() && 0 <= j < rooms.len() && i != j ==> #[trigger] rooms[i].id
            != #[trigger] rooms[j].id
}

/// Whether some room has this id.
pub open spec fn has_room(rooms: Seq<Room>, id: RoomId) -> bool {
    exists|i: int| 0 <= i < rooms.len() && #[trigger] rooms[i].id == id
}

/// The room with this id, if there is one.
pub open spec fn room_of(rooms: Seq<Room>, id: RoomId) -> Option<Room> {
    if has_room(rooms, id) {
        Some(rooms[choose|i: int| 0 <= i < rooms.len() && #[trigger] rooms[i].id == id])
    } else {
        None
    }
}

/// The room an id names has that id.
pub proof fn lemma_room_of_id(rooms: Seq<Room>, id: RoomId)
    ensures
        room_of(rooms, id) matches Some(r) ==> r.id == id,
{
}

/// With distinct ids, the room at index `i` is the one its id names.
pub proof fn lemma_room_of_index(rooms: Seq<Room>, i: int)
    requires
        ids_unique(rooms),
        0 <= i < rooms.len(),
    ensures
        room_of(rooms, rooms[i].id) == Some(rooms[i]),
{
    let id = rooms[i].id;
    assert(has_room(rooms, id));
    let j = choose|j: int| 0 <= j < rooms.len() && #[trigger] rooms[j].id == id;
    if j != i {
        assert(rooms[i].id != rooms[j].id);
    }
}

/// A map: rooms with distinct ids, in map order.
pub struct RoomMap {
    rooms: Vec<Room>,
}

impl View for RoomMap {
    type V = Seq<Room>;

    closed spec fn view(&self) -> Seq<Room> {
        self.rooms@
    }
}

impl RoomMap {
    #[verifier::type_invariant]
    spec fn distinct(&self) -> bool {
        ids_unique(self.rooms@)
    }

    /// A map of these rooms, or `None` when two of them share an id.
    pub fn from_rooms(rooms: Vec<Room>) -> (r: Option<RoomMap>)
        ensures
            r is Some <==> ids_unique(rooms@),
            r matches Some(m) ==> m@ == rooms@,
    {
        let n = rooms.len();
        let mut i: usize = 0;
        while i < n
            invariant
                n == rooms.len(),
                i <= n,
                forall|a: int, b: int|
                    0 <= a < i && 0 <= b < n && a != b ==> #[trigger] rooms@[a].id
                        != #[trigger] rooms@[b].id,
            decreases n - i,
        {
            let mut j: usize = 0;
            while j < n
                invariant
                    n == rooms.len(),
                    i < n,
                    j <= n,
                    forall|a: int, b: int|
                        0 <= a < i && 0 <= b < n && a != b ==> #[trigger] rooms@[a].id
                            != #[trigger] rooms@[b].id,
                    forall|b: int| 0 <= b < j && i != b ==> rooms@[i as int].id != #[trigger] rooms@[b].id,
                decreases n - j,
            {
                if j != i && rooms[j].id.0 == rooms[i].id.0 {
                    assert(!ids_unique(rooms@)) by {
                        assert(rooms@[i as int].id == rooms@[j as int].id);
                    }
                    return None;
                }
                j = j + 1;
            }
            i = i + 1;
        }
        Some(RoomMap { rooms })
    }

    /// The rooms, in map order, handed over.
    pub fn into_rooms(self) -> (v: Vec<Room>)
        ensures
            v@ == self@,
            ids_unique(v@),
    {
        proof {
            use_type_invariant(&self);
        }
        self.rooms
    }

    /// Every room, in map order.
    pub fn rooms(&self) -> (r: &Vec<Room>)
        ensures
            r@ == self@,
            ids_unique(self@),
    {
        proof {
            use_type_invariant(self);
        }
        &self.rooms
    }

    /// The room with this id.
    pub fn room(&self, id: RoomId) -> (r: Option<&Room>)
        ensures
            r is Some <==> has_room(self@, id),
            r matches Some(x) ==> room_of(self@, id) == Some(*x),
    {
        proof {
            use_type_invariant(self);
        }
        let n = self.rooms.len();
        let mut i: usize = 0;
        while i < n
            invariant
                n == self.rooms@.len(),
                i <= n,
                ids_unique(self.rooms@),
                forall|k: int| 0 <= k < i ==> #[trigger] self.rooms@[k].id != id,
            decreases n - i,
        {
            if self.rooms[i].id.0 == id.0 {
                proof {
                    lemma_room_of_index(self.rooms@, i as int);
                }
                return Some(&self.rooms[i]);
            }
            i = i + 1;
        }
        assert(!has_room(self@, id));
        None
    }

    /// Whether the map has a room with this id.
    pub fn contains(&self, id: RoomId) -> (b: bool)
        ensures
            b == has_room(self@, id),
    {
        match self.room(id) {
            Some(_) => true,
            None => false,
        }
    }
}

} // verus!
