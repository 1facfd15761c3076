//! The words the mapper shows: bearings and offsets in compass terms, how
//! an exit is crossed, list titles, connector labels, and text made safe
//! for a file.

use vstd::prelude::*;

use crate::direction::{Dir, EdgeAction, exact_dir, name_of};
use crate::model::{Crossing, RoomId};
use crate::text::{
    chars_of, decimal, has_prefix, lowercase, lowercase_of, occurs_at_exec, push_char,
    push_decimal, push_text, trim, trimmed,
};

verus! {

/// The compass word for a vertical step: `y` grows downward.
pub open spec fn ns_word(dy: int) -> Seq<char> {
    if dy < 0 {
        "north"@
    } else if dy > 0 {
        "south"@
    } else {
        Seq::empty()
    }
}

pub open spec fn ew_word(dx: int) -> Seq<char> {
    if dx < 0 {
        "west"@
    } else if dx > 0 {
        "east"@
    } else {
        Seq::empty()
    }
}

/// Where a cell offset points, as a compass point.
pub open spec fn bearing_text(dx: int, dy: int) -> Seq<char> {
    if dx == 0 && dy == 0 {
        "the same cell"@
    } else {
        ns_word(dy) + ew_word(dx)
    }
}

/// The compass point a cell offset points at: `north`, `southwest`, or
/// `the same cell`. `y` grows downward, so a negative `dy` is north.
pub fn bearing(dx: i32, dy: i32) -> (s: String)
    ensures
        s@ == bearing_text(dx as int, dy as int),
{
    if dx == 0 && dy == 0 {
        return "the same cell".to_owned();
    }
    let mut s = String::new();
    if dy < 0 {
        push_text(&mut s, "north");
    } else if dy > 0 {
        push_text(&mut s, "south");
    }
    if dx < 0 {
        push_text(&mut s, "west");
    } else if dx > 0 {
        push_text(&mut s, "east");
    }
    assert(s@ =~= bearing_text(dx as int, dy as int));
    s
}

/// One axis of an offset in words: `3 east`.
pub open spec fn axis_part(n: int, positive: Seq<char>, negative: Seq<char>) -> Seq<char> {
    decimal(if n < 0 {
        -n
    } else {
        n
    }) + " "@ + if n > 0 {
        positive
    } else {
        negative
    }
}

/// A cell offset in words: `3 east, 2 north`, or `same cell`.
pub open spec fn offset_text(dx: int, dy: int) -> Seq<char> {
    if dx == 0 && dy == 0 {
        "same cell"@
    } else if dy == 0 {
        axis_part(dx, "east"@, "west"@)
    } else if dx == 0 {
        axis_part(dy, "south"@, "north"@)
    } else {
        axis_part(dx, "east"@, "west"@) + ", "@ + axis_part(dy, "south"@, "north"@)
    }
}

fn push_axis(s: &mut String, n: i32, positive: &str, negative: &str)
    requires
        n != i32::MIN,
    ensures
        final(s)@ == old(s)@ + axis_part(n as int, positive@, negative@),
{
    let magnitude: i64 = if n < 0 {
        -(n as i64)
    } else {
        n as i64
    };
    push_decimal(s, magnitude);
    push_char(s, ' ');
    if n > 0 {
        push_text(s, positive);
    } else {
        push_text(s, negative);
    }
    proof {
        reveal_strlit(" ");
    }
    assert(" "@ =~= seq![' ']);
    assert(final(s)@ =~= old(s)@ + axis_part(n as int, positive@, negative@));
}

/// A cell offset in words, in compass terms, as the panel says it.
pub fn offset_phrase(dx: i32, dy: i32) -> (s: String)
    requires
        dx != i32::MIN,
        dy != i32::MIN,
    ensures
        s@ == offset_text(dx as int, dy as int),
{
    if dx == 0 && dy == 0 {
        return "same cell".to_owned();
    }
    let mut s = String::new();
    if dx != 0 {
        push_axis(&mut s, dx, "east", "west");
    }
    if dx != 0 && dy != 0 {
        push_text(&mut s, ", ");
    }
    if dy != 0 {
        push_axis(&mut s, dy, "south", "north");
    }
    assert(s@ =~= offset_text(dx as int, dy as int));
    s
}

/// How an exit is crossed, reduced to one word for the panel.
#[derive(Debug, Clone, Copy, PartialEq, Eq, Structural)]
pub enum Crossed {
    /// A plain command.
    Command,
    /// Ported from an upstream script.
    Scripted,
    /// Crossed as part of a neighbouring hop.
    PassThrough,
    /// Scripted upstream and not ported, or of an unknown kind.
    Impassable,
}

pub open spec fn crossed_of(c: Crossing) -> Crossed {
    match c {
        Crossing::Command(_) => Crossed::Command,
        Crossing::Steps(_) | Crossing::Routine(_) => Crossed::Scripted,
        Crossing::PassThrough(_) => Crossed::PassThrough,
        Crossing::Unported(_) | Crossing::Unknown(_) => Crossed::Impassable,
    }
}

pub open spec fn crossed_label(c: Crossed) -> Seq<char> {
    match c {
        Crossed::Command => ""@,
        Crossed::Scripted => "scripted"@,
        Crossed::PassThrough => "pass-through"@,
        Crossed::Impassable => "IMPASSABLE"@,
    }
}

impl Crossed {
    /// The word shown beside an exit.
    pub fn label(self) -> (s: &'static str)
        ensures
            s@ == crossed_label(self),
    {
        match self {
            Crossed::Command => "",
            Crossed::Scripted => "scripted",
            Crossed::PassThrough => "pass-through",
            Crossed::Impassable => "IMPASSABLE",
        }
    }

    pub fn of(crossing: &Crossing) -> (c: Crossed)
        ensures
            c == crossed_of(*crossing),
    {
        match crossing {
            Crossing::Command(_) => Crossed::Command,
            Crossing::Steps(_) | Crossing::Routine(_) => Crossed::Scripted,
            Crossing::PassThrough(_) => Crossed::PassThrough,
            Crossing::Unported(_) | Crossing::Unknown(_) => Crossed::Impassable,
        }
    }
}

/// How an edge correction reads in the picker.
pub open spec fn edge_label_text(action: Option<EdgeAction>) -> Seq<char> {
    match action {
        None => "auto"@,
        Some(EdgeAction::Connector) => "passage"@,
        Some(EdgeAction::Direction(d)) => name_of(d),
    }
}

pub fn edge_label(action: Option<EdgeAction>) -> (s: String)
    ensures
        s@ == edge_label_text(action),
{
    match action {
        None => "auto".to_owned(),
        Some(EdgeAction::Connector) => "passage".to_owned(),
        Some(EdgeAction::Direction(dir)) => dir.name().to_owned(),
    }
}

/// What a rebuild of the shown area does to the camera.
#[derive(Debug, Clone, Copy, PartialEq, Eq, Structural)]
pub enum Fit {
    /// Centre and zoom to the sheet: a different area is being shown.
    Reset,
    /// Leave the camera alone: the same area, redrawn after an edit.
    Keep,
}

/// Whether a rebuild of this kind re-fits the camera: only a switch does.
pub fn needs_fit_for(fit: Fit) -> (b: bool)
    ensures
        b == (fit == Fit::Reset),
{
    matches!(fit, Fit::Reset)
}

/// The movement words a connector label drops.
pub open spec fn label_rest(lowered: Seq<char>) -> Seq<char> {
    if has_prefix(lowered, "go "@) {
        lowered.skip(3)
    } else if has_prefix(lowered, "climb "@) {
        lowered.skip(6)
    } else if has_prefix(lowered, "move "@) {
        lowered.skip(5)
    } else {
        lowered
    }
}

/// A connector label worth drawing: the movement command when it is
/// short (20 bytes at most, as `str::len` counts them), not a bare direction or `out`, with a
/// leading `go `, `climb ` or `move ` dropped.
pub open spec fn connector_label_of(command: Seq<char>) -> Option<Seq<char>> {
    let trimmed_cmd = trimmed(command);
    if trimmed_cmd.len() == 0 {
        None
    } else {
        let lowered = lowercase_of(trimmed_cmd);
        if exact_dir(lowered) is Some || lowered == "out"@ {
            None
        } else {
            let rest = label_rest(lowered);
            if (vstd::utf8::encode_utf8(rest).len() as usize) <= 20 {
                Some(rest)
            } else {
                None
            }
        }
    }
}

fn skip_text(v: &Vec<char>, from: usize) -> (s: String)
    requires
        from <= v.len(),
    ensures
        s@ == v@.skip(from as int),
{
    let mut s = String::new();
    let mut k: usize = from;
    while k < v.len()
        invariant
            from <= k <= v@.len(),
            s@ == v@.subrange(from as int, k as int),
        decreases v.len() - k,
    {
        push_char(&mut s, v[k]);
        assert(v@.subrange(from as int, k as int).push(v@[k as int]) =~= v@.subrange(
            from as int,
            k + 1,
        ));
        k = k + 1;
    }
    assert(v@.subrange(from as int, v@.len() as int) =~= v@.skip(from as int));
    s
}

pub fn connector_label(command: &str) -> (r: Option<String>)
    ensures
        match r {
            Some(s) => connector_label_of(command@) == Some(s@),
            None => connector_label_of(command@) is None,
        },
{
    let t = trim(command);
    if t.as_str().is_empty() {
        return None;
    }
    let lowered = lowercase(t.as_str());
    if Dir::from_exact(lowered.as_str()).is_some() || crate::text::same_text(lowered.as_str(), "out") {
        return None;
    }
    let v = chars_of(lowered.as_str());
    proof {
        reveal_strlit("go ");
        reveal_strlit("climb ");
        reveal_strlit("move ");
    }
    let go = chars_of("go ");
    let climb = chars_of("climb ");
    let mv = chars_of("move ");
    let rest = if occurs_at_exec(&v, &go, 0) {
        skip_text(&v, 3)
    } else if occurs_at_exec(&v, &climb, 0) {
        skip_text(&v, 6)
    } else if occurs_at_exec(&v, &mv, 0) {
        skip_text(&v, 5)
    } else {
        assert(v@.skip(0) =~= v@);
        skip_text(&v, 0)
    };
    if rest.as_str().len() <= 20 {
        Some(rest)
    } else {
        None
    }
}

/// One character as XML text: the five that cannot appear, escaped.
pub open spec fn escaped_char(c: char) -> Seq<char> {
    if c == '&' {
        "&amp;"@
    } else if c == '<' {
        "&lt;"@
    } else if c == '>' {
        "&gt;"@
    } else if c == '"' {
        "&quot;"@
    } else if c == '\'' {
        "&apos;"@
    } else {
        seq![c]
    }
}

pub open spec fn escaped(s: Seq<char>) -> Seq<char>
    decreases s.len(),
{
    if s.len() == 0 {
        Seq::empty()
    } else {
        escaped(s.drop_last()) + escaped_char(s.last())
    }
}

/// Text with the five characters XML cannot hold as text escaped.
pub fn escape(s: &str) -> (out: String)
    ensures
        out@ == escaped(s@),
{
    let v = chars_of(s);
    let mut out = String::new();
    let mut i: usize = 0;
    while i < v.len()
        invariant
            i <= v@.len(),
            v@ == s@,
            out@ == escaped(v@.take(i as int)),
        decreases v.len() - i,
    {
        let c = v[i];
        let ghost t = v@.take(i + 1);
        assert(t.drop_last() =~= v@.take(i as int));
        assert(t.last() == c);
        if c == '&' {
            push_text(&mut out, "&amp;");
        } else if c == '<' {
            push_text(&mut out, "&lt;");
        } else if c == '>' {
            push_text(&mut out, "&gt;");
        } else if c == '"' {
            push_text(&mut out, "&quot;");
        } else if c == '\'' {
            push_text(&mut out, "&apos;");
        } else {
            let ghost before = out@;
            push_char(&mut out, c);
            assert(out@ =~= before + seq![c]);
        }
        i = i + 1;
    }
    assert(v@.take(v@.len() as int) =~= v@);
    out
}

/// A field with no tab or line break in it, so a row stays one row.
pub open spec fn cleaned(s: Seq<char>) -> Seq<char> {
    s.map_values(|c: char| if c == '\t' || c == '\n' || c == '\r' { ' ' } else { c })
}

pub fn clean(field: &str) -> (out: String)
    ensures
        out@ == cleaned(field@),
{
    let v = chars_of(field);
    let mut out = String::new();
    let mut i: usize = 0;
    while i < v.len()
        invariant
            i <= v@.len(),
            v@ == field@,
            out@ == cleaned(v@.take(i as int)),
        decreases v.len() - i,
    {
        let c = v[i];
        let d = if c == '\t' || c == '\n' || c == '\r' {
            ' '
        } else {
            c
        };
        push_char(&mut out, d);
        assert(cleaned(v@.take(i + 1)) =~= cleaned(v@.take(i as int)).push(d));
        i = i + 1;
    }
    assert(v@.take(v@.len() as int) =~= v@);
    out
}

/// The trail after stepping onto `next` from `at`: stepping back onto a
/// room already on it unwinds to that room; otherwise the room walked
/// from is remembered.
pub open spec fn walked(trail: Seq<RoomId>, at: Option<RoomId>, next: RoomId) -> Seq<RoomId> {
    if exists|i: int| 0 <= i < trail.len() && trail[i] == next {
        trail.take(choose|i: int| 0 <= i < trail.len() && trail[i] == next
            && forall|j: int| 0 <= j < i ==> trail[j] != next)
    } else {
        match at {
            Some(from) => trail.push(from),
            None => trail,
        }
    }
}

/// Record a step onto `next`, coming from `at`.
pub fn walk(trail: &mut Vec<RoomId>, at: Option<RoomId>, next: RoomId)
    ensures
        final(trail)@ == walked(old(trail)@, at, next),
{
    let mut i: usize = 0;
    while i < trail.len()
        invariant
            i <= trail@.len(),
            trail@ == old(trail)@,
            forall|j: int| 0 <= j < i ==> trail@[j] != next,
        decreases trail.len() - i,
    {
        if trail[i].0 == next.0 {
            proof {
                let t = old(trail)@;
                assert(t[i as int] == next);
                let k = choose|k: int| 0 <= k < t.len() && t[k] == next && forall|j: int|
                    0 <= j < k ==> t[j] != next;
                assert(k == i) by {
                    if k < i {
                        assert(t[k] != next);
                    }
                    if k > i {
                        assert(t[i as int] != next);
                    }
                }
            }
            trail.truncate(i);
            return;
        }
        i = i + 1;
    }
    match at {
        Some(from) => trail.push(from),
        None => {},
    }
}

} // verus!
