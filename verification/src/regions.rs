//! Reading places off the room graph: which hub a location names, whether
//! a room is a place and an exit a passage, whether a room reads as
//! indoors or out, and the names a group of rooms shares.

use vstd::prelude::*;

use crate::model::{Crossing, Exit, Room};
use crate::text::{
    chars_of, lowercase, lowercase_of, occurs_at, occurs_at_exec, push_char, same_text, trim_chars,
    trimmed,
};
use crate::keyed::text_lt;

verus! {

/// The tag on a room that is a menu rather than a place.
pub open spec fn virtual_room_tag() -> Seq<char> {
    "urchin-hideout"@
}

/// Whether a room is a place at all, or a menu wearing a room's clothes.
pub fn is_real_room(room: &Room) -> (b: bool)
    ensures
        b == !exists|i: int|
            0 <= i < room.tags@.len() && #[trigger] room.tags@[i]@ == virtual_room_tag(),
{
    let mut i: usize = 0;
    while i < room.tags.len()
        invariant
            i <= room.tags@.len(),
            forall|k: int| 0 <= k < i ==> #[trigger] room.tags@[k]@ != virtual_room_tag(),
        decreases room.tags.len() - i,
    {
        if same_text(room.tags[i].as_str(), "urchin-hideout") {
            return false;
        }
        i = i + 1;
    }
    true
}

/// Whether an exit is something a person can walk along: a plain
/// command or a ported script. Routines, pass-throughs and unported
/// crossings are not.
pub fn is_passage(exit: &Exit) -> (b: bool)
    ensures
        b == (exit.crossing is Command || exit.crossing is Steps),
{
    matches!(exit.crossing, Crossing::Command(_) | Crossing::Steps(_))
}

/// ASCII letters lowered, everything else kept, as
/// `str::to_ascii_lowercase` does.
pub open spec fn ascii_lower_char(c: char) -> char {
    if 'A' <= c && c <= 'Z' {
        ((c as u32) + 32) as char
    } else {
        c
    }
}

pub open spec fn ascii_lower(s: Seq<char>) -> Seq<char> {
    s.map_values(|c: char| ascii_lower_char(c))
}

fn lower_ascii_char(c: char) -> (d: char)
    ensures
        d == ascii_lower_char(c),
{
    if 'A' <= c && c <= 'Z' {
        ((c as u8) + 32) as char
    } else {
        c
    }
}

/// The part of `s` after its last space: the last word.
pub open spec fn last_word(s: Seq<char>) -> Seq<char>
    decreases s.len(),
{
    if s.len() == 0 {
        s
    } else if s.last() == ' ' {
        Seq::empty()
    } else {
        last_word(s.drop_last()).push(s.last())
    }
}

/// The words that name a settlement in "... <settlement> of <hub>".
pub open spec fn settlement(w: Seq<char>) -> bool {
    ||| w == "town"@
    ||| w == "city"@
    ||| w == "village"@
    ||| w == "port"@
    ||| w == "hamlet"@
    ||| w == "outpost"@
    ||| w == "isle"@
}

/// `" of "` at `at`, after a settlement word.
pub open spec fn hub_at(lower: Seq<char>, at: int) -> bool {
    occurs_at(lower, " of "@, at) && settlement(last_word(lower.take(at)))
}

/// The hub a location names: the text after the last "<settlement> of",
/// trimmed; anything else is its own region.
pub open spec fn region_text(location: Seq<char>) -> Seq<char> {
    let lower = ascii_lower(location);
    if exists|at: int| hub_at(lower, at) {
        let at = choose|at: int|
            hub_at(lower, at) && forall|b: int| #![trigger hub_at(lower, b)] hub_at(lower, b) ==> b <= at;
        trimmed(location.skip(at + 4))
    } else {
        location
    }
}

/// Where the last word of `v[..at]` starts.
fn last_word_start(v: &Vec<char>, at: usize) -> (start: usize)
    requires
        at <= v.len(),
    ensures
        start <= at,
        last_word(v@.take(at as int)) == v@.subrange(start as int, at as int),
{
    let mut k: usize = at;
    while k > 0 && v[k - 1] != ' '
        invariant
            k <= at <= v@.len(),
            last_word(v@.take(at as int)) == last_word(v@.take(k as int)) + v@.subrange(
                k as int,
                at as int,
            ),
        decreases k,
    {
        let ghost t = v@.take(k as int);
        assert(t.drop_last() =~= v@.take(k - 1));
        assert(t.last() == v@[k - 1]);
        assert(v@.subrange(k - 1, at as int) =~= seq![v@[k - 1]] + v@.subrange(k as int, at as int));
        assert(last_word(v@.take(k as int)) == last_word(v@.take(k - 1)).push(v@[k - 1]));
        assert(last_word(v@.take(k - 1)).push(v@[k - 1]) + v@.subrange(k as int, at as int)
            =~= last_word(v@.take(k - 1)) + v@.subrange(k - 1, at as int));
        k = k - 1;
    }
    proof {
        if k == 0 {
            assert(v@.take(0) =~= Seq::<char>::empty());
        } else {
            let t = v@.take(k as int);
            assert(t.last() == ' ');
        }
        assert(Seq::<char>::empty() + v@.subrange(k as int, at as int) =~= v@.subrange(
            k as int,
            at as int,
        ));
    }
    k
}

fn is_settlement(v: &Vec<char>, from: usize, to: usize) -> (b: bool)
    requires
        from <= to <= v.len(),
    ensures
        b == settlement(v@.subrange(from as int, to as int)),
{
    let mut w: Vec<char> = Vec::new();
    let mut k: usize = from;
    while k < to
        invariant
            from <= k <= to <= v@.len(),
            w@ == v@.subrange(from as int, k as int),
        decreases to - k,
    {
        w.push(v[k]);
        assert(v@.subrange(from as int, k as int).push(v@[k as int]) =~= v@.subrange(
            from as int,
            k + 1,
        ));
        k = k + 1;
    }
    let s = crate::text::string_of(&w);
    let st = s.as_str();
    same_text(st, "town") || same_text(st, "city") || same_text(st, "village") || same_text(
        st,
        "port",
    ) || same_text(st, "hamlet") || same_text(st, "outpost") || same_text(st, "isle")
}

/// The hub a location names. "the town of Wehnimer's Landing", "the city
/// of Ta'Vaalor", and "Kodos' Cottage, outside the frontier town of
/// Wehnimer's Landing" each name the town after "of"; anything else is
/// its own region.
pub fn region_of(location: &str) -> (r: String)
    ensures
        r@ == region_text(location@),
{
    let v = chars_of(location);
    let mut lower: Vec<char> = Vec::new();
    let mut i: usize = 0;
    while i < v.len()
        invariant
            i <= v@.len(),
            lower@ == ascii_lower(v@.take(i as int)),
        decreases v.len() - i,
    {
        lower.push(lower_ascii_char(v[i]));
        assert(ascii_lower(v@.take(i + 1)) =~= ascii_lower(v@.take(i as int)).push(
            ascii_lower_char(v@[i as int]),
        ));
        i = i + 1;
    }
    assert(v@.take(v@.len() as int) =~= v@);
    let of = chars_of(" of ");
    proof {
        reveal_strlit(" of ");
    }
    let mut best: Option<usize> = None;
    let mut at: usize = 0;
    while at < lower.len()
        invariant
            at <= lower@.len(),
            lower@ == ascii_lower(location@),
            of@ == " of "@,
            match best {
                Some(b) => b < at && hub_at(lower@, b as int) && forall|c: int|
                    #![trigger hub_at(lower@, c)]
                    b < c < at ==> !hub_at(lower@, c),
                None => forall|c: int| #![trigger hub_at(lower@, c)] 0 <= c < at ==> !hub_at(lower@, c),
            },
        decreases lower.len() - at,
    {
        if occurs_at_exec(&lower, &of, at) {
            let start = last_word_start(&lower, at);
            if is_settlement(&lower, start, at) {
                best = Some(at);
            }
        }
        at = at + 1;
    }
    proof {
        assert forall|c: int| #![trigger hub_at(lower@, c)] c >= lower@.len() implies !hub_at(lower@, c) by {
            assert(!occurs_at(lower@, " of "@, c));
        }
        assert forall|c: int| #![trigger hub_at(lower@, c)] c < 0 implies !hub_at(lower@, c) by {
        }
    }
    match best {
        Some(b) => {
            proof {
                let l = ascii_lower(location@);
                assert(hub_at(l, b as int));
                let ch = choose|c: int|
                    hub_at(l, c) && forall|d: int| #![trigger hub_at(l, d)] hub_at(l, d) ==> d <= c;
                assert(hub_at(l, b as int) && forall|d: int| #![trigger hub_at(l, d)] hub_at(l, d) ==> d <= b);
                assert(ch == b as int) by {
                    assert(ch <= b);
                    assert(b <= ch);
                }
                assert(b + 4 <= v@.len()) by {
                    assert(occurs_at(l, " of "@, b as int));
                }
            }
            let mut rest: Vec<char> = Vec::new();
            let mut k: usize = b + 4;
            while k < v.len()
                invariant
                    b + 4 <= k <= v@.len(),
                    rest@ == v@.subrange(b + 4, k as int),
                decreases v.len() - k,
            {
                rest.push(v[k]);
                assert(v@.subrange(b + 4, k as int).push(v@[k as int]) =~= v@.subrange(b + 4, k + 1));
                k = k + 1;
            }
            assert(rest@ =~= location@.skip(b + 4));
            let t = trim_chars(&rest);
            crate::text::string_of(&t)
        },
        None => {
            assert(!exists|c: int| hub_at(ascii_lower(location@), c));
            location.to_owned()
        },
    }
}

/// The last word of text ending in a space, followed by a word with no
/// space in it, is that word.
proof fn lemma_last_word_after_space(s: Seq<char>, w: Seq<char>)
    requires
        s.len() > 0,
        s.last() == ' ',
        forall|i: int| 0 <= i < w.len() ==> w[i] != ' ',
    ensures
        last_word(s + w) == w,
    decreases w.len(),
{
    if w.len() == 0 {
        assert(s + w =~= s);
    } else {
        lemma_last_word_after_space(s, w.drop_last());
        assert((s + w).drop_last() =~= s + w.drop_last());
        assert((s + w).last() == w.last());
        assert(w.drop_last().push(w.last()) =~= w);
    }
}

/// Lowering text a piece at a time lowers the whole.
proof fn lemma_ascii_lower_concat(a: Seq<char>, b: Seq<char>)
    ensures
        ascii_lower(a + b) == ascii_lower(a) + ascii_lower(b),
{
    assert(ascii_lower(a + b) =~= ascii_lower(a) + ascii_lower(b));
}

/// "the <settlement> of <hub>" names the hub, for each of the settlement
/// words town, city, village, port, hamlet, outpost and isle, in any
/// letter case, whatever trimmed hub follows that holds no further " of ".
pub proof fn lemma_settlement_names_its_hub(the: Seq<char>, word: Seq<char>, w: Seq<char>, h: Seq<char>)
    requires
        ascii_lower(the) == "the "@,
        ascii_lower(word) == w,
        w == "town"@ || w == "city"@ || w == "village"@ || w == "port"@ || w == "hamlet"@ || w == "outpost"@ || w
            == "isle"@,
        trimmed(h) == h,
        forall|p: int| !occurs_at(" "@ + ascii_lower(h), " of "@, p),
    ensures
        region_text(the + word + " of "@ + h) == h,
{
    reveal_strlit("the ");
    reveal_strlit(" of ");
    reveal_strlit(" ");
    reveal_strlit("town");
    reveal_strlit("city");
    reveal_strlit("village");
    reveal_strlit("port");
    reveal_strlit("hamlet");
    reveal_strlit("outpost");
    reveal_strlit("isle");
    assert(forall|i: int| 0 <= i < w.len() ==> 'a' <= #[trigger] w[i] <= 'z');
    assert(settlement(w));
    let pre = the + word;
    let loc = pre + " of "@ + h;
    let at0 = pre.len() as int;
    assert(ascii_lower(the).len() == the.len());
    assert(ascii_lower(word).len() == word.len());
    assert(the.len() == 4 && word.len() == w.len());
    assert(ascii_lower(" of "@) =~= " of "@);
    lemma_ascii_lower_concat(the, word);
    lemma_ascii_lower_concat(pre, " of "@);
    lemma_ascii_lower_concat(pre + " of "@, h);
    let lower = ascii_lower(loc);
    assert(lower == "the "@ + w + " of "@ + ascii_lower(h));
    assert(lower.subrange(at0, at0 + 4) =~= " of "@);
    assert(lower.take(at0) =~= "the "@ + w);
    lemma_last_word_after_space("the "@, w);
    assert(hub_at(lower, at0));
    assert(lower.skip(at0 + 3) =~= " "@ + ascii_lower(h));
    assert forall|b: int| #![trigger hub_at(lower, b)] hub_at(lower, b) implies b <= at0 by {
        if b > at0 {
            if b == at0 + 1 {
                assert(lower[b] == 'o');
                assert(lower.subrange(b, b + 4)[0] == lower[b]);
            } else if b == at0 + 2 {
                assert(lower[b] == 'f');
                assert(lower.subrange(b, b + 4)[0] == lower[b]);
            } else {
                let p = b - at0 - 3;
                assert(lower.subrange(b, b + 4) =~= (" "@ + ascii_lower(h)).subrange(p, p + 4));
                assert(occurs_at(" "@ + ascii_lower(h), " of "@, p));
            }
        }
    }
    let ch = choose|at: int| hub_at(lower, at) && forall|b: int| #![trigger hub_at(lower, b)] hub_at(lower, b) ==> b <= at;
    assert(ch == at0);
    assert(loc.skip(at0 + 4) =~= h);
}

/// A location with no " of " in it, in any letter case, is its own
/// region, word for word.
pub proof fn lemma_plain_location_is_its_own_region(location: Seq<char>)
    requires
        forall|p: int| !occurs_at(ascii_lower(location), " of "@, p),
    ensures
        region_text(location) == location,
{
    assert forall|at: int| !hub_at(ascii_lower(location), at) by {
        assert(!occurs_at(ascii_lower(location), " of "@, at));
    }
}


/// Whether a room reads as indoors, outdoors, or neither.
#[derive(Debug, Clone, Copy, PartialEq, Eq, Structural)]
pub enum Sense {
    Indoor,
    Outdoor,
    Unknown,
}

/// Whether `word` occurs anywhere in `s`.
pub open spec fn mentions(s: Seq<char>, word: Seq<char>) -> bool {
    exists|i: int| occurs_at(s, word, i)
}

/// Some paths line says "obvious exits" (or "obvious paths").
pub open spec fn any_line_mentions(lines: Seq<String>, word: Seq<char>) -> bool {
    exists|i: int| 0 <= i < lines.len() && mentions(lowercase_of(#[trigger] lines[i]@), word)
}

/// "Obvious exits" is indoors, "Obvious paths" outdoors; a room whose
/// paths lines say both, or neither, is unknown.
pub open spec fn sense_of(room: Room) -> Sense {
    let indoor = any_line_mentions(room.paths@, "obvious exits"@);
    let outdoor = any_line_mentions(room.paths@, "obvious paths"@);
    if indoor && !outdoor {
        Sense::Indoor
    } else if outdoor && !indoor {
        Sense::Outdoor
    } else {
        Sense::Unknown
    }
}

fn mentions_exec(s: &Vec<char>, word: &Vec<char>) -> (b: bool)
    ensures
        b == mentions(s@, word@),
{
    let mut i: usize = 0;
    loop
        invariant
            i <= s.len(),
            forall|k: int| 0 <= k < i ==> !occurs_at(s@, word@, k),
        ensures
            forall|k: int| 0 <= k <= s.len() ==> !occurs_at(s@, word@, k),
        decreases s.len() - i,
    {
        if occurs_at_exec(s, word, i) {
            return true;
        }
        assert(!occurs_at(s@, word@, i as int));
        if i == s.len() {
            break;
        }
        i = i + 1;
    }
    assert forall|k: int| !occurs_at(s@, word@, k) by {
        if k > s@.len() || k < 0 {
            assert(!occurs_at(s@, word@, k));
        }
    }
    false
}

/// Whether a room reads as indoors or out from its paths lines.
pub fn room_sense(room: &Room) -> (s: Sense)
    ensures
        s == sense_of(*room),
{
    let exits_word = chars_of("obvious exits");
    let paths_word = chars_of("obvious paths");
    let mut indoor = false;
    let mut outdoor = false;
    let mut i: usize = 0;
    while i < room.paths.len()
        invariant
            i <= room.paths@.len(),
            exits_word@ == "obvious exits"@,
            paths_word@ == "obvious paths"@,
            indoor == exists|k: int| 0 <= k < i && mentions(lowercase_of(#[trigger] room.paths@[k]@), "obvious exits"@),
            outdoor == exists|k: int| 0 <= k < i && mentions(lowercase_of(#[trigger] room.paths@[k]@), "obvious paths"@),
        decreases room.paths.len() - i,
    {
        let lowered = lowercase(room.paths[i].as_str());
        let lv = chars_of(lowered.as_str());
        if mentions_exec(&lv, &exits_word) {
            indoor = true;
        }
        if mentions_exec(&lv, &paths_word) {
            outdoor = true;
        }
        i = i + 1;
    }
    if indoor && !outdoor {
        Sense::Indoor
    } else if outdoor && !indoor {
        Sense::Outdoor
    } else {
        Sense::Unknown
    }
}

/// How many of these members read as `s`.
pub open spec fn count_sense(members: Seq<usize>, sense: Seq<Sense>, s: Sense) -> nat
    decreases members.len(),
{
    if members.len() == 0 {
        0
    } else {
        count_sense(members.drop_last(), sense, s) + if sense[members.last() as int] == s {
            1nat
        } else {
            0nat
        }
    }
}

/// The sense most members share: indoors or out, unknown on a tie.
pub open spec fn majority_of(members: Seq<usize>, sense: Seq<Sense>) -> Sense {
    let indoor = count_sense(members, sense, Sense::Indoor);
    let outdoor = count_sense(members, sense, Sense::Outdoor);
    if indoor > outdoor {
        Sense::Indoor
    } else if indoor < outdoor {
        Sense::Outdoor
    } else {
        Sense::Unknown
    }
}

pub fn majority(members: &[usize], sense: &[Sense]) -> (s: Sense)
    requires
        forall|i: int| 0 <= i < members@.len() ==> #[trigger] members@[i] < sense@.len(),
    ensures
        s == majority_of(members@, sense@),
{
    let mut indoor: usize = 0;
    let mut outdoor: usize = 0;
    let mut i: usize = 0;
    while i < members.len()
        invariant
            i <= members@.len(),
            forall|k: int| 0 <= k < members@.len() ==> #[trigger] members@[k] < sense@.len(),
            indoor == count_sense(members@.take(i as int), sense@, Sense::Indoor),
            outdoor == count_sense(members@.take(i as int), sense@, Sense::Outdoor),
            indoor <= i,
            outdoor <= i,
        decreases members.len() - i,
    {
        let ghost t = members@.take(i + 1);
        assert(t.drop_last() =~= members@.take(i as int));
        assert(t.last() == members@[i as int]);
        let s = sense[members[i]];
        if s == Sense::Indoor {
            indoor = indoor + 1;
        } else if s == Sense::Outdoor {
            outdoor = outdoor + 1;
        }
        i = i + 1;
    }
    assert(members@.take(members@.len() as int) =~= members@);
    if indoor > outdoor {
        Sense::Indoor
    } else if indoor < outdoor {
        Sense::Outdoor
    } else {
        Sense::Unknown
    }
}

/// How many times `name` occurs.
pub open spec fn occurrences(names: Seq<Seq<char>>, name: Seq<char>) -> nat
    decreases names.len(),
{
    if names.len() == 0 {
        0
    } else {
        occurrences(names.drop_last(), name) + if names.last() == name {
            1nat
        } else {
            0nat
        }
    }
}

/// `name` is a most common name, and the first in text order among the
/// names that common.
pub open spec fn is_commonest(names: Seq<Seq<char>>, name: Seq<char>) -> bool {
    &&& names.contains(name)
    &&& forall|m: Seq<char>| #[trigger] names.contains(m) ==> occurrences(names, m) <= occurrences(names, name)
    &&& forall|m: Seq<char>|
        #[trigger] names.contains(m) && occurrences(names, m) == occurrences(names, name)
            ==> !text_lt(m, name)
}

proof fn lemma_occurrences_positive(names: Seq<Seq<char>>, i: int)
    requires
        0 <= i < names.len(),
    ensures
        occurrences(names, names[i]) >= 1,
    decreases names.len(),
{
    if i < names.len() - 1 {
        lemma_occurrences_positive(names.drop_last(), i);
        assert(names.drop_last()[i] == names[i]);
    }
}

/// The most common of these names, ties going to the first in text
/// order; `None` when there are none.
pub fn commonest(names: &Vec<String>) -> (r: Option<String>)
    ensures
        r is None <==> names@.len() == 0,
        r matches Some(n) ==> is_commonest(names@.map_values(|s: String| s@), n@),
{
    let ghost all = names@.map_values(|s: String| s@);
    let n = names.len();
    if n == 0 {
        return None;
    }
    let mut best: usize = 0;
    let mut best_count: usize = count_of(names, 0);
    let mut i: usize = 1;
    proof {
        crate::keyed::lemma_text_lt_irreflexive(all[0]);
    }
    while i < n
        invariant
            n == names@.len(),
            all == names@.map_values(|s: String| s@),
            1 <= i <= n,
            best < n,
            best_count == occurrences(all, all[best as int]),
            forall|j: int| 0 <= j < i ==> occurrences(all, #[trigger] all[j]) <= best_count,
            forall|j: int|
                0 <= j < i && occurrences(all, #[trigger] all[j]) == best_count ==> !text_lt(
                    all[j],
                    all[best as int],
                ),
        decreases n - i,
    {
        let c = count_of(names, i);
        let better = c > best_count || (c == best_count && crate::keyed::text_less(
            names[i].as_str(),
            names[best].as_str(),
        ));
        if better {
            proof {
                assert forall|j: int| 0 <= j < i + 1 && occurrences(all, #[trigger] all[j]) == c implies !text_lt(
                    all[j],
                    all[i as int],
                ) by {
                    if j < i && c == best_count {
                        if text_lt(all[j], all[i as int]) {
                            crate::keyed::lemma_text_lt_transitive(all[j], all[i as int], all[best as int]);
                        }
                    }
                    if j == i {
                        crate::keyed::lemma_text_lt_irreflexive(all[j]);
                    }
                }
            }
            best = i;
            best_count = c;
        } else {
            proof {
                if c == best_count {
                    crate::keyed::lemma_text_lt_total(all[i as int], all[best as int]);
                    if all[i as int] == all[best as int] {
                        crate::keyed::lemma_text_lt_irreflexive(all[best as int]);
                    }
                }
            }
        }
        i = i + 1;
    }
    proof {
        assert forall|m: Seq<char>| #[trigger] all.contains(m) implies occurrences(all, m) <= occurrences(
            all,
            all[best as int],
        ) by {
            let j = choose|j: int| 0 <= j < all.len() && all[j] == m;
            assert(occurrences(all, all[j]) <= best_count);
        }
        assert forall|m: Seq<char>|
            #[trigger] all.contains(m) && occurrences(all, m) == occurrences(all, all[best as int])
                implies !text_lt(m, all[best as int]) by {
            let j = choose|j: int| 0 <= j < all.len() && all[j] == m;
            assert(occurrences(all, all[j]) == best_count);
        }
        assert(all.contains(all[best as int]));
    }
    Some(names[best].clone())
}

/// How many of the names equal the one at `i`.
fn count_of(names: &Vec<String>, i: usize) -> (c: usize)
    requires
        i < names@.len(),
    ensures
        c == occurrences(names@.map_values(|s: String| s@), names@[i as int]@),
{
    let ghost all = names@.map_values(|s: String| s@);
    let mut c: usize = 0;
    let mut k: usize = 0;
    while k < names.len()
        invariant
            k <= names@.len(),
            i < names@.len(),
            all == names@.map_values(|s: String| s@),
            c == occurrences(all.take(k as int), all[i as int]),
            c <= k,
        decreases names.len() - k,
    {
        let ghost t = all.take(k + 1);
        assert(t.drop_last() =~= all.take(k as int));
        assert(t.last() == names@[k as int]@);
        if same_text(names[k].as_str(), names[i].as_str()) {
            c = c + 1;
        }
        k = k + 1;
    }
    assert(all.take(names@.len() as int) =~= all);
    c
}

} // verus!
