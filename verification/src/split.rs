//! Cutting text into pieces: at one separator character, into lines, and
//! into white-space separated words, each as `str` does it.

use vstd::prelude::*;

use crate::text::{is_space, is_space_char};

verus! {

/// `str::split` at the character `c`: the pieces between its occurrences,
/// empty ones included, so the empty text is one empty piece.
pub open spec fn split_on(s: Seq<char>, c: char) -> Seq<Seq<char>>
    decreases s.len(),
{
    if s.len() == 0 {
        seq![Seq::<char>::empty()]
    } else {
        let p = split_on(s.drop_last(), c);
        if s.last() == c {
            p.push(Seq::<char>::empty())
        } else {
            p.update(p.len() - 1, p.last().push(s.last()))
        }
    }
}

/// There is always at least one piece.
pub proof fn lemma_split_on_len(s: Seq<char>, c: char)
    ensures
        split_on(s, c).len() >= 1,
    decreases s.len(),
{
    if s.len() > 0 {
        lemma_split_on_len(s.drop_last(), c);
    }
}

/// The pieces of `s[from..to]` between the occurrences of `c`.
pub fn split_range(s: &Vec<char>, from: usize, to: usize, c: char) -> (out: Vec<Vec<char>>)
    requires
        from <= to <= s.len(),
    ensures
        out@.len() == split_on(s@.subrange(from as int, to as int), c).len(),
        forall|i: int|
            0 <= i < out@.len() ==> (#[trigger] out@[i])@ == split_on(s@.subrange(from as int, to as int), c)[i],
{
    let mut out: Vec<Vec<char>> = Vec::new();
    let mut cur: Vec<char> = Vec::new();
    let mut k: usize = from;
    while k < to
        invariant
            from <= k <= to <= s.len(),
            out@.len() + 1 == split_on(s@.subrange(from as int, k as int), c).len(),
            forall|i: int|
                0 <= i < out@.len() ==> (#[trigger] out@[i])@ == split_on(s@.subrange(from as int, k as int), c)[i],
            cur@ == split_on(s@.subrange(from as int, k as int), c).last(),
        decreases to - k,
    {
        let ghost t = s@.subrange(from as int, k + 1);
        proof {
            assert(t.drop_last() =~= s@.subrange(from as int, k as int));
            assert(t.last() == s@[k as int]);
            lemma_split_on_len(t.drop_last(), c);
        }
        let x = s[k];
        if x == c {
            out.push(cur);
            cur = Vec::new();
        } else {
            cur.push(x);
        }
        k = k + 1;
    }
    out.push(cur);
    out
}

/// `s` split at `c`.
pub fn split_chars(s: &Vec<char>, c: char) -> (out: Vec<Vec<char>>)
    ensures
        out@.len() == split_on(s@, c).len(),
        forall|i: int| 0 <= i < out@.len() ==> (#[trigger] out@[i])@ == split_on(s@, c)[i],
{
    assert(s@.subrange(0, s@.len() as int) =~= s@);
    split_range(s, 0, s.len(), c)
}

/// A line without the carriage return that came before its line feed.
pub open spec fn strip_cr(l: Seq<char>) -> Seq<char> {
    if l.len() > 0 && l.last() == '\r' {
        l.drop_last()
    } else {
        l
    }
}

/// `str::lines`: the pieces between line feeds, each without a carriage
/// return just before its line feed; a final line feed ends the last line
/// rather than starting an empty one, and a final piece without a line
/// feed keeps any carriage return it ends in.
pub open spec fn lines_of(s: Seq<char>) -> Seq<Seq<char>> {
    let p = split_on(s, '\n');
    let ended = p.drop_last().map_values(|l: Seq<char>| strip_cr(l));
    if p.last().len() == 0 {
        ended
    } else {
        ended.push(p.last())
    }
}

/// The lines of `s`, each as a range of `s`.
pub fn line_spans(s: &Vec<char>) -> (out: Vec<(usize, usize)>)
    ensures
        out@.len() == lines_of(s@).len(),
        forall|i: int|
            0 <= i < out@.len() ==> (#[trigger] out@[i]).0 <= out@[i].1 <= s@.len() && s@.subrange(
                out@[i].0 as int,
                out@[i].1 as int,
            ) == lines_of(s@)[i],
{
    let ghost p = split_on(s@, '\n');
    let mut out: Vec<(usize, usize)> = Vec::new();
    let mut start: usize = 0;
    let mut k: usize = 0;
    while k < s.len()
        invariant
            start <= k <= s.len(),
            out@.len() + 1 == split_on(s@.take(k as int), '\n').len(),
            forall|i: int|
                0 <= i < out@.len() ==> (#[trigger] out@[i]).0 <= out@[i].1 <= s@.len() && s@.subrange(
                    out@[i].0 as int,
                    out@[i].1 as int,
                ) == strip_cr(split_on(s@.take(k as int), '\n')[i]),
            s@.subrange(start as int, k as int) == split_on(s@.take(k as int), '\n').last(),
        decreases s.len() - k,
    {
        let ghost t = s@.take(k + 1);
        proof {
            assert(t.drop_last() =~= s@.take(k as int));
            assert(t.last() == s@[k as int]);
            lemma_split_on_len(t.drop_last(), '\n');
        }
        if s[k] == '\n' {
            let end = if k > start && s[k - 1] == '\r' {
                k - 1
            } else {
                k
            };
            proof {
                let piece = s@.subrange(start as int, k as int);
                if k > start && s@[k - 1] == '\r' {
                    assert(piece.drop_last() =~= s@.subrange(start as int, end as int));
                } else {
                    assert(piece =~= s@.subrange(start as int, end as int));
                }
            }
            out.push((start, end));
            start = k + 1;
            assert(s@.subrange(start as int, k + 1) =~= Seq::<char>::empty());
        } else {
            assert(s@.subrange(start as int, k + 1) =~= s@.subrange(start as int, k as int).push(s@[k as int]));
        }
        k = k + 1;
    }
    assert(s@.take(s@.len() as int) =~= s@);
    proof {
        lemma_split_on_len(s@, '\n');
        let ended = p.drop_last().map_values(|l: Seq<char>| strip_cr(l));
        assert(ended.len() == out@.len());
    }
    if start < k {
        out.push((start, k));
    }
    proof {
        let ended = p.drop_last().map_values(|l: Seq<char>| strip_cr(l));
        assert forall|i: int| 0 <= i < out@.len() implies (#[trigger] out@[i]).0 <= out@[i].1 <= s@.len()
            && s@.subrange(out@[i].0 as int, out@[i].1 as int) == lines_of(s@)[i] by {
            if i < ended.len() {
                assert(ended[i] == strip_cr(p[i]));
            }
        }
    }
    out
}

/// `str::split_whitespace` before empty pieces are dropped: the pieces
/// between white-space characters.
pub open spec fn split_spaces(s: Seq<char>) -> Seq<Seq<char>>
    decreases s.len(),
{
    if s.len() == 0 {
        seq![Seq::<char>::empty()]
    } else {
        let p = split_spaces(s.drop_last());
        if is_space(s.last()) {
            p.push(Seq::<char>::empty())
        } else {
            p.update(p.len() - 1, p.last().push(s.last()))
        }
    }
}

proof fn lemma_split_spaces_len(s: Seq<char>)
    ensures
        split_spaces(s).len() >= 1,
    decreases s.len(),
{
    if s.len() > 0 {
        lemma_split_spaces_len(s.drop_last());
    }
}

/// The pieces that are not empty, in order.
pub open spec fn nonempty(p: Seq<Seq<char>>) -> Seq<Seq<char>>
    decreases p.len(),
{
    if p.len() == 0 {
        Seq::empty()
    } else if p.last().len() == 0 {
        nonempty(p.drop_last())
    } else {
        nonempty(p.drop_last()).push(p.last())
    }
}

/// `str::split_whitespace`: the runs of characters between white space.
pub open spec fn words_of(s: Seq<char>) -> Seq<Seq<char>> {
    nonempty(split_spaces(s))
}

/// The white-space separated words of `s`.
pub fn words(s: &Vec<char>) -> (out: Vec<Vec<char>>)
    ensures
        out@.len() == words_of(s@).len(),
        forall|i: int| 0 <= i < out@.len() ==> (#[trigger] out@[i])@ == words_of(s@)[i],
{
    let mut out: Vec<Vec<char>> = Vec::new();
    let mut cur: Vec<char> = Vec::new();
    let mut k: usize = 0;
    while k < s.len()
        invariant
            k <= s.len(),
            out@.len() == nonempty(split_spaces(s@.take(k as int)).drop_last()).len(),
            forall|i: int|
                0 <= i < out@.len() ==> (#[trigger] out@[i])@ == nonempty(
                    split_spaces(s@.take(k as int)).drop_last(),
                )[i],
            cur@ == split_spaces(s@.take(k as int)).last(),
        decreases s.len() - k,
    {
        let ghost t = s@.take(k + 1);
        let ghost before = split_spaces(s@.take(k as int));
        proof {
            assert(t.drop_last() =~= s@.take(k as int));
            assert(t.last() == s@[k as int]);
            lemma_split_spaces_len(t.drop_last());
        }
        let x = s[k];
        if is_space_char(x) {
            proof {
                assert(split_spaces(t).drop_last() =~= before);
                assert(before =~= before.drop_last().push(before.last()));
            }
            if cur.len() > 0 {
                out.push(cur);
            }
            cur = Vec::new();
        } else {
            cur.push(x);
            proof {
                assert(split_spaces(t).drop_last() =~= before.drop_last());
            }
        }
        k = k + 1;
    }
    proof {
        let p = split_spaces(s@.take(k as int));
        lemma_split_spaces_len(s@.take(k as int));
        assert(p =~= p.drop_last().push(p.last()));
        assert(s@.take(k as int) =~= s@);
    }
    if cur.len() > 0 {
        out.push(cur);
    }
    out
}

} // verus!
