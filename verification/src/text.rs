//! Character-level text handling shared by the rest of the library:
//! trimming, lowercasing, word-boundary search, prefixes, and the decimal
//! form of integers.
//!
//! Every function here works on the character sequence a string views as,
//! and states its result over that sequence.

use vstd::prelude::*;

verus! {

/// The characters of a string slice, in order.
pub fn chars_of(s: &str) -> (out: Vec<char>)
    ensures
        out@ == s@,
{
    let mut out: Vec<char> = Vec::new();
    for c in it: s.chars()
        invariant
            out@ == it.seq().take(it.index() as int),
            it.seq() == s@,
    {
        out.push(c);
    }
    out
}

/// `String::push`: appends one character.
#[verifier::external_body]
pub(crate) fn push_char(s: &mut String, c: char)
    ensures
        final(s)@ == old(s)@.push(c),
{
    s.push(c);
}

/// `String::push_str`: appends a string slice.
#[verifier::external_body]
pub(crate) fn push_text(s: &mut String, t: &str)
    ensures
        final(s)@ == old(s)@ + t@,
{
    s.push_str(t);
}

/// What `str::to_lowercase` returns for a string of these characters.
pub uninterp spec fn lowercase_of(s: Seq<char>) -> Seq<char>;

/// `str::to_lowercase`: the Unicode lowercase form of a string.
#[verifier::external_body]
pub(crate) fn lowercase(s: &str) -> (out: String)
    ensures
        out@ == lowercase_of(s@),
{
    s.to_lowercase()
}

/// A string holding exactly these characters.
pub fn string_of(v: &Vec<char>) -> (out: String)
    ensures
        out@ == v@,
{
    let mut out = String::new();
    for i in 0..v.len()
        invariant
            out@ == v@.take(i as int),
    {
        push_char(&mut out, v[i]);
        assert(v@.take(i as int).push(v@[i as int]) =~= v@.take(i + 1));
    }
    assert(v@.take(v.len() as int) =~= v@);
    out
}

/// Unicode `White_Space`, the set `char::is_whitespace` tests.
pub open spec fn is_space(c: char) -> bool {
    ||| ('\u{9}' <= c && c <= '\u{d}')
    ||| c == ' '
    ||| c == '\u{85}'
    ||| c == '\u{a0}'
    ||| c == '\u{1680}'
    ||| ('\u{2000}' <= c && c <= '\u{200a}')
    ||| c == '\u{2028}'
    ||| c == '\u{2029}'
    ||| c == '\u{202f}'
    ||| c == '\u{205f}'
    ||| c == '\u{3000}'
}

pub fn is_space_char(c: char) -> (b: bool)
    ensures
        b == is_space(c),
{
    ('\u{9}' <= c && c <= '\u{d}') || c == ' ' || c == '\u{85}' || c == '\u{a0}' || c
        == '\u{1680}' || ('\u{2000}' <= c && c <= '\u{200a}') || c == '\u{2028}' || c
        == '\u{2029}' || c == '\u{202f}' || c == '\u{205f}' || c == '\u{3000}'
}

/// The sequence without its leading white space.
pub open spec fn trim_start(s: Seq<char>) -> Seq<char>
    decreases s.len(),
{
    if s.len() > 0 && is_space(s[0]) {
        trim_start(s.drop_first())
    } else {
        s
    }
}

/// The sequence without its trailing white space.
pub open spec fn trim_end(s: Seq<char>) -> Seq<char>
    decreases s.len(),
{
    if s.len() > 0 && is_space(s.last()) {
        trim_end(s.drop_last())
    } else {
        s
    }
}

/// The sequence without white space at either end, as `str::trim` gives it.
pub open spec fn trimmed(s: Seq<char>) -> Seq<char> {
    trim_end(trim_start(s))
}

proof fn lemma_trim_start_step(s: Seq<char>, i: int)
    requires
        0 <= i < s.len(),
        is_space(s[i]),
    ensures
        trim_start(s.subrange(i, s.len() as int)) == trim_start(s.subrange(i + 1, s.len() as int)),
{
    assert(s.subrange(i, s.len() as int).drop_first() =~= s.subrange(i + 1, s.len() as int));
}

proof fn lemma_trim_end_step(s: Seq<char>, j: int)
    requires
        0 < j <= s.len(),
        is_space(s[j - 1]),
    ensures
        trim_end(s.subrange(0, j)) == trim_end(s.subrange(0, j - 1)),
{
    assert(s.subrange(0, j).drop_last() =~= s.subrange(0, j - 1));
}

/// `s` without white space at either end.
pub fn trim_chars(s: &Vec<char>) -> (out: Vec<char>)
    ensures
        out@ == trimmed(s@),
{
    let n = s.len();
    let mut i: usize = 0;
    assert(s@.subrange(0, n as int) =~= s@);
    while i < n && is_space_char(s[i])
        invariant
            i <= n,
            n == s@.len(),
            trim_start(s@) == trim_start(s@.subrange(i as int, n as int)),
        decreases n - i,
    {
        proof {
            lemma_trim_start_step(s@, i as int);
        }
        i = i + 1;
    }
    let ghost front = s@.subrange(i as int, n as int);
    assert(trim_start(s@) == front) by {
        if front.len() > 0 {
            assert(front[0] == s@[i as int]);
        }
    }
    let mut j: usize = n;
    assert(front.subrange(0, n - i) =~= front);
    while j > i && is_space_char(s[j - 1])
        invariant
            i <= j <= n,
            n == s@.len(),
            front == s@.subrange(i as int, n as int),
            trim_end(front) == trim_end(front.subrange(0, j - i)),
        decreases j,
    {
        proof {
            lemma_trim_end_step(front, (j - i) as int);
        }
        j = j - 1;
    }
    assert(trim_end(front) =~= front.subrange(0, j - i)) by {
        let f = front.subrange(0, j - i);
        if f.len() > 0 {
            assert(f.last() == s@[j - 1]);
        }
    }
    let mut out: Vec<char> = Vec::new();
    let mut k: usize = i;
    while k < j
        invariant
            i <= k <= j <= n,
            n == s@.len(),
            out@ == s@.subrange(i as int, k as int),
        decreases j - k,
    {
        out.push(s[k]);
        assert(s@.subrange(i as int, k as int).push(s@[k as int]) =~= s@.subrange(
            i as int,
            k + 1,
        ));
        k = k + 1;
    }
    assert(out@ =~= front.subrange(0, j - i));
    out
}

/// `str::trim`.
pub fn trim(s: &str) -> (out: String)
    ensures
        out@ == trimmed(s@),
{
    let v = chars_of(s);
    let t = trim_chars(&v);
    string_of(&t)
}

/// `s.trim().to_lowercase()`.
pub fn lower_trim(s: &str) -> (out: String)
    ensures
        out@ == lowercase_of(trimmed(s@)),
{
    let t = trim(s);
    lowercase(t.as_str())
}

/// Whether two strings hold the same characters.
pub fn same_text(a: &str, b: &str) -> (same: bool)
    ensures
        same == (a@ == b@),
{
    let va = chars_of(a);
    let vb = chars_of(b);
    same_chars(&va, &vb)
}

/// Whether two character vectors are equal.
pub fn same_chars(a: &Vec<char>, b: &Vec<char>) -> (same: bool)
    ensures
        same == (a@ == b@),
{
    if a.len() != b.len() {
        return false;
    }
    let mut i: usize = 0;
    while i < a.len()
        invariant
            a.len() == b.len(),
            i <= a.len(),
            forall|k: int| 0 <= k < i ==> a@[k] == b@[k],
        decreases a.len() - i,
    {
        if a[i] != b[i] {
            return false;
        }
        i = i + 1;
    }
    assert(a@ =~= b@);
    true
}

/// Whether `word` occurs in `hay` starting at character `at`.
pub open spec fn occurs_at(hay: Seq<char>, word: Seq<char>, at: int) -> bool {
    0 <= at && at + word.len() <= hay.len() && hay.subrange(at, at + word.len()) == word
}

pub fn occurs_at_exec(hay: &Vec<char>, word: &Vec<char>, at: usize) -> (b: bool)
    ensures
        b == occurs_at(hay@, word@, at as int),
{
    if at > hay.len() || word.len() > hay.len() - at {
        return false;
    }
    let mut k: usize = 0;
    while k < word.len()
        invariant
            at + word.len() <= hay.len(),
            k <= word.len(),
            forall|m: int| 0 <= m < k ==> hay@[at + m] == word@[m],
        decreases word.len() - k,
    {
        if hay[at + k] != word[k] {
            assert(hay@.subrange(at as int, at + word.len())[k as int] != word@[k as int]);
            return false;
        }
        k = k + 1;
    }
    assert(hay@.subrange(at as int, at + word.len()) =~= word@);
    true
}

/// Whether `s` begins with `prefix`.
pub open spec fn has_prefix(s: Seq<char>, prefix: Seq<char>) -> bool {
    occurs_at(s, prefix, 0)
}

/// A byte that JS regex `\b` counts as part of a word: ASCII letters,
/// digits and the underscore.
pub open spec fn is_word_char(c: char) -> bool {
    ('a' <= c && c <= 'z') || ('A' <= c && c <= 'Z') || ('0' <= c && c <= '9') || c == '_'
}

pub fn is_word_byte(c: char) -> (b: bool)
    ensures
        b == is_word_char(c),
{
    ('a' <= c && c <= 'z') || ('A' <= c && c <= 'Z') || ('0' <= c && c <= '9') || c == '_'
}

/// `word` occurs at `at` with a word boundary on both sides.
pub open spec fn word_at(hay: Seq<char>, word: Seq<char>, at: int) -> bool {
    &&& occurs_at(hay, word, at)
    &&& (at == 0 || !is_word_char(hay[at - 1]))
    &&& (at + word.len() >= hay.len() || !is_word_char(hay[at + word.len()]))
}

/// `\b word \b` containment, with ASCII word semantics as JS regex `\b`
/// has them.
pub open spec fn has_word(hay: Seq<char>, word: Seq<char>) -> bool {
    exists|at: int| word_at(hay, word, at)
}

/// Whether `word` occurs in `haystack` as a whole word.
pub fn contains_word(haystack: &str, word: &str) -> (found: bool)
    ensures
        found == has_word(haystack@, word@),
{
    let hay = chars_of(haystack);
    let w = chars_of(word);
    contains_word_chars(&hay, &w)
}

pub fn contains_word_chars(hay: &Vec<char>, w: &Vec<char>) -> (found: bool)
    ensures
        found == has_word(hay@, w@),
{
    let mut at: usize = 0;
    loop
        invariant
            at <= hay.len(),
            forall|k: int| 0 <= k < at ==> !word_at(hay@, w@, k),
        ensures
            forall|k: int| 0 <= k <= hay.len() ==> !word_at(hay@, w@, k),
        decreases hay.len() - at,
    {
        if occurs_at_exec(hay, w, at) {
            let before_ok = at == 0 || !is_word_byte(hay[at - 1]);
            let end = at + w.len();
            let after_ok = end >= hay.len() || !is_word_byte(hay[end]);
            if before_ok && after_ok {
                assert(word_at(hay@, w@, at as int));
                return true;
            }
        }
        assert(!word_at(hay@, w@, at as int));
        if at == hay.len() {
            break;
        }
        at = at + 1;
    }
    assert forall|k: int| !word_at(hay@, w@, k) by {
        if k > hay@.len() {
            assert(!occurs_at(hay@, w@, k));
        }
    }
    false
}

/// The decimal digit for `d < 10`.
pub open spec fn digit_char(d: int) -> char {
    if d == 0 {
        '0'
    } else if d == 1 {
        '1'
    } else if d == 2 {
        '2'
    } else if d == 3 {
        '3'
    } else if d == 4 {
        '4'
    } else if d == 5 {
        '5'
    } else if d == 6 {
        '6'
    } else if d == 7 {
        '7'
    } else if d == 8 {
        '8'
    } else {
        '9'
    }
}

/// The decimal digits of a natural number, most significant first, with
/// no leading zeros.
pub open spec fn digits(n: nat) -> Seq<char>
    decreases n,
{
    if n < 10 {
        seq![digit_char(n as int)]
    } else {
        digits(n / 10).push(digit_char((n % 10) as int))
    }
}

/// An integer as `Display` writes it: a minus sign for negatives, then
/// its digits.
pub open spec fn decimal(n: int) -> Seq<char> {
    if n < 0 {
        seq!['-'] + digits((-n) as nat)
    } else {
        digits(n as nat)
    }
}

fn digit_of(d: u64) -> (c: char)
    requires
        d < 10,
    ensures
        c == digit_char(d as int),
{
    if d == 0 {
        '0'
    } else if d == 1 {
        '1'
    } else if d == 2 {
        '2'
    } else if d == 3 {
        '3'
    } else if d == 4 {
        '4'
    } else if d == 5 {
        '5'
    } else if d == 6 {
        '6'
    } else if d == 7 {
        '7'
    } else if d == 8 {
        '8'
    } else {
        '9'
    }
}

fn push_digits(out: &mut String, n: u64)
    ensures
        final(out)@ == old(out)@ + digits(n as nat),
    decreases n,
{
    if n >= 10 {
        push_digits(out, n / 10);
    }
    push_char(out, digit_of(n % 10));
    proof {
        if n >= 10 {
            assert(old(out)@ + digits((n / 10) as nat) + seq![digit_char((n % 10) as int)]
                =~= old(out)@ + digits(n as nat));
        } else {
            assert(old(out)@.push(digit_char((n % 10) as int)) =~= old(out)@ + digits(
                n as nat,
            ));
        }
    }
}

/// Appends the decimal form of a count.
pub fn push_count(out: &mut String, n: usize)
    ensures
        final(out)@ == old(out)@ + digits(n as nat),
{
    push_digits(out, n as u64);
}

/// Appends the decimal form of `n`.
pub fn push_decimal(out: &mut String, n: i64)
    ensures
        final(out)@ == old(out)@ + decimal(n as int),
{
    if n < 0 {
        push_char(out, '-');
        let m: u64 = (0i128 - n as i128) as u64;
        push_digits(out, m);
        assert(old(out)@.push('-') + digits(m as nat) =~= old(out)@ + decimal(n as int));
    } else {
        push_digits(out, n as u64);
    }
}

/// The decimal form of `n`, as `n.to_string()` gives it.
pub fn decimal_text(n: i64) -> (out: String)
    ensures
        out@ == decimal(n as int),
{
    let mut out = String::new();
    push_decimal(&mut out, n);
    assert(Seq::<char>::empty() + decimal(n as int) =~= decimal(n as int));
    out
}

/// Whether `c` is an ASCII decimal digit.
pub open spec fn is_digit(c: char) -> bool {
    '0' <= c && c <= '9'
}

/// The value of a run of ASCII digits.
pub open spec fn digits_value(s: Seq<char>) -> int
    decreases s.len(),
{
    if s.len() == 0 {
        0
    } else {
        digits_value(s.drop_last()) * 10 + (s.last() as int - '0' as int)
    }
}

/// Every character is a digit, and there is at least one.
pub open spec fn all_digits(s: Seq<char>) -> bool {
    s.len() > 0 && forall|i: int| 0 <= i < s.len() ==> is_digit(#[trigger] s[i])
}

/// The integer `str::parse` reads from `s` for a signed type, before the
/// range check: an optional `+` or `-`, then one or more digits.
pub open spec fn signed_value(s: Seq<char>) -> Option<int> {
    if s.len() > 0 && s[0] == '-' && all_digits(s.drop_first()) {
        Some(-digits_value(s.drop_first()))
    } else if s.len() > 0 && s[0] == '+' && all_digits(s.drop_first()) {
        Some(digits_value(s.drop_first()))
    } else if all_digits(s) {
        Some(digits_value(s))
    } else {
        None
    }
}

/// The integer `str::parse` reads from `s` for an unsigned type: an
/// optional `+`, then one or more digits.
pub open spec fn unsigned_value(s: Seq<char>) -> Option<int> {
    if s.len() > 0 && s[0] == '+' && all_digits(s.drop_first()) {
        Some(digits_value(s.drop_first()))
    } else if all_digits(s) {
        Some(digits_value(s))
    } else {
        None
    }
}

proof fn lemma_digits_value_nonneg(s: Seq<char>)
    requires
        forall|i: int| 0 <= i < s.len() ==> is_digit(#[trigger] s[i]),
    ensures
        digits_value(s) >= 0,
    decreases s.len(),
{
    if s.len() > 0 {
        assert(is_digit(s[s.len() - 1]));
        lemma_digits_value_nonneg(s.drop_last());
    }
}

/// A longer run of digits is worth at least as much as its prefix.
proof fn lemma_digits_value_grows(s: Seq<char>, i: int)
    requires
        0 <= i <= s.len(),
        forall|k: int| 0 <= k < s.len() ==> is_digit(#[trigger] s[k]),
    ensures
        digits_value(s.take(i)) <= digits_value(s),
    decreases s.len() - i,
{
    if i < s.len() {
        lemma_digits_value_grows(s, i + 1);
        assert(s.take(i + 1).drop_last() =~= s.take(i));
        assert(is_digit(s.take(i + 1).last()));
        lemma_digits_value_nonneg(s.take(i));
    } else {
        assert(s.take(i) =~= s);
    }
}

/// The value of the digits in `s[from..]`, when it is at most `limit`.
fn digits_upto(s: &Vec<char>, from: usize, limit: u64) -> (r: Option<u64>)
    requires
        from <= s.len(),
        limit >= 9,
    ensures
        ({
            let t = s@.subrange(from as int, s.len() as int);
            match r {
                Some(v) => all_digits(t) && v == digits_value(t) && v <= limit,
                None => !all_digits(t) || digits_value(t) > limit,
            }
        }),
{
    let ghost t = s@.subrange(from as int, s.len() as int);
    if from == s.len() {
        return None;
    }
    let mut acc: u64 = 0;
    let mut k: usize = from;
    while k < s.len()
        invariant
            from <= k <= s.len(),
            t == s@.subrange(from as int, s.len() as int),
            forall|m: int| 0 <= m < k - from ==> is_digit(#[trigger] t[m]),
            acc == digits_value(t.take(k - from)),
            acc <= limit,
            limit >= 9,
        decreases s.len() - k,
    {
        let c = s[k];
        if !('0' <= c && c <= '9') {
            assert(!is_digit(t[k - from]));
            return None;
        }
        let d: u64 = (c as u32 - '0' as u32) as u64;
        assert(t.take(k - from + 1).drop_last() =~= t.take(k - from));
        assert(t.take(k - from + 1).last() == c);
        if acc > (limit - d) / 10 {
            proof {
                assert(acc * 10 + d > limit) by (nonlinear_arith)
                    requires
                        acc > (limit - d) / 10,
                        d <= 9,
                        limit >= 9,
                ;
                if all_digits(t) {
                    lemma_digits_value_grows(t, k - from + 1);
                }
            }
            return None;
        }
        proof {
            assert(acc * 10 + d <= limit) by (nonlinear_arith)
                requires
                    acc <= (limit - d) / 10,
                    d <= 9,
                    limit >= 9,
            ;
        }
        acc = acc * 10 + d;
        k = k + 1;
    }
    assert(t.take(k - from) =~= t);
    Some(acc)
}

/// `s.parse::<i64>()`, as `Some` value or `None` for an error.
pub fn parse_i64(s: &str) -> (r: Option<i64>)
    ensures
        r == (match signed_value(s@) {
            Some(v) => if i64::MIN <= v <= i64::MAX {
                Some(v as i64)
            } else {
                None::<i64>
            },
            None => None,
        }),
{
    let v = chars_of(s);
    if v.len() > 0 && v[0] == '-' {
        assert(v@.subrange(1, v@.len() as int) =~= v@.drop_first());
        assert(!all_digits(v@)) by {
            assert(!is_digit(v@[0]));
        }
        match digits_upto(&v, 1, 9223372036854775808u64) {
            Some(m) => {
                let r: i128 = 0i128 - m as i128;
                Some(r as i64)
            },
            None => None,
        }
    } else if v.len() > 0 && v[0] == '+' {
        assert(v@.subrange(1, v@.len() as int) =~= v@.drop_first());
        assert(!all_digits(v@)) by {
            assert(!is_digit(v@[0]));
        }
        match digits_upto(&v, 1, 9223372036854775807u64) {
            Some(m) => Some(m as i64),
            None => None,
        }
    } else {
        assert(v@.subrange(0, v@.len() as int) =~= v@);
        match digits_upto(&v, 0, 9223372036854775807u64) {
            Some(m) => Some(m as i64),
            None => None,
        }
    }
}

/// `s.parse::<u32>()`, as `Some` value or `None` for an error.
pub fn parse_u32(s: &str) -> (r: Option<u32>)
    ensures
        r == (match unsigned_value(s@) {
            Some(v) => if v <= u32::MAX {
                Some(v as u32)
            } else {
                None::<u32>
            },
            None => None,
        }),
{
    let v = chars_of(s);
    parse_u32_chars(&v)
}

/// The characters `v` read as a `u32` the way `str::parse` reads them.
pub fn parse_u32_chars(v: &Vec<char>) -> (r: Option<u32>)
    ensures
        r == (match unsigned_value(v@) {
            Some(n) => if n <= u32::MAX {
                Some(n as u32)
            } else {
                None::<u32>
            },
            None => None,
        }),
{
    if v.len() > 0 && v[0] == '+' {
        assert(v@.subrange(1, v@.len() as int) =~= v@.drop_first());
        assert(!all_digits(v@)) by {
            assert(!is_digit(v@[0]));
        }
        match digits_upto(v, 1, 4294967295u64) {
            Some(m) => Some(m as u32),
            None => None,
        }
    } else {
        assert(v@.subrange(0, v@.len() as int) =~= v@);
        match digits_upto(v, 0, 4294967295u64) {
            Some(m) => Some(m as u32),
            None => None,
        }
    }
}

} // verus!
