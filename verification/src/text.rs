//! Character-level helpers shared by the other modules.
//!
//! A text is modelled as the sequence of its characters, `Seq<char>`, which is
//! the view of `str` and `String`. Searching is stated by two recursive
//! functions that scan from the left, so that "first" needs no quantifier.

use vstd::prelude::*;
use vstd::slice::slice_subrange;
use vstd::std_specs::iter::IteratorSpec;

verus! {

/// `pat` stands in `hay` at position `at`.
pub open spec fn occurs_at(hay: Seq<char>, pat: Seq<char>, at: int) -> bool {
    &&& 0 <= at
    &&& at + pat.len() <= hay.len()
    &&& hay.subrange(at, at + pat.len()) == pat
}

/// The first position at or after `from` where `hay` holds `c`.
pub open spec fn first_char_from(hay: Seq<char>, c: char, from: int) -> Option<int>
    decreases hay.len() - from,
{
    if from < 0 || from >= hay.len() {
        None
    } else if hay[from] == c {
        Some(from)
    } else {
        first_char_from(hay, c, from + 1)
    }
}

/// The first position at or after `from` where `pat` stands in `hay`.
pub open spec fn first_occurrence_from(hay: Seq<char>, pat: Seq<char>, from: int) -> Option<int>
    decreases hay.len() + 1 - from,
{
    if from < 0 || from + pat.len() > hay.len() {
        None
    } else if occurs_at(hay, pat, from) {
        Some(from)
    } else {
        first_occurrence_from(hay, pat, from + 1)
    }
}

/// `pat` stands somewhere in `hay`.
pub open spec fn contains_text(hay: Seq<char>, pat: Seq<char>) -> bool {
    exists|at: int| occurs_at(hay, pat, at)
}

/// What `first_char_from` returns is the least position with `c`, if there is one.
pub proof fn lemma_first_char_from(hay: Seq<char>, c: char, from: int)
    requires
        0 <= from,
    ensures
        match first_char_from(hay, c, from) {
            Some(at) => {
                &&& from <= at < hay.len()
                &&& hay[at] == c
                &&& forall|j: int| from <= j < at ==> hay[j] != c
            },
            None => forall|j: int| from <= j < hay.len() ==> hay[j] != c,
        },
    decreases hay.len() - from,
{
    if from < hay.len() && hay[from] != c {
        lemma_first_char_from(hay, c, from + 1);
    }
}

/// What `first_occurrence_from` returns is the least position where `pat`
/// stands, if there is one.
pub proof fn lemma_first_occurrence_from(hay: Seq<char>, pat: Seq<char>, from: int)
    requires
        0 <= from,
    ensures
        match first_occurrence_from(hay, pat, from) {
            Some(at) => {
                &&& from <= at
                &&& occurs_at(hay, pat, at)
                &&& forall|j: int| from <= j < at ==> !occurs_at(hay, pat, j)
            },
            None => forall|j: int| from <= j ==> !occurs_at(hay, pat, j),
        },
    decreases hay.len() + 1 - from,
{
    if from + pat.len() <= hay.len() && !occurs_at(hay, pat, from) {
        lemma_first_occurrence_from(hay, pat, from + 1);
    }
}

/// A search from the start finds something exactly when `pat` stands somewhere.
pub proof fn lemma_first_occurrence_contains(hay: Seq<char>, pat: Seq<char>)
    ensures
        first_occurrence_from(hay, pat, 0) is Some <==> contains_text(hay, pat),
{
    lemma_first_occurrence_from(hay, pat, 0);
}

/// The characters of `s`, in order.
pub fn chars_of(s: &str) -> (out: Vec<char>)
    ensures
        out@ == s@,
{
    let mut out: Vec<char> = Vec::new();
    let chars = s.chars();
    for c in it: chars
        invariant
            out@ == it.seq().take(it.index()),
    {
        out.push(c);
    }
    out
}

/// Tells whether `pat` stands in `hay` at position `at`.
pub fn matches_at(hay: &[char], pat: &[char], at: usize) -> (found: bool)
    ensures
        found == occurs_at(hay@, pat@, at as int),
{
    if pat.len() > hay.len() || at > hay.len() - pat.len() {
        return false;
    }
    let mut k: usize = 0;
    while k < pat.len()
        invariant
            k <= pat.len(),
            at + pat.len() <= hay.len(),
            forall|j: int| 0 <= j < k ==> hay@[at + j] == pat@[j],
        decreases pat.len() - k,
    {
        if hay[at + k] != pat[k] {
            assert(hay@.subrange(at as int, at + pat.len())[k as int] != pat@[k as int]);
            return false;
        }
        k += 1;
    }
    assert(hay@.subrange(at as int, at + pat.len()) =~= pat@);
    true
}

/// Tells whether `hay` begins with `pat`.
pub fn begins_with(hay: &[char], pat: &[char]) -> (found: bool)
    ensures
        found == pat@.is_prefix_of(hay@),
{
    matches_at(hay, pat, 0)
}

/// The first position at or after `from` where `hay` holds `c`.
pub fn find_char(hay: &[char], c: char, from: usize) -> (found: Option<usize>)
    ensures
        match found {
            Some(at) => first_char_from(hay@, c, from as int) == Some(at as int),
            None => first_char_from(hay@, c, from as int) is None,
        },
{
    let mut i: usize = from;
    while i < hay.len()
        invariant
            from <= i,
            first_char_from(hay@, c, from as int) == first_char_from(hay@, c, i as int),
        decreases hay.len() - i,
    {
        if hay[i] == c {
            return Some(i);
        }
        i += 1;
    }
    None
}

/// The first position at or after `from` where `pat` stands in `hay`.
pub fn find_text(hay: &[char], pat: &[char], from: usize) -> (found: Option<usize>)
    ensures
        match found {
            Some(at) => first_occurrence_from(hay@, pat@, from as int) == Some(at as int),
            None => first_occurrence_from(hay@, pat@, from as int) is None,
        },
{
    if from > hay.len() {
        return None;
    }
    let mut i: usize = from;
    while hay.len() - i >= pat.len()
        invariant
            from <= i <= hay.len(),
            first_occurrence_from(hay@, pat@, from as int) == first_occurrence_from(
                hay@,
                pat@,
                i as int,
            ),
        decreases hay.len() - i,
    {
        if matches_at(hay, pat, i) {
            return Some(i);
        }
        assert(i < hay.len()) by {
            if i == hay.len() {
                assert(hay@.subrange(i as int, i as int) =~= pat@);
            }
        }
        i += 1;
    }
    None
}

/// A line without the carriage return that stood before its line feed.
pub open spec fn without_cr(line: Seq<char>) -> Seq<char> {
    if line.len() > 0 && line.last() == '\r' {
        line.drop_last()
    } else {
        line
    }
}

/// The lines of `text` from position `from` on. A line ends at a line feed,
/// or at a carriage return followed by one; neither belongs to the line. The
/// last line may lack its line feed, and then keeps a carriage return at its
/// end.
pub open spec fn lines_from(text: Seq<char>, from: int) -> Seq<Seq<char>>
    decreases text.len() - from,
    via lines_from_decreases
{
    if from < 0 || from >= text.len() {
        seq![]
    } else {
        match first_char_from(text, '\n', from) {
            Some(at) => seq![without_cr(text.subrange(from, at))] + lines_from(text, at + 1),
            None => seq![text.skip(from)],
        }
    }
}

#[via_fn]
proof fn lines_from_decreases(text: Seq<char>, from: int) {
    if 0 <= from < text.len() {
        lemma_first_char_from(text, '\n', from);
    }
}

/// The lines of `text`.
pub open spec fn lines_of(text: Seq<char>) -> Seq<Seq<char>> {
    lines_from(text, 0)
}

/// The texts of a list of slices.
pub open spec fn texts_of(slices: Seq<&[char]>) -> Seq<Seq<char>> {
    Seq::new(slices.len(), |i: int| slices[i]@)
}

/// The lines of `text`, each a part of `text`.
pub fn split_lines<'a>(text: &'a [char]) -> (lines: Vec<&'a [char]>)
    ensures
        texts_of(lines@) == lines_of(text@),
{
    let total = text.len();
    let mut lines: Vec<&'a [char]> = Vec::new();
    let mut from: usize = 0;
    assert(texts_of(lines@) + lines_from(text@, 0) =~= lines_of(text@));
    while from < total
        invariant
            total == text@.len(),
            from <= total,
            texts_of(lines@) + lines_from(text@, from as int) == lines_of(text@),
        decreases total - from,
    {
        let ghost before = texts_of(lines@);
        match find_char(text, '\n', from) {
            Some(at) => {
                proof {
                    lemma_first_char_from(text@, '\n', from as int);
                }
                let end = if at > from && text[at - 1] == '\r' {
                    at - 1
                } else {
                    at
                };
                let line = slice_subrange(text, from, end);
                assert(line@ =~= without_cr(text@.subrange(from as int, at as int)));
                lines.push(line);
                assert(texts_of(lines@) =~= before.push(line@));
                assert(before.push(line@) + lines_from(text@, at + 1) =~= before + lines_from(
                    text@,
                    from as int,
                ));
                from = at + 1;
            },
            None => {
                let line = slice_subrange(text, from, total);
                assert(line@ =~= text@.skip(from as int));
                lines.push(line);
                assert(texts_of(lines@) =~= before.push(line@));
                assert(before.push(line@) + lines_from(text@, total as int) =~= before
                    + lines_from(text@, from as int));
                from = total;
            },
        }
    }
    assert(texts_of(lines@) + lines_from(text@, from as int) =~= texts_of(lines@));
    lines
}

/// Calls `String::push`, which appends one character to the string.
#[verifier::external_body]
pub(crate) fn push_char(s: &mut String, c: char)
    ensures
        final(s)@ == old(s)@.push(c),
{
    s.push(c)
}

/// The string made of the characters of `chars`.
pub fn string_of(chars: &[char]) -> (s: String)
    ensures
        s@ == chars@,
{
    let mut s = String::new();
    let mut i: usize = 0;
    while i < chars.len()
        invariant
            i <= chars.len(),
            s@ == chars@.take(i as int),
        decreases chars.len() - i,
    {
        push_char(&mut s, chars[i]);
        assert(chars@.take(i as int).push(chars@[i as int]) =~= chars@.take(i + 1));
        i += 1;
    }
    assert(chars@.take(chars@.len() as int) =~= chars@);
    s
}

/// A character that Unicode lists as white space (`White_Space`).
pub open spec fn unicode_space(c: char) -> bool {
    ||| '\u{9}' <= c <= '\u{D}'
    ||| c == ' '
    ||| c == '\u{85}'
    ||| c == '\u{A0}'
    ||| c == '\u{1680}'
    ||| '\u{2000}' <= c <= '\u{200A}'
    ||| c == '\u{2028}'
    ||| c == '\u{2029}'
    ||| c == '\u{202F}'
    ||| c == '\u{205F}'
    ||| c == '\u{3000}'
}

/// A line that holds nothing but white space, or nothing at all.
pub open spec fn blank(line: Seq<char>) -> bool {
    forall|i: int| 0 <= i < line.len() ==> unicode_space(#[trigger] line[i])
}

/// Tells whether Unicode lists `c` as white space.
pub fn is_unicode_space(c: char) -> (yes: bool)
    ensures
        yes == unicode_space(c),
{
    ('\u{9}' <= c && c <= '\u{D}') || c == ' ' || c == '\u{85}' || c == '\u{A0}' || c
        == '\u{1680}' || ('\u{2000}' <= c && c <= '\u{200A}') || c == '\u{2028}' || c
        == '\u{2029}' || c == '\u{202F}' || c == '\u{205F}' || c == '\u{3000}'
}

/// Tells whether `line` holds nothing but white space.
pub fn is_blank(line: &[char]) -> (yes: bool)
    ensures
        yes == blank(line@),
{
    let mut i: usize = 0;
    while i < line.len()
        invariant
            i <= line.len(),
            forall|j: int| 0 <= j < i ==> unicode_space(#[trigger] line@[j]),
        decreases line.len() - i,
    {
        if !is_unicode_space(line[i]) {
            return false;
        }
        i += 1;
    }
    true
}

} // verus!
