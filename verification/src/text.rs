//! Text as sequences of characters: conversion from and to strings, search,
//! splitting into lines, and trimming.

use vstd::prelude::*;
use vstd::slice::slice_subrange;
use vstd::slice::slice_to_vec;

verus! {

/// `String::push` appends one character to the end of the string.
pub assume_specification[ String::push ](s: &mut String, c: char)
    ensures
        final(s)@ == old(s)@.push(c),
;

/// The characters of `s`, in order.
pub fn chars_of(s: &str) -> (chars: Vec<char>)
    ensures
        chars@ == s@,
{
    let mut chars: Vec<char> = Vec::new();
    for c in it: s.chars()
        invariant
            it.seq() == s@,
            chars@ == it.seq().take(it.index() as int),
    {
        chars.push(c);
    }
    chars
}

/// The string made of `chars`, in order.
pub fn string_of(chars: &[char]) -> (s: String)
    ensures
        s@ == chars@,
{
    let mut s = String::new();
    let mut i: usize = 0;
    while i < chars.len()
        invariant
            i <= chars.len(),
            s@ == chars@.take(i as int),
        decreases chars.len() - i,
    {
        s.push(chars[i]);
        i += 1;
    }
    s
}

/// Appends the characters of `piece` to `out`.
pub fn push_str(out: &mut Vec<char>, piece: &str)
    ensures
        final(out)@ == old(out)@ + piece@,
{
    let ghost before = out@;
    for c in it: piece.chars()
        invariant
            it.seq() == piece@,
            out@ == before + it.seq().take(it.index() as int),
    {
        out.push(c);
    }
}

/// Appends `piece` to `out`.
pub fn push_all(out: &mut Vec<char>, piece: &[char])
    ensures
        final(out)@ == old(out)@ + piece@,
{
    let ghost before = out@;
    let mut i: usize = 0;
    while i < piece.len()
        invariant
            i <= piece.len(),
            out@ == before + piece@.take(i as int),
        decreases piece.len() - i,
    {
        out.push(piece[i]);
        i += 1;
    }
}

/// The index of the first `c` in `s`, or the length of `s` where there is none.
pub open spec fn position(s: Seq<char>, c: char) -> int
    decreases s.len(),
{
    if s.len() == 0 || s[0] == c {
        0
    } else {
        1 + position(s.drop_first(), c)
    }
}

/// `position` lies within the sequence, nothing before it is `c`, and where
/// it is an index, `c` stands there.
pub proof fn lemma_position(s: Seq<char>, c: char)
    ensures
        0 <= position(s, c) <= s.len(),
        forall|j: int| 0 <= j < position(s, c) ==> s[j] != c,
        position(s, c) < s.len() ==> s[position(s, c)] == c,
    decreases s.len(),
{
    if s.len() == 0 || s[0] == c {
    } else {
        let rest = s.drop_first();
        lemma_position(rest, c);
        assert forall|j: int| 0 <= j < position(s, c) implies s[j] != c by {
            if j > 0 {
                assert(rest[j - 1] == s[j]);
            }
        }
    }
}

/// An index with no `c` before it, which holds `c` or is the length, is `position`.
pub proof fn lemma_position_is(s: Seq<char>, c: char, i: int)
    requires
        0 <= i <= s.len(),
        forall|j: int| 0 <= j < i ==> s[j] != c,
        i < s.len() ==> s[i] == c,
    ensures
        position(s, c) == i,
    decreases s.len(),
{
    if s.len() == 0 || s[0] == c {
    } else {
        let rest = s.drop_first();
        assert forall|j: int| 0 <= j < i - 1 implies rest[j] != c by {
            assert(rest[j] == s[j + 1]);
        }
        lemma_position_is(rest, c, i - 1);
    }
}

/// Finds the first `c` in `s`.
pub fn find_char(s: &[char], c: char) -> (i: usize)
    ensures
        i == position(s@, c),
{
    let mut i: usize = 0;
    while i < s.len() && s[i] != c
        invariant
            i <= s.len(),
            forall|j: int| 0 <= j < i ==> s@[j] != c,
        decreases s.len() - i,
    {
        i += 1;
    }
    proof {
        lemma_position_is(s@, c, i as int);
    }
    i
}

/// `line` without the carriage return at its end, if it has one.
pub open spec fn without_cr(line: Seq<char>) -> Seq<char> {
    if line.len() > 0 && line.last() == '\r' {
        line.drop_last()
    } else {
        line
    }
}

/// The lines of `text`. A line ends at a line feed, or at a carriage return
/// followed at once by a line feed; neither belongs to the line. What stands
/// behind the last line feed is a line of its own unless it is empty.
pub open spec fn lines(text: Seq<char>) -> Seq<Seq<char>>
    decreases text.len(),
{
    let p = position(text, '\n');
    if text.len() == 0 {
        Seq::empty()
    } else if 0 <= p < text.len() {
        seq![without_cr(text.take(p))] + lines(text.skip(p + 1))
    } else {
        seq![text]
    }
}

/// Splits `text` into its lines.
pub fn split_lines(text: &[char]) -> (result: Vec<Vec<char>>)
    ensures
        result.deep_view() == lines(text@),
{
    let mut result: Vec<Vec<char>> = Vec::new();
    let mut start: usize = 0;
    assert(text@.skip(0) == text@);
    assert(result.deep_view() =~= Seq::<Seq<char>>::empty());
    while start < text.len()
        invariant
            start <= text.len(),
            lines(text@) == result.deep_view() + lines(text@.skip(start as int)),
        decreases text.len() - start,
    {
        let rest = slice_subrange(text, start, text.len());
        let p = find_char(rest, '\n');
        let ghost before = result.deep_view();
        proof {
            lemma_position(rest@, '\n');
            assert(rest@ == text@.skip(start as int));
        }
        if p < rest.len() {
            let end = if p > 0 && rest[p - 1] == '\r' {
                p - 1
            } else {
                p
            };
            let line = slice_to_vec(slice_subrange(rest, 0, end));
            proof {
                assert(line@ == without_cr(rest@.take(p as int)));
                assert(rest@.skip(p + 1) == text@.skip(start + p + 1));
            }
            result.push(line);
            assert(result.deep_view() =~~= before + seq![line@]);
            start = start + p + 1;
        } else {
            let line = slice_to_vec(rest);
            result.push(line);
            assert(result.deep_view() =~~= before + seq![line@]);
            start = text.len();
            assert(lines(text@.skip(start as int)) == Seq::<Seq<char>>::empty());
        }
    }
    assert(lines(text@.skip(start as int)) == Seq::<Seq<char>>::empty());
    result
}

/// Whether `c` is white space as Unicode defines it.
pub open spec fn is_blank(c: char) -> bool {
    ||| '\u{9}' <= c <= '\u{d}'
    ||| c == ' '
    ||| c == '\u{85}'
    ||| c == '\u{a0}'
    ||| c == '\u{1680}'
    ||| '\u{2000}' <= c <= '\u{200a}'
    ||| c == '\u{2028}'
    ||| c == '\u{2029}'
    ||| c == '\u{202f}'
    ||| c == '\u{205f}'
    ||| c == '\u{3000}'
}

/// Tests whether `c` is white space.
pub fn blank(c: char) -> (b: bool)
    ensures
        b == is_blank(c),
{
    ('\u{9}' <= c && c <= '\u{d}') || c == ' ' || c == '\u{85}' || c == '\u{a0}' || c
        == '\u{1680}' || ('\u{2000}' <= c && c <= '\u{200a}') || c == '\u{2028}' || c
        == '\u{2029}' || c == '\u{202f}' || c == '\u{205f}' || c == '\u{3000}'
}

/// `s` without the white space at its start.
pub open spec fn trim_start(s: Seq<char>) -> Seq<char>
    decreases s.len(),
{
    if s.len() > 0 && is_blank(s[0]) {
        trim_start(s.drop_first())
    } else {
        s
    }
}

/// `s` without the white space at its end.
pub open spec fn trim_end(s: Seq<char>) -> Seq<char>
    decreases s.len(),
{
    if s.len() > 0 && is_blank(s.last()) {
        trim_end(s.drop_last())
    } else {
        s
    }
}

/// `s` without the white space at either end.
pub open spec fn trimmed(s: Seq<char>) -> Seq<char> {
    trim_end(trim_start(s))
}

/// Removes the white space at both ends of `s`.
pub fn trim(s: &[char]) -> (t: &[char])
    ensures
        t@ == trimmed(s@),
{
    let mut from: usize = 0;
    assert(s@.skip(0) == s@);
    while from < s.len() && blank(s[from])
        invariant
            from <= s.len(),
            trim_start(s@) == trim_start(s@.skip(from as int)),
        decreases s.len() - from,
    {
        assert(s@.skip(from as int).drop_first() == s@.skip(from + 1));
        from += 1;
    }
    let mut to: usize = s.len();
    while to > from && blank(s[to - 1])
        invariant
            from <= to <= s.len(),
            trim_end(s@.skip(from as int)) == trim_end(s@.subrange(from as int, to as int)),
        decreases to,
    {
        assert(s@.subrange(from as int, to as int).drop_last() == s@.subrange(
            from as int,
            to - 1,
        ));
        to -= 1;
    }
    assert(s@.skip(from as int) == s@.subrange(from as int, s@.len() as int));
    slice_subrange(s, from, to)
}

/// What stands in `s` behind the first occurrence of `needle`, if there is one.
pub open spec fn after_first(s: Seq<char>, needle: Seq<char>) -> Option<Seq<char>>
    decreases s.len(),
{
    if needle.is_prefix_of(s) {
        Some(s.skip(needle.len() as int))
    } else if s.len() == 0 {
        None
    } else {
        after_first(s.drop_first(), needle)
    }
}

/// Whether `needle` stands in `s` at index `at`.
fn starts_at(s: &[char], at: usize, needle: &[char]) -> (b: bool)
    requires
        at <= s.len(),
    ensures
        b == needle@.is_prefix_of(s@.skip(at as int)),
{
    if needle.len() > s.len() - at {
        return false;
    }
    let mut k: usize = 0;
    while k < needle.len()
        invariant
            k <= needle.len(),
            at + needle.len() <= s.len(),
            forall|j: int| 0 <= j < k ==> needle@[j] == s@[at + j],
        decreases needle.len() - k,
    {
        if needle[k] != s[at + k] {
            assert(s@.skip(at as int)[k as int] != needle@[k as int]);
            return false;
        }
        k += 1;
    }
    assert(needle@ =~= s@.skip(at as int).subrange(0, needle@.len() as int));
    true
}

/// Finds the first occurrence of `needle` in `s` and returns what follows it.
pub fn find_after<'a>(s: &'a [char], needle: &[char]) -> (rest: Option<&'a [char]>)
    ensures
        match rest {
            Some(r) => after_first(s@, needle@) == Some(r@),
            None => after_first(s@, needle@).is_none(),
        },
{
    let mut at: usize = 0;
    assert(s@.skip(0) == s@);
    loop
        invariant
            at <= s.len(),
            after_first(s@, needle@) == after_first(s@.skip(at as int), needle@),
        decreases s.len() - at,
    {
        if starts_at(s, at, needle) {
            let r = slice_subrange(s, at + needle.len(), s.len());
            assert(r@ == s@.skip(at as int).skip(needle@.len() as int));
            return Some(r);
        }
        if at == s.len() {
            return None;
        }
        assert(s@.skip(at as int).drop_first() == s@.skip(at + 1));
        at += 1;
    }
}

} // verus!
