//! The names of the files that a run writes, and the text of the list that
//! the joining step reads.

use vstd::prelude::*;
use crate::decimal::{
    all_digits, decimal_micros, digits_of, digits_value, fraction_part, fraction_value,
    is_decimal, is_digit, lemma_digits_of_are_digits, lemma_digits_value_of,
    lemma_fraction_value_of_six, lemma_fraction_value_push_zero, lemma_zero_padded, push_number,
    push_padded, seconds_value, whole_part, zero_padded,
};
use crate::text::{lemma_position_is, position};
use crate::text::{chars_of, push_all, push_str, string_of};

verus! {

/// `s` without the zeros at its end.
pub open spec fn without_trailing_zeros(s: Seq<char>) -> Seq<char>
    decreases s.len(),
{
    if s.len() > 0 && s.last() == '0' {
        without_trailing_zeros(s.drop_last())
    } else {
        s
    }
}

/// A time in microseconds written as seconds: the whole seconds, and where
/// the time is no whole number of seconds, a point and the decimal places
/// up to the last that is not zero.
pub open spec fn seconds_text(micros: nat) -> Seq<char> {
    if micros % 1_000_000 == 0 {
        digits_of(micros / 1_000_000)
    } else {
        digits_of(micros / 1_000_000) + seq!['.'] + without_trailing_zeros(
            zero_padded(micros % 1_000_000, 6),
        )
    }
}

/// Stripping the zeros at the end of a fraction leaves digits, and does not
/// change what the fraction is worth.
pub proof fn lemma_without_trailing_zeros(s: Seq<char>, unit: nat)
    requires
        all_digits(s),
    ensures
        all_digits(without_trailing_zeros(s)),
        fraction_value(without_trailing_zeros(s), unit) == fraction_value(s, unit),
    decreases s.len(),
{
    if s.len() > 0 && s.last() == '0' {
        let shorter = s.drop_last();
        assert forall|i: int| 0 <= i < shorter.len() implies is_digit(#[trigger] shorter[i]) by {
            assert(shorter[i] == s[i]);
        }
        lemma_without_trailing_zeros(shorter, unit);
        assert(shorter.push('0') == s);
        lemma_fraction_value_push_zero(shorter, unit);
    }
}

/// A time written as seconds holds digits and at most one point, and reads
/// back as the time.
pub proof fn lemma_seconds_text_reads_back(micros: u64)
    ensures
        forall|i: int|
            0 <= i < seconds_text(micros as nat).len() ==> {
                let c = #[trigger] seconds_text(micros as nat)[i];
                is_digit(c) || c == '.'
            },
        seconds_value(seconds_text(micros as nat)) == Some(micros),
{
    let whole = (micros / 1_000_000) as nat;
    let part = (micros % 1_000_000) as nat;
    let text = seconds_text(micros as nat);
    let front = digits_of(whole);
    lemma_digits_of_are_digits(whole);
    lemma_digits_value_of(whole);
    if part == 0 {
        assert(text == front);
        lemma_position_is(text, '.', text.len() as int);
        assert(whole_part(text) == text);
        assert(fraction_part(text) == Seq::<char>::empty());
        assert(fraction_value(fraction_part(text), 1_000_000) == 0);
    } else {
        let padded = zero_padded(part, 6);
        let places = without_trailing_zeros(padded);
        lemma_digits_of_are_digits(part);
        lemma_zero_padded(part, 6);
        lemma_fraction_value_of_six(padded);
        lemma_without_trailing_zeros(padded, 1_000_000);
        assert(text == front + seq!['.'] + places);
        assert forall|j: int| 0 <= j < front.len() implies text[j] != '.' by {
            assert(text[j] == front[j]);
            assert(is_digit(front[j]));
        }
        assert(text[front.len() as int] == '.');
        lemma_position_is(text, '.', front.len() as int);
        assert(whole_part(text) == front);
        assert(fraction_part(text) == places);
        assert forall|i: int| 0 <= i < text.len() implies {
            let c = #[trigger] text[i];
            is_digit(c) || c == '.'
        } by {
            if i < front.len() {
                assert(text[i] == front[i]);
            } else if i > front.len() {
                assert(text[i] == places[i - front.len() - 1]);
            }
        }
        assert(decimal_micros(text) == whole * 1_000_000 + part);
    }
    assert(is_decimal(text));
    assert(decimal_micros(text) == micros);
}

/// Appends to `out` the time `micros` written as seconds.
pub fn push_seconds(out: &mut Vec<char>, micros: u64)
    ensures
        final(out)@ == old(out)@ + seconds_text(micros as nat),
{
    let ghost before = out@;
    push_number(out, micros / 1_000_000);
    let part = micros % 1_000_000;
    if part != 0 {
        out.push('.');
        let mut places: Vec<char> = Vec::new();
        push_padded(&mut places, part, 6);
        let mut n: usize = places.len();
        assert(places@.take(n as int) == places@);
        while n > 0 && places[n - 1] == '0'
            invariant
                n <= places.len(),
                without_trailing_zeros(places@) == without_trailing_zeros(places@.take(n as int)),
            decreases n,
        {
            assert(places@.take(n as int).drop_last() == places@.take(n - 1));
            n -= 1;
        }
        places.truncate(n);
        assert(places@ == without_trailing_zeros(zero_padded(part as nat, 6)));
        push_all(out, places.as_slice());
        assert(out@ =~= before + seconds_text(micros as nat));
    }
}

/// A signed number written in base ten, with a minus sign where it is negative.
pub open spec fn int_text(n: int) -> Seq<char> {
    if n < 0 {
        seq!['-'] + digits_of((-n) as nat)
    } else {
        digits_of(n as nat)
    }
}

/// Appends to `out` the number `n` in base ten.
pub fn push_int(out: &mut Vec<char>, n: i32)
    ensures
        final(out)@ == old(out)@ + int_text(n as int),
{
    let ghost before = out@;
    if n < 0 {
        out.push('-');
        let size: u64 = (-(n as i64)) as u64;
        push_number(out, size);
        assert(out@ =~= before + int_text(n as int));
    } else {
        push_number(out, n as u64);
    }
}

/// `s` without its spaces.
pub open spec fn without_spaces(s: Seq<char>) -> Seq<char>
    decreases s.len(),
{
    if s.len() == 0 {
        Seq::empty()
    } else if s.last() == ' ' {
        without_spaces(s.drop_last())
    } else {
        without_spaces(s.drop_last()).push(s.last())
    }
}

/// The base of the names of the files that are written: the stem of the
/// recording's file name without its spaces.
pub fn base_name(stem: &str) -> (base: String)
    ensures
        base@ == without_spaces(stem@),
{
    let chars = chars_of(stem);
    let mut out: Vec<char> = Vec::new();
    let mut i: usize = 0;
    while i < chars.len()
        invariant
            i <= chars.len(),
            out@ == without_spaces(chars@.take(i as int)),
        decreases chars.len() - i,
    {
        assert(chars@.take(i + 1).drop_last() == chars@.take(i as int));
        if chars[i] != ' ' {
            out.push(chars[i]);
        }
        i += 1;
    }
    assert(chars@.take(i as int) == chars@);
    string_of(out.as_slice())
}

/// The extension that is used where the recording's file name has none.
pub const DEFAULT_EXTENSION: &'static str = "mp3";

/// The extension of the files that are written: the recording's own, as it
/// is spelt there, and `mp3` where its file name has none.
pub open spec fn chosen_extension(extension: Option<Seq<char>>) -> Seq<char> {
    match extension {
        Some(own) => own,
        None => DEFAULT_EXTENSION@,
    }
}

/// Chooses the extension of the files that are written.
pub fn media_extension(extension: Option<&str>) -> (chosen: String)
    ensures
        chosen@ == chosen_extension(
            match extension {
                Some(own) => Some(own@),
                None => None,
            },
        ),
{
    match extension {
        Some(own) => own.to_owned(),
        None => DEFAULT_EXTENSION.to_owned(),
    }
}

/// The path of the file `name` in the directory `dir`: the two joined by a
/// slash, which is left out where `dir` is empty or ends in one.
pub open spec fn joined(dir: Seq<char>, name: Seq<char>) -> Seq<char> {
    if dir.len() == 0 || dir.last() == '/' {
        dir + name
    } else {
        dir + seq!['/'] + name
    }
}

/// Appends to `out` the path of the file `name` in the directory `dir`.
fn push_joined(out: &mut Vec<char>, dir: &str, name: &[char])
    ensures
        final(out)@ == old(out)@ + joined(dir@, name@),
{
    let ghost before = out@;
    let d = chars_of(dir);
    push_all(out, d.as_slice());
    if d.len() > 0 && d[d.len() - 1] != '/' {
        out.push('/');
    }
    push_all(out, name);
    assert(out@ =~= before + joined(dir@, name@));
}

/// The name of the file that holds one kept stretch: the base, the start
/// and the end in seconds, joined by underscores, and the extension.
pub open spec fn segment_name(base: Seq<char>, start: u64, end: u64, extension: Seq<char>) -> Seq<
    char,
> {
    base + seq!['_'] + seconds_text(start as nat) + seq!['_'] + seconds_text(end as nat) + seq![
        '.',
    ] + extension
}

/// What follows a common front is the same where the wholes are.
proof fn lemma_same_front(front: Seq<char>, x: Seq<char>, y: Seq<char>)
    requires
        front + x == front + y,
    ensures
        x == y,
{
    assert(x == (front + x).skip(front.len() as int));
    assert(y == (front + y).skip(front.len() as int));
}

/// What stands before a common end is the same where the wholes are.
proof fn lemma_same_end(x: Seq<char>, y: Seq<char>, end: Seq<char>)
    requires
        x + end == y + end,
    ensures
        x == y,
{
    assert(x.len() == (x + end).len() - end.len());
    assert(y.len() == (y + end).len() - end.len());
    assert(x == (x + end).take(x.len() as int));
    assert(y == (y + end).take(y.len() as int));
}

/// Two texts without `mark`, each followed by `mark` and more, are the same
/// and are followed by the same where the wholes are the same.
proof fn lemma_same_up_to_mark(a: Seq<char>, x: Seq<char>, b: Seq<char>, y: Seq<char>, mark: char)
    requires
        forall|i: int| 0 <= i < a.len() ==> a[i] != mark,
        forall|i: int| 0 <= i < b.len() ==> b[i] != mark,
        a + seq![mark] + x == b + seq![mark] + y,
    ensures
        a == b,
        x == y,
{
    let whole = a + seq![mark] + x;
    let other = b + seq![mark] + y;
    assert forall|j: int| 0 <= j < a.len() implies whole[j] != mark by {
        assert(whole[j] == a[j]);
    }
    assert forall|j: int| 0 <= j < b.len() implies other[j] != mark by {
        assert(other[j] == b[j]);
    }
    assert(whole[a.len() as int] == mark);
    assert(other[b.len() as int] == mark);
    lemma_position_is(whole, mark, a.len() as int);
    lemma_position_is(other, mark, b.len() as int);
    assert(a == whole.take(a.len() as int));
    assert(b == other.take(b.len() as int));
    assert(x == whole.skip(a.len() as int + 1));
    assert(y == other.skip(b.len() as int + 1));
}

/// Two stretches share the path of their file only where they are the same
/// stretch: in one directory, with one base and one extension, the path
/// tells the start and the end.
pub proof fn lemma_segment_paths_are_unique(
    dir: Seq<char>,
    base: Seq<char>,
    extension: Seq<char>,
    start1: u64,
    end1: u64,
    start2: u64,
    end2: u64,
)
    requires
        joined(dir, segment_name(base, start1, end1, extension)) == joined(
            dir,
            segment_name(base, start2, end2, extension),
        ),
    ensures
        start1 == start2,
        end1 == end2,
{
    let a1 = seconds_text(start1 as nat);
    let a2 = seconds_text(start2 as nat);
    let b1 = seconds_text(end1 as nat);
    let b2 = seconds_text(end2 as nat);
    let end = seq!['.'] + extension;
    let name1 = segment_name(base, start1, end1, extension);
    let name2 = segment_name(base, start2, end2, extension);
    assert(name1 == name2) by {
        if dir.len() == 0 || dir.last() == '/' {
            lemma_same_front(dir, name1, name2);
        } else {
            assert(joined(dir, name1) == (dir + seq!['/']) + name1);
            assert(joined(dir, name2) == (dir + seq!['/']) + name2);
            lemma_same_front(dir + seq!['/'], name1, name2);
        }
    }
    assert(a1 + seq!['_'] + (b1 + end) == a2 + seq!['_'] + (b2 + end)) by {
        assert(name1 == (base + seq!['_']) + (a1 + seq!['_'] + (b1 + end)));
        assert(name2 == (base + seq!['_']) + (a2 + seq!['_'] + (b2 + end)));
        lemma_same_front(
            base + seq!['_'],
            a1 + seq!['_'] + (b1 + end),
            a2 + seq!['_'] + (b2 + end),
        );
    }
    assert(a1 == a2 && b1 == b2) by {
        lemma_seconds_text_reads_back(start1);
        lemma_seconds_text_reads_back(start2);
        assert forall|i: int| 0 <= i < a1.len() implies a1[i] != '_' by {
            let c = seconds_text(start1 as nat)[i];
            assert(is_digit(c) || c == '.');
        }
        assert forall|i: int| 0 <= i < a2.len() implies a2[i] != '_' by {
            let c = seconds_text(start2 as nat)[i];
            assert(is_digit(c) || c == '.');
        }
        lemma_same_up_to_mark(a1, b1 + end, a2, b2 + end, '_');
        lemma_same_end(b1, b2, end);
    }
    assert(start1 == start2) by {
        lemma_seconds_text_reads_back(start1);
        lemma_seconds_text_reads_back(start2);
    }
    assert(end1 == end2) by {
        lemma_seconds_text_reads_back(end1);
        lemma_seconds_text_reads_back(end2);
    }
}

/// The name of the final output: the base and the extension.
pub open spec fn output_name(base: Seq<char>, extension: Seq<char>) -> Seq<char> {
    base + seq!['.'] + extension
}

/// The name of the list that the joining step reads.
pub const MANIFEST_NAME: &'static str = "concat_list.txt";

/// The path of the file for one kept stretch.
pub fn segment_path(dir: &str, base: &str, start: u64, end: u64, extension: &str) -> (path: String)
    ensures
        path@ == joined(dir@, segment_name(base@, start, end, extension@)),
{
    let mut name: Vec<char> = Vec::new();
    push_str(&mut name, base);
    name.push('_');
    push_seconds(&mut name, start);
    name.push('_');
    push_seconds(&mut name, end);
    name.push('.');
    push_str(&mut name, extension);
    assert(name@ =~= segment_name(base@, start, end, extension@));
    let mut out: Vec<char> = Vec::new();
    push_joined(&mut out, dir, name.as_slice());
    string_of(out.as_slice())
}

/// The path of the final output.
pub fn output_path(dir: &str, base: &str, extension: &str) -> (path: String)
    ensures
        path@ == joined(dir@, output_name(base@, extension@)),
{
    let mut name: Vec<char> = Vec::new();
    push_str(&mut name, base);
    name.push('.');
    push_str(&mut name, extension);
    assert(name@ =~= output_name(base@, extension@));
    let mut out: Vec<char> = Vec::new();
    push_joined(&mut out, dir, name.as_slice());
    string_of(out.as_slice())
}

/// The path of the list that the joining step reads.
pub fn manifest_path(dir: &str) -> (path: String)
    ensures
        path@ == joined(dir@, MANIFEST_NAME@),
{
    let name = chars_of(MANIFEST_NAME);
    let mut out: Vec<char> = Vec::new();
    push_joined(&mut out, dir, name.as_slice());
    string_of(out.as_slice())
}

/// The views of a list of strings.
pub open spec fn texts(list: Seq<String>) -> Seq<Seq<char>> {
    Seq::new(list.len(), |i: int| list[i]@)
}

/// The line of the list that names one file.
pub open spec fn manifest_line(path: Seq<char>) -> Seq<char> {
    "file '"@ + path + "'\n"@
}

/// The text of the list for `paths`: one line for each, in their order.
pub open spec fn manifest_text(paths: Seq<Seq<char>>) -> Seq<char>
    decreases paths.len(),
{
    if paths.len() == 0 {
        Seq::empty()
    } else {
        manifest_text(paths.drop_last()) + manifest_line(paths.last())
    }
}

/// Writes the list that the joining step reads: for each path, in order, a
/// line that holds `file`, a space and the path between single quotes.
pub fn manifest(paths: &Vec<String>) -> (text: String)
    ensures
        text@ == manifest_text(texts(paths@)),
{
    let mut out: Vec<char> = Vec::new();
    let mut i: usize = 0;
    while i < paths.len()
        invariant
            i <= paths.len(),
            out@ == manifest_text(texts(paths@).take(i as int)),
        decreases paths.len() - i,
    {
        proof {
            let now = texts(paths@).take(i + 1);
            assert(now.drop_last() == texts(paths@).take(i as int));
            assert(now.last() == paths@[i as int]@);
        }
        push_str(&mut out, "file '");
        push_str(&mut out, paths[i].as_str());
        push_str(&mut out, "'\n");
        assert(out@ =~= manifest_text(texts(paths@).take(i as int)) + manifest_line(
            paths@[i as int]@,
        ));
        i += 1;
    }
    assert(texts(paths@).take(i as int) == texts(paths@));
    string_of(out.as_slice())
}

} // verus!
