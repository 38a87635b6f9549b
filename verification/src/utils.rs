//! Reading the detector's report, writing times for the command line, and
//! choosing the files to remove.

use vstd::prelude::*;
use vstd::slice::slice_subrange;
use crate::decimal::{
    all_digits, decimal_micros, digit_value, digits_value, fraction_part, fraction_value,
    is_decimal, is_digit, lemma_digits_of_are_digits, lemma_zero_padded, parse_decimal,
    parse_seconds, push_padded, seconds_value, whole_part, zero_padded,
};
use crate::matcher::{groups_view, regex_captures, regex_compiles, Expression};
use crate::names::texts;
use crate::segments::SilenceEvent;
use crate::text::{
    after_first, chars_of, find_after, find_char, is_blank, lemma_position, lemma_position_is,
    lines, position, split_lines, string_of, trim, trimmed,
};

verus! {

/// Microseconds rounded to the nearest millisecond, a half going up.
pub open spec fn rounded_millis(micros: nat) -> nat {
    (micros + 500) / 1000
}

/// A time of `millis` milliseconds on the clock, as `HH:MM:SS.mmm`: hours,
/// minutes and seconds with two digits each and the milliseconds with three,
/// zeros in front where needed. A hundred hours and more take
/// as many digits as they need.
pub open spec fn clock_text(millis: nat) -> Seq<char> {
    zero_padded(millis / 3_600_000, 2) + seq![':'] + zero_padded(millis / 60_000 % 60, 2)
        + seq![':'] + zero_padded(millis / 1000 % 60, 2) + seq!['.'] + zero_padded(
        millis % 1000,
        3,
    )
}

/// Writes a time in microseconds as `HH:MM:SS.mmm`, rounded to the nearest
/// millisecond.
pub fn format_time(micros: u64) -> (text: String)
    ensures
        text@ == clock_text(rounded_millis(micros as nat)),
{
    let total_millis: u64 = micros / 1000 + (if micros % 1000 >= 500 {
        1
    } else {
        0
    });
    let millis = total_millis % 1000;
    let total_secs = total_millis / 1000;
    let seconds = total_secs % 60;
    let mins = (total_secs / 60) % 60;
    let hours = total_secs / 3600;
    let mut out: Vec<char> = Vec::new();
    push_padded(&mut out, hours, 2);
    out.push(':');
    push_padded(&mut out, mins, 2);
    out.push(':');
    push_padded(&mut out, seconds, 2);
    out.push('.');
    push_padded(&mut out, millis, 3);
    assert(out@ =~= clock_text(rounded_millis(micros as nat)));
    string_of(out.as_slice())
}

/// The hours written in a clock text: all that stands in front of the last
/// ten characters.
pub open spec fn clock_hours(text: Seq<char>) -> Seq<char> {
    text.take(text.len() - 10)
}

/// The two minute digits of a clock text.
pub open spec fn clock_minutes(text: Seq<char>) -> Seq<char> {
    text.subrange(text.len() - 9, text.len() - 7)
}

/// The two second digits of a clock text.
pub open spec fn clock_seconds(text: Seq<char>) -> Seq<char> {
    text.subrange(text.len() - 6, text.len() - 4)
}

/// The three millisecond digits of a clock text.
pub open spec fn clock_fraction(text: Seq<char>) -> Seq<char> {
    text.subrange(text.len() - 3, text.len() as int)
}

/// Whether `text` has the shape `HH:MM:SS.mmm`, with two or more digits for
/// the hours.
pub open spec fn is_clock_text(text: Seq<char>) -> bool {
    &&& text.len() >= 12
    &&& all_digits(clock_hours(text))
    &&& text[text.len() - 10] == ':'
    &&& all_digits(clock_minutes(text))
    &&& text[text.len() - 7] == ':'
    &&& all_digits(clock_seconds(text))
    &&& text[text.len() - 4] == '.'
    &&& all_digits(clock_fraction(text))
}

/// The milliseconds that a clock text stands for: its hours times 3600, plus
/// its minutes times 60, plus its seconds, all in thousandths, plus its
/// milliseconds.
pub open spec fn clock_millis(text: Seq<char>) -> nat {
    digits_value(clock_hours(text)) * 3_600_000 + digits_value(clock_minutes(text)) * 60_000
        + digits_value(clock_seconds(text)) * 1000 + digits_value(clock_fraction(text))
}

/// A clock text reads back as the time it was written for.
pub proof fn lemma_clock_text_reads_back(millis: nat)
    ensures
        is_clock_text(clock_text(millis)),
        clock_millis(clock_text(millis)) == millis,
{
    let h = millis / 3_600_000;
    let m = millis / 60_000 % 60;
    let s = millis / 1000 % 60;
    let f = millis % 1000;
    lemma_zero_padded(h, 2);
    lemma_zero_padded(m, 2);
    lemma_zero_padded(s, 2);
    lemma_zero_padded(f, 3);
    lemma_digits_of_are_digits(m);
    lemma_digits_of_are_digits(s);
    lemma_digits_of_are_digits(f);
    let text = clock_text(millis);
    let hh = zero_padded(h, 2);
    assert(text.len() == hh.len() + 10);
    assert(clock_hours(text) =~= hh);
    assert(clock_minutes(text) =~= zero_padded(m, 2));
    assert(clock_seconds(text) =~= zero_padded(s, 2));
    assert(clock_fraction(text) =~= zero_padded(f, 3));
}

/// Writing a time and reading it back gives the time rounded to the nearest
/// millisecond.
pub proof fn lemma_format_time_round_trip(micros: u64)
    ensures
        is_clock_text(clock_text(rounded_millis(micros as nat))),
        clock_millis(clock_text(rounded_millis(micros as nat))) == rounded_millis(micros as nat),
        rounded_millis(micros as nat) * 1000 <= micros + 500 < rounded_millis(micros as nat)
            * 1000 + 1000,
{
    lemma_clock_text_reads_back(rounded_millis(micros as nat));
}

/// The text that introduces the total duration in the report.
pub const DURATION_LABEL: &'static str = "Duration: ";

/// The duration field of a line: what stands between the first
/// `Duration: ` of the line and the comma that follows it, or the end of the
/// line where no comma follows, without white space at its ends. A line
/// without the label has no field.
pub open spec fn duration_field(line: Seq<char>) -> Option<Seq<char>> {
    match after_first(line, DURATION_LABEL@) {
        Some(rest) => Some(trimmed(rest.take(position(rest, ',')))),
        None => None,
    }
}

/// The microseconds that a field `HOURS:MINUTES:SECONDS` stands for: hours
/// times 3600 plus minutes times 60 plus seconds, where the field has three
/// parts between colons, each a decimal number, and the sum fits in 64 bits.
pub open spec fn clock_value(field: Seq<char>) -> Option<u64> {
    let first = position(field, ':');
    let rest = field.skip(first + 1);
    let second = position(rest, ':');
    if first < field.len() && second < rest.len() {
        match (
            seconds_value(field.take(first)),
            seconds_value(rest.take(second)),
            seconds_value(rest.skip(second + 1)),
        ) {
            (Some(hours), Some(minutes), Some(seconds)) => if hours * 3600 + minutes * 60
                + seconds <= u64::MAX {
                Some((hours * 3600 + minutes * 60 + seconds) as u64)
            } else {
                None
            },
            _ => None,
        }
    } else {
        None
    }
}

/// The duration that one line of the report gives, if it gives one.
pub open spec fn line_duration(line: Seq<char>) -> Option<u64> {
    match duration_field(line) {
        Some(field) => clock_value(field),
        None => None,
    }
}

/// The duration that the first of `lines` to give one gives.
pub open spec fn first_duration(lines: Seq<Seq<char>>) -> Option<u64>
    decreases lines.len(),
{
    if lines.len() == 0 {
        None
    } else if line_duration(lines[0]).is_some() {
        line_duration(lines[0])
    } else {
        first_duration(lines.drop_first())
    }
}

/// The total duration that a report gives, in microseconds.
pub open spec fn total_duration(report: Seq<char>) -> Option<u64> {
    first_duration(lines(report))
}

/// Reads a field `HOURS:MINUTES:SECONDS` into microseconds.
pub fn parse_clock(field: &[char]) -> (micros: Option<u64>)
    ensures
        micros == clock_value(field@),
{
    let first = find_char(field, ':');
    if first >= field.len() {
        return None;
    }
    let rest = slice_subrange(field, first + 1, field.len());
    let second = find_char(rest, ':');
    if second >= rest.len() {
        return None;
    }
    let hours = parse_decimal(slice_subrange(field, 0, first));
    let minutes = parse_decimal(slice_subrange(rest, 0, second));
    let seconds = parse_decimal(slice_subrange(rest, second + 1, rest.len()));
    match (hours, minutes, seconds) {
        (Some(h), Some(m), Some(s)) => {
            let sum: u128 = (h as u128) * 3600 + (m as u128) * 60 + (s as u128);
            if sum <= u64::MAX as u128 {
                Some(sum as u64)
            } else {
                None
            }
        },
        _ => None,
    }
}

/// Reads the duration that one line of the report gives.
pub fn parse_duration_line(line: &[char]) -> (micros: Option<u64>)
    ensures
        micros == line_duration(line@),
{
    let label = chars_of(DURATION_LABEL);
    match find_after(line, label.as_slice()) {
        None => None,
        Some(rest) => {
            let comma = find_char(rest, ',');
            proof {
                lemma_position(rest@, ',');
            }
            parse_clock(trim(slice_subrange(rest, 0, comma)))
        },
    }
}

/// Reads the total duration of the recording from the report, in
/// microseconds. The first line counts that holds `Duration: ` followed by a
/// field `HOURS:MINUTES:SECONDS`, each part a decimal number; the field ends
/// at the next comma, or with the line where no comma follows. A line whose
/// field is malformed is passed over. Without such a line the result is
/// `None`.
pub fn parse_total_duration(stderr: &str) -> (micros: Option<u64>)
    ensures
        micros == total_duration(stderr@),
{
    let chars = chars_of(stderr);
    let all = split_lines(chars.as_slice());
    let mut i: usize = 0;
    assert(all.deep_view().skip(0) == all.deep_view());
    while i < all.len()
        invariant
            i <= all.len(),
            all.deep_view() == lines(stderr@),
            total_duration(stderr@) == first_duration(all.deep_view().skip(i as int)),
        decreases all.len() - i,
    {
        let found = parse_duration_line(all[i].as_slice());
        proof {
            let rest = all.deep_view().skip(i as int);
            assert(rest[0] =~= all[i as int]@);
            assert(rest.drop_first() == all.deep_view().skip(i + 1));
        }
        if found.is_some() {
            return found;
        }
        i += 1;
    }
    None
}

/// Digits alone are a decimal number, worth a million times what they write.
proof fn lemma_whole_seconds(digits: Seq<char>)
    requires
        all_digits(digits),
        digits.len() > 0,
    ensures
        is_decimal(digits),
        decimal_micros(digits) == digits_value(digits) * 1_000_000,
{
    assert forall|j: int| 0 <= j < digits.len() implies digits[j] != '.' by {
        assert(is_digit(digits[j]));
    }
    lemma_position_is(digits, '.', digits.len() as int);
    assert(whole_part(digits) == digits);
    assert(fraction_part(digits) == Seq::<char>::empty());
    assert(fraction_value(fraction_part(digits), 1_000_000) == 0);
}

/// Digits, a point and two more digits are a decimal number: a million
/// times the first digits, plus ten thousand times the last two.
proof fn lemma_seconds_with_hundredths(whole: Seq<char>, places: Seq<char>)
    requires
        all_digits(whole),
        all_digits(places),
        places.len() == 2,
    ensures
        is_decimal(whole + seq!['.'] + places),
        decimal_micros(whole + seq!['.'] + places) == digits_value(whole) * 1_000_000
            + digits_value(places) * 10_000,
{
    let text = whole + seq!['.'] + places;
    assert forall|j: int| 0 <= j < whole.len() implies text[j] != '.' by {
        assert(text[j] == whole[j]);
        assert(is_digit(whole[j]));
    }
    assert(text[whole.len() as int] == '.');
    lemma_position_is(text, '.', whole.len() as int);
    assert(whole_part(text) == whole);
    assert(fraction_part(text) == places);
    let f1 = places.drop_first();
    let f2 = f1.drop_first();
    assert(fraction_value(f2, 10_000) == 0);
    assert(fraction_value(f1, 100_000) == digit_value(places[1]) * 10_000 + fraction_value(
        f2,
        10_000,
    ));
    assert(fraction_value(places, 1_000_000) == digit_value(places[0]) * 100_000
        + fraction_value(f1, 100_000));
    let g1 = places.drop_last();
    let g2 = g1.drop_last();
    assert(digits_value(g2) == 0);
    assert(digits_value(g1) == digits_value(g2) * 10 + digit_value(places[0]));
    assert(digits_value(places) == digits_value(g1) * 10 + digit_value(places[1]));
}

/// The field of a line that holds the label, then `field` and a comma, is
/// `field`, where `field` holds no comma and no white space at its ends.
proof fn lemma_duration_field(field: Seq<char>, rest: Seq<char>)
    requires
        field.len() > 0,
        forall|j: int| 0 <= j < field.len() ==> field[j] != ',',
        !is_blank(field[0]),
        !is_blank(field.last()),
    ensures
        duration_field(DURATION_LABEL@ + field + seq![','] + rest) == Some(field),
{
    let line = DURATION_LABEL@ + field + seq![','] + rest;
    let behind = field + seq![','] + rest;
    let n = field.len() as int;
    assert(after_first(line, DURATION_LABEL@) == Some(behind)) by {
        assert(line == DURATION_LABEL@ + behind);
        assert(DURATION_LABEL@.is_prefix_of(line));
        assert(line.skip(DURATION_LABEL@.len() as int) == behind);
    }
    assert(behind.take(position(behind, ',')) == field) by {
        assert forall|j: int| 0 <= j < n implies behind[j] != ',' by {
            assert(behind[j] == field[j]);
        }
        assert(behind[n] == ',');
        lemma_position_is(behind, ',', n);
    }
    assert(trimmed(field) == field);
}

/// The parts of a field `hours:minutes:seconds`, where hours and minutes
/// are digits.
proof fn lemma_clock_parts(hours: Seq<char>, minutes: Seq<char>, seconds: Seq<char>)
    requires
        all_digits(hours),
        all_digits(minutes),
    ensures
        ({
            let field = hours + seq![':'] + minutes + seq![':'] + seconds;
            let rest = field.skip(position(field, ':') + 1);
            &&& position(field, ':') == hours.len()
            &&& field.take(position(field, ':')) == hours
            &&& position(rest, ':') == minutes.len()
            &&& rest.take(position(rest, ':')) == minutes
            &&& rest.skip(position(rest, ':') + 1) == seconds
        }),
{
    let field = hours + seq![':'] + minutes + seq![':'] + seconds;
    let n = hours.len() as int;
    let m = minutes.len() as int;
    let rest = minutes + seq![':'] + seconds;
    assert forall|j: int| 0 <= j < n implies field[j] != ':' by {
        assert(field[j] == hours[j]);
        assert(is_digit(hours[j]));
    }
    assert(field[n] == ':');
    lemma_position_is(field, ':', n);
    assert(field.take(n) == hours);
    assert(field.skip(n + 1) == rest);
    assert forall|j: int| 0 <= j < m implies rest[j] != ':' by {
        assert(rest[j] == minutes[j]);
        assert(is_digit(minutes[j]));
    }
    assert(rest[m] == ':');
    lemma_position_is(rest, ':', m);
    assert(rest.take(m) == minutes);
    assert(rest.skip(m + 1) == seconds);
}

/// The duration line is read as hours times 3600 plus minutes times 60 plus
/// seconds. A line that holds `Duration: `, then digits for the hours, a
/// colon, digits for the minutes, a colon, digits for the seconds, a point,
/// two digits for the hundredths and a comma gives that sum in
/// microseconds, whatever follows the comma; it gives nothing where the sum
/// does not fit in 64 bits.
pub proof fn lemma_duration_line_is_read(
    hours: Seq<char>,
    minutes: Seq<char>,
    seconds: Seq<char>,
    hundredths: Seq<char>,
    rest: Seq<char>,
)
    requires
        all_digits(hours),
        all_digits(minutes),
        all_digits(seconds),
        all_digits(hundredths),
        hours.len() > 0,
        minutes.len() > 0,
        seconds.len() > 0,
        hundredths.len() == 2,
    ensures
        ({
            let line = DURATION_LABEL@ + (hours + seq![':'] + minutes + seq![':'] + (seconds
                + seq!['.'] + hundredths)) + seq![','] + rest;
            let micros = (digits_value(hours) * 3600 + digits_value(minutes) * 60 + digits_value(
                seconds,
            )) * 1_000_000 + digits_value(hundredths) * 10_000;
            line_duration(line) == if micros <= u64::MAX {
                Some(micros as u64)
            } else {
                None
            }
        }),
{
    let last = seconds + seq!['.'] + hundredths;
    let field = hours + seq![':'] + minutes + seq![':'] + last;
    let n = field.len() as int;
    assert forall|j: int| 0 <= j < n implies field[j] != ',' by {
        let h = hours.len() as int;
        let m = minutes.len() as int;
        let s = seconds.len() as int;
        if j < h {
            assert(field[j] == hours[j]);
            assert(is_digit(hours[j]));
        } else if h < j <= h + m {
            assert(field[j] == minutes[j - h - 1]);
            assert(is_digit(minutes[j - h - 1]));
        } else if h + m + 1 < j <= h + m + 1 + s {
            assert(field[j] == seconds[j - h - m - 2]);
            assert(is_digit(seconds[j - h - m - 2]));
        } else if h + m + 2 + s < j {
            assert(field[j] == hundredths[j - h - m - s - 3]);
            assert(is_digit(hundredths[j - h - m - s - 3]));
        }
    }
    assert(!is_blank(field[0]) && !is_blank(field.last())) by {
        assert(field[0] == hours[0]);
        assert(is_digit(hours[0]));
        assert(field.last() == hundredths[1]);
        assert(is_digit(hundredths[1]));
    }
    lemma_duration_field(field, rest);
    lemma_clock_parts(hours, minutes, last);
    lemma_whole_seconds(hours);
    lemma_whole_seconds(minutes);
    lemma_seconds_with_hundredths(seconds, hundredths);
}

/// The expression for the line that opens a silence. Its one group holds
/// the start time.
pub const START_PATTERN: &'static str = r"silence_start: ([\d\.]+)";

/// The expression for the line that closes a silence. Its two groups hold
/// the end time and the duration.
pub const END_PATTERN: &'static str = r"silence_end: ([\d\.]+) \| silence_duration: ([\d\.]+)";

/// Why a report could not be read.
#[derive(Debug, Clone, Copy, PartialEq, Eq, Structural)]
pub enum PatternError {
    /// The expression for the opening marker was not accepted.
    Start,
    /// The expression for the closing marker was not accepted.
    End,
}

/// The markers that one line of the report holds, as the texts of their
/// numbers: the start time of an opening marker, and the end time and the
/// duration of a closing marker.
#[derive(Debug, PartialEq, Eq)]
pub struct LineMarkers {
    pub start: Option<String>,
    pub end: Option<(String, String)>,
}

/// The markers of one line, as sequences of characters.
pub struct MarkersView {
    pub start: Option<Seq<char>>,
    pub end: Option<(Seq<char>, Seq<char>)>,
}

impl View for LineMarkers {
    type V = MarkersView;

    open spec fn view(&self) -> MarkersView {
        MarkersView {
            start: match self.start {
                Some(text) => Some(text@),
                None => None,
            },
            end: match self.end {
                Some((end, duration)) => Some((end@, duration@)),
                None => None,
            },
        }
    }
}

/// The views of a list of line markers.
pub open spec fn markers_views(list: Seq<LineMarkers>) -> Seq<MarkersView> {
    Seq::new(list.len(), |i: int| list[i]@)
}

/// The start that is pending once a line's opening marker has been read: the
/// marker's time where the line has one (nothing, where its number is
/// malformed), else what was pending before.
pub open spec fn opened(pending: Option<u64>, line: MarkersView) -> Option<u64> {
    match line.start {
        Some(text) => seconds_value(text),
        None => pending,
    }
}

/// The silence that a line completes: one is completed where a start is
/// pending and the line holds a closing marker with two well-formed numbers.
pub open spec fn closed(pending: Option<u64>, line: MarkersView) -> Option<SilenceEvent> {
    match (opened(pending, line), line.end) {
        (Some(start), Some((end, duration))) => match (
            seconds_value(end),
            seconds_value(duration),
        ) {
            (Some(end), Some(duration)) => Some(SilenceEvent { start, end, duration }),
            _ => None,
        },
        _ => None,
    }
}

/// The start that is still pending behind a line: none where the line
/// completed a silence.
pub open spec fn pending_after(pending: Option<u64>, line: MarkersView) -> Option<u64> {
    if closed(pending, line).is_some() {
        None
    } else {
        opened(pending, line)
    }
}

/// The start that is pending behind all of `lines`, read in order with
/// nothing pending at first.
pub open spec fn pending_at_end(lines: Seq<MarkersView>) -> Option<u64>
    decreases lines.len(),
{
    if lines.len() == 0 {
        None
    } else {
        pending_after(pending_at_end(lines.drop_last()), lines.last())
    }
}

/// The silences that `lines` complete, in order.
pub open spec fn paired(lines: Seq<MarkersView>) -> Seq<SilenceEvent>
    decreases lines.len(),
{
    if lines.len() == 0 {
        Seq::empty()
    } else {
        match closed(pending_at_end(lines.drop_last()), lines.last()) {
            Some(event) => paired(lines.drop_last()).push(event),
            None => paired(lines.drop_last()),
        }
    }
}

/// Reads one line's markers: returns the start that is pending behind the
/// line, and the silence that the line completes, if any.
pub fn read_markers(pending: Option<u64>, line: &LineMarkers) -> (r: (
    Option<u64>,
    Option<SilenceEvent>,
))
    ensures
        r.0 == pending_after(pending, line@),
        r.1 == closed(pending, line@),
{
    let current = match &line.start {
        Some(text) => parse_seconds(text.as_str()),
        None => pending,
    };
    match (current, &line.end) {
        (Some(start), Some(pair)) => {
            let end = parse_seconds(pair.0.as_str());
            let duration = parse_seconds(pair.1.as_str());
            match (end, duration) {
                (Some(end), Some(duration)) => (None, Some(SilenceEvent { start, end, duration })),
                _ => (current, None),
            }
        },
        _ => (current, None),
    }
}

/// Pairs opening and closing markers into silences. An opening marker sets
/// the pending start, replacing an earlier one; a closing marker with a start
/// pending completes a silence and clears it. A marker with a malformed
/// number completes nothing, and an opening marker that nothing closes
/// leaves no silence behind.
pub fn pair_markers(lines: &Vec<LineMarkers>) -> (events: Vec<SilenceEvent>)
    ensures
        events@ == paired(markers_views(lines@)),
{
    let mut events: Vec<SilenceEvent> = Vec::new();
    let mut pending: Option<u64> = None;
    let mut i: usize = 0;
    while i < lines.len()
        invariant
            i <= lines.len(),
            pending == pending_at_end(markers_views(lines@).take(i as int)),
            events@ == paired(markers_views(lines@).take(i as int)),
        decreases lines.len() - i,
    {
        proof {
            let now = markers_views(lines@).take(i + 1);
            assert(now.drop_last() == markers_views(lines@).take(i as int));
            assert(now.last() == lines@[i as int]@);
        }
        let (next, event) = read_markers(pending, &lines[i]);
        pending = next;
        if let Some(event) = event {
            events.push(event);
        }
        i += 1;
    }
    assert(markers_views(lines@).take(i as int) == markers_views(lines@));
    events
}

/// The text of group `i` of a match; empty where the match has no such group.
pub open spec fn group_text(groups: Seq<Option<Seq<char>>>, i: int) -> Seq<char> {
    if 0 <= i < groups.len() && groups[i].is_some() {
        groups[i].unwrap()
    } else {
        Seq::empty()
    }
}

/// The markers of a line, from what the two expressions found in it.
pub open spec fn markers_found(
    start: Option<Seq<Option<Seq<char>>>>,
    end: Option<Seq<Option<Seq<char>>>>,
) -> MarkersView {
    MarkersView {
        start: match start {
            Some(groups) => Some(group_text(groups, 1)),
            None => None,
        },
        end: match end {
            Some(groups) => Some((group_text(groups, 1), group_text(groups, 2))),
            None => None,
        },
    }
}

/// The markers of each line of `lines`, as expressions compiled from the
/// patterns `start` and `end` find them.
pub open spec fn markers_in(start: Seq<char>, end: Seq<char>, lines: Seq<Seq<char>>) -> Seq<
    MarkersView,
> {
    Seq::new(
        lines.len(),
        |i: int| markers_found(regex_captures(start, lines[i]), regex_captures(end, lines[i])),
    )
}

/// The markers of each line of `lines`, as the two expressions of this
/// library find them.
pub open spec fn report_markers(lines: Seq<Seq<char>>) -> Seq<MarkersView> {
    markers_in(START_PATTERN@, END_PATTERN@, lines)
}

/// The silences that a report holds.
pub open spec fn silence_events(report: Seq<char>) -> Seq<SilenceEvent> {
    paired(report_markers(lines(report)))
}

/// Takes the markers of one line out of what the two expressions found in
/// it: group 1 of the opening expression, groups 1 and 2 of the closing
/// one. A group that took no part in its match counts as an empty text.
pub fn markers_of(
    start: &Option<Vec<Option<String>>>,
    end: &Option<Vec<Option<String>>>,
) -> (markers: LineMarkers)
    ensures
        markers@ == markers_found(groups_view(*start), groups_view(*end)),
{
    LineMarkers {
        start: match start {
            Some(groups) => Some(group_string(groups, 1)),
            None => None,
        },
        end: match end {
            Some(groups) => Some((group_string(groups, 1), group_string(groups, 2))),
            None => None,
        },
    }
}

/// A copy of the text of group `i`.
fn group_string(groups: &Vec<Option<String>>, i: usize) -> (text: String)
    ensures
        text@ == group_text(groups_view(Some(*groups)).unwrap(), i as int),
{
    if i < groups.len() {
        match &groups[i] {
            Some(text) => text.clone(),
            None => String::new(),
        }
    } else {
        String::new()
    }
}

/// Reads the silences out of `output` with two compiled expressions: each
/// line is searched with `start` for an opening marker and with `end` for a
/// closing one, and the markers are paired as `pair_markers` does.
pub fn scan_report(start: &Expression, end: &Expression, output: &str) -> (events: Vec<
    SilenceEvent,
>)
    ensures
        events@ == paired(markers_in(start.source(), end.source(), lines(output@))),
{
    let ghost expected = markers_in(start.source(), end.source(), lines(output@));
    let chars = chars_of(output);
    let all = split_lines(chars.as_slice());
    let mut found: Vec<LineMarkers> = Vec::new();
    let mut i: usize = 0;
    while i < all.len()
        invariant
            i <= all.len(),
            all.deep_view() == lines(output@),
            expected == markers_in(start.source(), end.source(), lines(output@)),
            found.len() == i,
            markers_views(found@) == expected.take(i as int),
        decreases all.len() - i,
    {
        let line = string_of(all[i].as_slice());
        assert(line@ == lines(output@)[i as int]) by {
            assert(all.deep_view()[i as int] =~= all[i as int]@);
        }
        let opening = start.captures(line.as_str());
        let closing = end.captures(line.as_str());
        let markers = markers_of(&opening, &closing);
        assert(markers@ == expected[i as int]);
        let ghost before = found@;
        found.push(markers);
        assert forall|j: int| 0 <= j < i + 1 implies markers_views(found@)[j] == expected[j] by {
            if j < i {
                assert(found@[j] == before[j]);
                assert(markers_views(before)[j] == expected.take(i as int)[j]);
            }
        }
        assert(markers_views(found@) =~= expected.take(i + 1));
        i += 1;
    }
    assert(expected.take(i as int) == expected);
    pair_markers(&found)
}

/// Reads the silences out of `output`, given how the compiling of the two
/// expressions ended. Where the opening expression was refused the result is
/// `PatternError::Start`; where only the closing one was, it is
/// `PatternError::End`; with both compiled it is what `scan_report` reads.
pub fn read_report(
    start: Result<Expression, regex::Error>,
    end: Result<Expression, regex::Error>,
    output: &str,
) -> (parsed: Result<Vec<SilenceEvent>, PatternError>)
    ensures
        start is Err ==> parsed == Err::<Vec<SilenceEvent>, PatternError>(PatternError::Start),
        start is Ok && end is Err ==> parsed == Err::<Vec<SilenceEvent>, PatternError>(
            PatternError::End,
        ),
        start is Ok && end is Ok ==> parsed is Ok && parsed->Ok_0@ == paired(
            markers_in(start->Ok_0.source(), end->Ok_0.source(), lines(output@)),
        ),
{
    let start = match start {
        Ok(expression) => expression,
        Err(_) => {
            return Err(PatternError::Start);
        },
    };
    let end = match end {
        Ok(expression) => expression,
        Err(_) => {
            return Err(PatternError::End);
        },
    };
    Ok(scan_report(&start, &end, output))
}

/// What the reading of a report gives: its silences where the `regex` crate
/// compiles both expressions, else the error that names the first
/// expression that it refuses.
pub open spec fn report_outcome(report: Seq<char>) -> Result<Seq<SilenceEvent>, PatternError> {
    if !regex_compiles(START_PATTERN@) {
        Err(PatternError::Start)
    } else if !regex_compiles(END_PATTERN@) {
        Err(PatternError::End)
    } else {
        Ok(silence_events(report))
    }
}

/// Reads the silences out of the detector's report. Each line is searched
/// for an opening marker, `silence_start: ` and a number, and for a closing
/// marker, `silence_end: `, a number, ` | silence_duration: ` and a number;
/// the markers are then paired as `pair_markers` does. The two expressions
/// are compiled first: the result is an error where the `regex` crate
/// refuses one of them, and the silences of the report where it compiles
/// both.
pub fn parse_silence_events(output: &str) -> (parsed: Result<Vec<SilenceEvent>, PatternError>)
    ensures
        match report_outcome(output@) {
            Ok(events) => parsed is Ok && parsed->Ok_0@ == events,
            Err(e) => parsed == Err::<Vec<SilenceEvent>, PatternError>(e),
        },
{
    let start = Expression::new(START_PATTERN);
    let end = Expression::new(END_PATTERN);
    read_report(start, end, output)
}

/// An opening marker that nothing closes leaves no silence: lines without a
/// closing marker at the end of a report add nothing to its silences,
/// whatever opening markers they hold.
pub proof fn lemma_unclosed_silence_is_dropped(lines: Seq<MarkersView>, tail: Seq<MarkersView>)
    requires
        forall|i: int| 0 <= i < tail.len() ==> (#[trigger] tail[i]).end.is_none(),
    ensures
        paired(lines + tail) == paired(lines),
    decreases tail.len(),
{
    if tail.len() > 0 {
        assert((lines + tail).drop_last() == lines + tail.drop_last());
        assert((lines + tail).last() == tail.last());
        assert(tail.last().end.is_none());
        lemma_unclosed_silence_is_dropped(lines, tail.drop_last());
    } else {
        assert(lines + tail == lines);
    }
}

/// The files to remove from `files`: all but `keep`, in their order.
pub open spec fn removable(files: Seq<Seq<char>>, keep: Seq<char>) -> Seq<Seq<char>>
    decreases files.len(),
{
    if files.len() == 0 {
        Seq::empty()
    } else if files.last() == keep {
        removable(files.drop_last(), keep)
    } else {
        removable(files.drop_last(), keep).push(files.last())
    }
}

/// Chooses the files to remove once the output is written. `files` holds
/// the canonical paths of the regular files in the output directory, and
/// `final_output` the canonical path of the output. Every file goes but
/// the output itself.
pub fn cleanup_temp_files(files: &Vec<String>, final_output: &str) -> (doomed: Vec<String>)
    ensures
        texts(doomed@) == removable(texts(files@), final_output@),
{
    let keep = final_output.to_owned();
    let mut doomed: Vec<String> = Vec::new();
    let mut i: usize = 0;
    assert(texts(doomed@) =~= Seq::<Seq<char>>::empty());
    while i < files.len()
        invariant
            i <= files.len(),
            keep@ == final_output@,
            texts(doomed@) == removable(texts(files@).take(i as int), final_output@),
        decreases files.len() - i,
    {
        proof {
            let now = texts(files@).take(i + 1);
            assert(now.drop_last() == texts(files@).take(i as int));
            assert(now.last() == files@[i as int]@);
        }
        if files[i] != keep {
            let ghost before = texts(doomed@);
            let file = files[i].clone();
            doomed.push(file);
            assert(texts(doomed@) =~= before.push(files@[i as int]@));
        }
        i += 1;
    }
    assert(texts(files@).take(i as int) == texts(files@));
    doomed
}

/// The files to remove are the files other than the output: the output
/// is never among them, and every other file is.
pub proof fn lemma_cleanup_spares_only_the_output(files: Seq<Seq<char>>, keep: Seq<char>)
    ensures
        !removable(files, keep).contains(keep),
        forall|file: Seq<char>|
            #![trigger removable(files, keep).contains(file)]
            removable(files, keep).contains(file) <==> files.contains(file) && file != keep,
    decreases files.len(),
{
    let doomed = removable(files, keep);
    if files.len() > 0 {
        let rest = files.drop_last();
        let last = files.last();
        lemma_cleanup_spares_only_the_output(rest, keep);
        assert forall|file: Seq<char>| #![trigger doomed.contains(file)]
            doomed.contains(file) <==> files.contains(file) && file != keep by {
            if doomed.contains(file) {
                let k = choose|k: int| 0 <= k < doomed.len() && doomed[k] == file;
                if last != keep && k == doomed.len() - 1 {
                    assert(files[files.len() - 1] == file);
                } else {
                    assert(removable(rest, keep)[k] == file);
                    assert(removable(rest, keep).contains(file));
                    let j = choose|j: int| 0 <= j < rest.len() && rest[j] == file;
                    assert(files[j] == file);
                }
            }
            if files.contains(file) && file != keep {
                let j = choose|j: int| 0 <= j < files.len() && files[j] == file;
                if j == files.len() - 1 {
                    assert(doomed.last() == file);
                } else {
                    assert(rest[j] == file);
                    assert(removable(rest, keep).contains(file));
                    let k = choose|k: int|
                        0 <= k < removable(rest, keep).len() && removable(rest, keep)[k] == file;
                    assert(doomed[k] == file);
                }
            }
        }
    }
}

} // verus!
