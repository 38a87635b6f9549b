//! Decimal numbers as text: reading seconds into microseconds, and writing
//! whole numbers and seconds back out.

use vstd::prelude::*;
use vstd::slice::slice_subrange;
use crate::text::{chars_of, find_char, lemma_position, position, push_all};

verus! {

/// The number of microseconds in a second.
pub const MICROS_PER_SECOND: u64 = 1_000_000;

/// Whether `c` is one of the ten ASCII digits.
pub open spec fn is_digit(c: char) -> bool {
    '0' <= c <= '9'
}

/// The number that the digit `c` stands for.
pub open spec fn digit_value(c: char) -> nat {
    (c as int - '0' as int) as nat
}

/// The digit that stands for `d`, for `d` below ten.
pub open spec fn digit_char(d: nat) -> char {
    ('0' as int + d) as char
}

/// Whether `s` holds ASCII digits only.
pub open spec fn all_digits(s: Seq<char>) -> bool {
    forall|i: int| 0 <= i < s.len() ==> is_digit(#[trigger] s[i])
}

/// The number that the digits of `s` write in base ten; zero for the empty sequence.
pub open spec fn digits_value(s: Seq<char>) -> nat
    decreases s.len(),
{
    if s.len() == 0 {
        0
    } else {
        digits_value(s.drop_last()) * 10 + digit_value(s.last())
    }
}

/// What the digits of `f` are worth behind a decimal point, where `unit` is
/// the worth of a one in front of it: the first digit counts tenths of `unit`,
/// the next one hundredths, and so on, each rounded down to a whole number.
pub open spec fn fraction_value(f: Seq<char>, unit: nat) -> nat
    decreases f.len(),
{
    if f.len() == 0 {
        0
    } else {
        digit_value(f[0]) * (unit / 10) + fraction_value(f.drop_first(), unit / 10)
    }
}

/// The digits in front of the first point of `text`.
pub open spec fn whole_part(text: Seq<char>) -> Seq<char> {
    text.take(position(text, '.'))
}

/// What stands behind the first point of `text`; empty where there is no point.
pub open spec fn fraction_part(text: Seq<char>) -> Seq<char> {
    if position(text, '.') < text.len() {
        text.skip(position(text, '.') + 1)
    } else {
        Seq::empty()
    }
}

/// Whether `text` is a decimal number: digits, then optionally a point and
/// more digits, with at least one digit in all.
pub open spec fn is_decimal(text: Seq<char>) -> bool {
    &&& all_digits(whole_part(text))
    &&& all_digits(fraction_part(text))
    &&& whole_part(text).len() + fraction_part(text).len() > 0
}

/// The microseconds in the seconds that `text` writes. Digits behind the
/// sixth decimal place do not count.
pub open spec fn decimal_micros(text: Seq<char>) -> nat {
    digits_value(whole_part(text)) * 1_000_000 + fraction_value(fraction_part(text), 1_000_000)
}

/// The microseconds that `text` stands for: those of a decimal number that
/// fits in 64 bits, and nothing for any other text.
pub open spec fn seconds_value(text: Seq<char>) -> Option<u64> {
    if is_decimal(text) && decimal_micros(text) <= u64::MAX {
        Some(decimal_micros(text) as u64)
    } else {
        None
    }
}

/// Appending a digit multiplies the value by ten and adds the digit.
pub proof fn lemma_digits_value_push(s: Seq<char>, c: char)
    ensures
        digits_value(s.push(c)) == digits_value(s) * 10 + digit_value(c),
{
    assert(s.push(c).drop_last() == s);
}

/// A prefix of a digit sequence is worth no more than the whole.
pub proof fn lemma_digits_value_prefix(s: Seq<char>, k: int)
    requires
        0 <= k <= s.len(),
    ensures
        digits_value(s.take(k)) <= digits_value(s),
    decreases s.len() - k,
{
    if k < s.len() {
        lemma_digits_value_prefix(s, k + 1);
        assert(s.take(k + 1).drop_last() == s.take(k));
    } else {
        assert(s.take(k) == s);
    }
}

/// A zero at the end of a fraction does not change what it is worth.
pub proof fn lemma_fraction_value_push_zero(f: Seq<char>, unit: nat)
    ensures
        fraction_value(f.push('0'), unit) == fraction_value(f, unit),
    decreases f.len(),
{
    let longer = f.push('0');
    if f.len() == 0 {
        assert(longer.drop_first() == Seq::<char>::empty());
        assert(fraction_value(longer.drop_first(), unit / 10) == 0);
        assert(longer[0] == '0');
        assert(digit_value('0') == 0);
        assert(fraction_value(longer, unit) == 0 * (unit / 10) + 0);
    } else {
        assert(longer.drop_first() == f.drop_first().push('0'));
        assert(longer[0] == f[0]);
        lemma_fraction_value_push_zero(f.drop_first(), unit / 10);
    }
}

/// Six digits behind the point are worth, in millionths, the number that
/// they write.
pub proof fn lemma_fraction_value_of_six(f: Seq<char>)
    requires
        f.len() == 6,
    ensures
        fraction_value(f, 1_000_000) == digits_value(f),
{
    let f1 = f.drop_first();
    let f2 = f1.drop_first();
    let f3 = f2.drop_first();
    let f4 = f3.drop_first();
    let f5 = f4.drop_first();
    let f6 = f5.drop_first();
    assert(fraction_value(f6, 1) == 0);
    assert(fraction_value(f5, 10) == digit_value(f[5]) * 1 + fraction_value(f6, 1));
    assert(fraction_value(f4, 100) == digit_value(f[4]) * 10 + fraction_value(f5, 10));
    assert(fraction_value(f3, 1000) == digit_value(f[3]) * 100 + fraction_value(f4, 100));
    assert(fraction_value(f2, 10_000) == digit_value(f[2]) * 1000 + fraction_value(f3, 1000));
    assert(fraction_value(f1, 100_000) == digit_value(f[1]) * 10_000 + fraction_value(
        f2,
        10_000,
    ));
    assert(fraction_value(f, 1_000_000) == digit_value(f[0]) * 100_000 + fraction_value(
        f1,
        100_000,
    ));
    let g1 = f.drop_last();
    let g2 = g1.drop_last();
    let g3 = g2.drop_last();
    let g4 = g3.drop_last();
    let g5 = g4.drop_last();
    let g6 = g5.drop_last();
    assert(digits_value(g6) == 0);
    assert(digits_value(g5) == digits_value(g6) * 10 + digit_value(f[0]));
    assert(digits_value(g4) == digits_value(g5) * 10 + digit_value(f[1]));
    assert(digits_value(g3) == digits_value(g4) * 10 + digit_value(f[2]));
    assert(digits_value(g2) == digits_value(g3) * 10 + digit_value(f[3]));
    assert(digits_value(g1) == digits_value(g2) * 10 + digit_value(f[4]));
    assert(digits_value(f) == digits_value(g1) * 10 + digit_value(f[5]));
}

/// Tests whether `s` holds ASCII digits only.
pub fn only_digits(s: &[char]) -> (b: bool)
    ensures
        b == all_digits(s@),
{
    let mut i: usize = 0;
    while i < s.len()
        invariant
            i <= s.len(),
            forall|j: int| 0 <= j < i ==> is_digit(#[trigger] s@[j]),
        decreases s.len() - i,
    {
        if !('0' <= s[i] && s[i] <= '9') {
            return false;
        }
        i += 1;
    }
    true
}

/// The number written by the digits `s`, where it fits in 64 bits.
fn number(s: &[char]) -> (n: Option<u64>)
    requires
        all_digits(s@),
    ensures
        n == if digits_value(s@) <= u64::MAX {
            Some(digits_value(s@) as u64)
        } else {
            None
        },
{
    let mut acc: u64 = 0;
    let mut i: usize = 0;
    while i < s.len()
        invariant
            i <= s.len(),
            all_digits(s@),
            acc == digits_value(s@.take(i as int)),
        decreases s.len() - i,
    {
        let c = s[i];
        assert(is_digit(s@[i as int]));
        let d: u64 = (c as u64) - ('0' as u64);
        proof {
            assert(s@.take(i + 1) == s@.take(i as int).push(c));
            lemma_digits_value_push(s@.take(i as int), c);
            lemma_digits_value_prefix(s@, i + 1);
        }
        let next: u128 = (acc as u128) * 10 + (d as u128);
        if next > u64::MAX as u128 {
            return None;
        }
        acc = next as u64;
        i += 1;
    }
    assert(s@.take(i as int) == s@);
    Some(acc)
}

/// The microseconds that the digits `f` behind a decimal point are worth.
fn fraction_micros(f: &[char]) -> (n: u64)
    requires
        all_digits(f@),
    ensures
        n == fraction_value(f@, 1_000_000),
        n < 1_000_000,
{
    let mut acc: u64 = 0;
    let mut unit: u64 = MICROS_PER_SECOND;
    let mut i: usize = 0;
    assert(f@.skip(0) == f@);
    while i < f.len()
        invariant
            i <= f.len(),
            all_digits(f@),
            unit <= 1_000_000,
            acc + unit <= 1_000_000,
            i == 0 ==> unit == 1_000_000,
            i > 0 ==> acc + unit / 10 < 1_000_000,
            fraction_value(f@, 1_000_000) == acc + fraction_value(f@.skip(i as int), unit as nat),
        decreases f.len() - i,
    {
        let c = f[i];
        assert(is_digit(f@[i as int]));
        let d: u64 = (c as u64) - ('0' as u64);
        assert(f@.skip(i as int).drop_first() == f@.skip(i + 1));
        assert(f@.skip(i as int)[0] == c);
        unit = unit / 10;
        assert(d * unit <= 9 * unit) by (nonlinear_arith)
            requires
                d <= 9,
        ;
        acc = acc + d * unit;
        i += 1;
    }
    assert(f@.skip(i as int).len() == 0);
    acc
}

/// Reads decimal seconds into microseconds.
pub fn parse_decimal(text: &[char]) -> (micros: Option<u64>)
    ensures
        micros == seconds_value(text@),
{
    let dot = find_char(text, '.');
    proof {
        lemma_position(text@, '.');
    }
    let whole = slice_subrange(text, 0, dot);
    let fraction = if dot < text.len() {
        slice_subrange(text, dot + 1, text.len())
    } else {
        slice_subrange(text, dot, dot)
    };
    assert(whole@ == whole_part(text@));
    assert(fraction@ == fraction_part(text@));
    if whole.len() == 0 && fraction.len() == 0 {
        return None;
    }
    if !only_digits(whole) || !only_digits(fraction) {
        return None;
    }
    let part = fraction_micros(fraction);
    match number(whole) {
        None => None,
        Some(seconds) => {
            let total: u128 = (seconds as u128) * (MICROS_PER_SECOND as u128) + (part as u128);
            if total > u64::MAX as u128 {
                None
            } else {
                Some(total as u64)
            }
        },
    }
}

/// Reads decimal seconds, such as `12.5`, into microseconds. The text is a
/// run of digits, optionally followed by a point and another run of digits,
/// with at least one digit in all; any other text, and a number too large
/// for 64 bits of microseconds, gives `None`.
pub fn parse_seconds(text: &str) -> (micros: Option<u64>)
    ensures
        micros == seconds_value(text@),
{
    let chars = chars_of(text);
    parse_decimal(chars.as_slice())
}

/// The digits that write `n` in base ten, without leading zeros.
pub open spec fn digits_of(n: nat) -> Seq<char>
    decreases n,
{
    if n < 10 {
        seq![digit_char(n)]
    } else {
        digits_of(n / 10).push(digit_char(n % 10))
    }
}

/// `k` zeros.
pub open spec fn zeros(k: nat) -> Seq<char> {
    Seq::new(k, |i: int| '0')
}

/// The digits of `n`, with zeros in front where they are fewer than `width`.
pub open spec fn zero_padded(n: nat, width: nat) -> Seq<char> {
    if digits_of(n).len() < width {
        zeros((width - digits_of(n).len()) as nat) + digits_of(n)
    } else {
        digits_of(n)
    }
}

/// What `digits_of` writes are digits, at least one of them, and no more
/// than the size of the number calls for.
pub proof fn lemma_digits_of_are_digits(n: nat)
    ensures
        all_digits(digits_of(n)),
        digits_of(n).len() >= 1,
        n < 10 ==> digits_of(n).len() == 1,
        10 <= n < 100 ==> digits_of(n).len() == 2,
        100 <= n < 1000 ==> digits_of(n).len() == 3,
        n < 10_000 ==> digits_of(n).len() <= 4,
        n < 100_000 ==> digits_of(n).len() <= 5,
        n < 1_000_000 ==> digits_of(n).len() <= 6,
    decreases n,
{
    if n >= 10 {
        lemma_digits_of_are_digits(n / 10);
    }
}

/// Reading the digits of `n` gives `n` back.
pub proof fn lemma_digits_value_of(n: nat)
    ensures
        digits_value(digits_of(n)) == n,
    decreases n,
{
    if n < 10 {
        assert(digits_of(n).drop_last() == Seq::<char>::empty());
        assert(digits_value(digits_of(n).drop_last()) == 0);
    } else {
        lemma_digits_value_of(n / 10);
        lemma_digits_value_push(digits_of(n / 10), digit_char(n % 10));
    }
}

/// Zeros in front do not change what digits are worth.
pub proof fn lemma_digits_value_zeros(k: nat, s: Seq<char>)
    ensures
        digits_value(zeros(k) + s) == digits_value(s),
    decreases s.len(), k,
{
    if s.len() > 0 {
        assert((zeros(k) + s).drop_last() == zeros(k) + s.drop_last());
        lemma_digits_value_zeros(k, s.drop_last());
    } else if k > 0 {
        assert(zeros(k) + s == zeros(k));
        assert(zeros(k).drop_last() == zeros((k - 1) as nat) + Seq::<char>::empty());
        lemma_digits_value_zeros((k - 1) as nat, Seq::empty());
    } else {
        assert(zeros(k) + s == Seq::<char>::empty());
    }
}

/// A padded number is made of digits, is at least `width` long, and reads
/// back as the number.
pub proof fn lemma_zero_padded(n: nat, width: nat)
    ensures
        all_digits(zero_padded(n, width)),
        zero_padded(n, width).len() >= width,
        zero_padded(n, width).len() >= 1,
        digits_of(n).len() <= width ==> zero_padded(n, width).len() == width,
        digits_value(zero_padded(n, width)) == n,
{
    lemma_digits_of_are_digits(n);
    lemma_digits_value_of(n);
    if digits_of(n).len() < width {
        lemma_digits_value_zeros((width - digits_of(n).len()) as nat, digits_of(n));
    }
}

/// Appends the digits of `n` to `out`.
pub fn push_number(out: &mut Vec<char>, n: u64)
    ensures
        final(out)@ == old(out)@ + digits_of(n as nat),
    decreases n,
{
    if n >= 10 {
        push_number(out, n / 10);
    }
    let d: u8 = (n % 10) as u8;
    out.push((48u8 + d) as char);
}

/// Appends the digits of `n` to `out`, with zeros in front of them where
/// they are fewer than `width`.
pub fn push_padded(out: &mut Vec<char>, n: u64, width: usize)
    ensures
        final(out)@ == old(out)@ + zero_padded(n as nat, width as nat),
{
    let ghost before = out@;
    let mut digits: Vec<char> = Vec::new();
    push_number(&mut digits, n);
    assert(digits@ == digits_of(n as nat));
    let mut missing: usize = if digits.len() < width {
        width - digits.len()
    } else {
        0
    };
    let ghost pad = missing as nat;
    while missing > 0
        invariant
            missing <= pad,
            out@ == before + zeros((pad - missing) as nat),
        decreases missing,
    {
        out.push('0');
        missing -= 1;
    }
    push_all(out, digits.as_slice());
    assert(zeros(0) + digits@ == digits@);
}

} // verus!
