use vstd::prelude::*;
use vstd::arithmetic::div_mod::{
    lemma_div_denominator, lemma_div_is_ordered, lemma_div_pos_is_pos, lemma_fundamental_div_mod,
    lemma_mod_bound, lemma_small_mod,
};
use crate::ascii::{ascii_to_string, chars_of, is_ascii_bytes};

verus! {

/// A calendar instant with microsecond resolution, conceptually UTC.
///
/// The protocol never does calendar arithmetic on an instant: it only
/// moves the fields between the two textual encodings, so the instant is
/// kept as its calendar fields.
#[derive(Clone, Copy, Debug, PartialEq, Eq, Structural)]
pub struct Timestamp {
    pub year: u32,
    pub month: u32,
    pub day: u32,
    pub hour: u32,
    pub minute: u32,
    pub second: u32,
    pub microsecond: u32,
}

impl Timestamp {
    /// The fields fit the fixed-width textual encodings of the protocol.
    pub open spec fn wf(self) -> bool {
        &&& self.year <= 9999
        &&& self.month <= 99
        &&& self.day <= 99
        &&& self.hour <= 99
        &&& self.minute <= 99
        &&& self.second <= 99
        &&& self.microsecond <= 999_999
    }
}

/// A fixed-width numeric field of a date token could not be read.
#[derive(Clone, Copy, Debug, PartialEq, Eq, Structural)]
pub enum DateParseError {
    /// The token ends before the field does.
    TooShort,
    /// A byte inside the field is not a decimal digit.
    NotANumber,
}

pub open spec fn is_digit(b: u8) -> bool {
    48 <= b <= 57
}

pub open spec fn dval(b: u8) -> int {
    b - 48
}

pub open spec fn digit8(d: int) -> u8 {
    (48 + d) as u8
}

/// `n` in two decimal digits, least significant two only.
pub open spec fn fmt2(n: int) -> Seq<u8> {
    seq![digit8((n / 10) % 10), digit8(n % 10)]
}

/// `n` in three decimal digits, least significant three only.
pub open spec fn fmt3(n: int) -> Seq<u8> {
    seq![digit8((n / 100) % 10), digit8((n / 10) % 10), digit8(n % 10)]
}

/// `n` in four decimal digits, least significant four only.
pub open spec fn fmt4(n: int) -> Seq<u8> {
    seq![digit8((n / 1000) % 10), digit8((n / 100) % 10), digit8((n / 10) % 10), digit8(n % 10)]
}

/// `n` in six decimal digits, least significant six only.
pub open spec fn fmt6(n: int) -> Seq<u8> {
    fmt3((n / 1000) % 1000) + fmt3(n % 1000)
}

pub open spec fn all_digits(s: Seq<u8>, from: int, to: int) -> bool {
    forall|k: int| from <= k < to ==> is_digit(#[trigger] s[k])
}

pub open spec fn val2(s: Seq<u8>, i: int) -> int {
    10 * dval(s[i]) + dval(s[i + 1])
}

pub open spec fn val3(s: Seq<u8>, i: int) -> int {
    100 * dval(s[i]) + 10 * dval(s[i + 1]) + dval(s[i + 2])
}

pub open spec fn val4(s: Seq<u8>, i: int) -> int {
    1000 * dval(s[i]) + 100 * dval(s[i + 1]) + 10 * dval(s[i + 2]) + dval(s[i + 3])
}

/// The compact feed-wire rendering of an instant: `YYYYMMDDHHMMSS`,
/// followed by `.mmm` when the sub-second part is not zero.
pub open spec fn wire_date_bytes(ts: Timestamp) -> Seq<u8> {
    fmt4(ts.year as int) + fmt2(ts.month as int) + fmt2(ts.day as int) + fmt2(ts.hour as int)
        + fmt2(ts.minute as int) + fmt2(ts.second as int) + if ts.microsecond == 0 {
        Seq::<u8>::empty()
    } else {
        seq![46u8] + fmt3(ts.microsecond as int / 1000)
    }
}

/// The report rendering of an instant: `YYYYMMDD-HH:MM:SS.mmm`,
/// milliseconds truncated.
pub open spec fn fix_date_bytes(ts: Timestamp) -> Seq<u8> {
    fmt4(ts.year as int) + fmt2(ts.month as int) + fmt2(ts.day as int) + seq![45u8] + fmt2(
        ts.hour as int,
    ) + seq![58u8] + fmt2(ts.minute as int) + seq![58u8] + fmt2(ts.second as int) + seq![46u8]
        + fmt3(ts.microsecond as int / 1000)
}

/// What parsing a feed-wire date token yields: the six two-to-four digit
/// fields sit at fixed offsets `0..14`; a token of at least 15 bytes also
/// carries milliseconds at offsets `15..18`, any later bytes are ignored.
pub open spec fn spec_parse_tcp_feed_date(s: Seq<u8>) -> Result<Timestamp, DateParseError> {
    if s.len() < 14 {
        Err(DateParseError::TooShort)
    } else if !all_digits(s, 0, 14) {
        Err(DateParseError::NotANumber)
    } else if s.len() == 14 {
        Ok(
            Timestamp {
                year: val4(s, 0) as u32,
                month: val2(s, 4) as u32,
                day: val2(s, 6) as u32,
                hour: val2(s, 8) as u32,
                minute: val2(s, 10) as u32,
                second: val2(s, 12) as u32,
                microsecond: 0,
            },
        )
    } else if s.len() < 18 {
        Err(DateParseError::TooShort)
    } else if !all_digits(s, 15, 18) {
        Err(DateParseError::NotANumber)
    } else {
        Ok(
            Timestamp {
                year: val4(s, 0) as u32,
                month: val2(s, 4) as u32,
                day: val2(s, 6) as u32,
                hour: val2(s, 8) as u32,
                minute: val2(s, 10) as u32,
                second: val2(s, 12) as u32,
                microsecond: (val3(s, 15) * 1000) as u32,
            },
        )
    }
}

fn push2(out: &mut Vec<u8>, n: u32)
    ensures
        final(out)@ =~= old(out)@ + fmt2(n as int),
{
    out.push((48 + (n / 10) % 10) as u8);
    out.push((48 + n % 10) as u8);
}

fn push3(out: &mut Vec<u8>, n: u32)
    ensures
        final(out)@ =~= old(out)@ + fmt3(n as int),
{
    out.push((48 + (n / 100) % 10) as u8);
    out.push((48 + (n / 10) % 10) as u8);
    out.push((48 + n % 10) as u8);
}

fn push4(out: &mut Vec<u8>, n: u32)
    ensures
        final(out)@ =~= old(out)@ + fmt4(n as int),
{
    out.push((48 + (n / 1000) % 10) as u8);
    out.push((48 + (n / 100) % 10) as u8);
    out.push((48 + (n / 10) % 10) as u8);
    out.push((48 + n % 10) as u8);
}

/// Appends the feed-wire rendering of an instant to `out`: the date and
/// time fields back to back without separators, then `.mmm` only when the
/// instant has a non-zero sub-second part.
pub fn write_date(out: &mut Vec<u8>, ts: &Timestamp)
    ensures
        final(out)@ =~= old(out)@ + wire_date_bytes(*ts),
{
    push4(out, ts.year);
    push2(out, ts.month);
    push2(out, ts.day);
    push2(out, ts.hour);
    push2(out, ts.minute);
    push2(out, ts.second);
    if ts.microsecond != 0 {
        out.push(46);
        push3(out, ts.microsecond / 1000);
    }
}

/// Reports whether the bytes of `s` at offsets `from..to` are all decimal
/// digits.
fn check_digits(s: &[u8], from: usize, to: usize) -> (r: bool)
    requires
        from <= to <= s@.len(),
    ensures
        r == all_digits(s@, from as int, to as int),
{
    let mut i: usize = from;
    while i < to
        invariant
            from <= i <= to <= s@.len(),
            forall|k: int| from <= k < i ==> is_digit(#[trigger] s@[k]),
        decreases to - i,
    {
        let b = *vstd::slice::slice_index_get(s, i);
        if b < 48 || b > 57 {
            return false;
        }
        i += 1;
    }
    true
}

fn field2(s: &[u8], i: usize) -> (n: u32)
    requires
        i + 2 <= s@.len(),
        all_digits(s@, i as int, i + 2),
    ensures
        n == val2(s@, i as int),
        n <= 99,
{
    let len = s.len();
    assert(i + 2 <= len);
    let a = *vstd::slice::slice_index_get(s, i);
    let b = *vstd::slice::slice_index_get(s, i + 1);
    assert(is_digit(s@[i as int]) && is_digit(s@[i + 1]));
    10 * ((a - 48) as u32) + ((b - 48) as u32)
}

fn field3(s: &[u8], i: usize) -> (n: u32)
    requires
        i + 3 <= s@.len(),
        all_digits(s@, i as int, i + 3),
    ensures
        n == val3(s@, i as int),
        n <= 999,
{
    let len = s.len();
    assert(i + 3 <= len);
    let a = *vstd::slice::slice_index_get(s, i);
    let b = *vstd::slice::slice_index_get(s, i + 1);
    let c = *vstd::slice::slice_index_get(s, i + 2);
    assert(is_digit(s@[i as int]) && is_digit(s@[i + 1]) && is_digit(s@[i + 2]));
    100 * ((a - 48) as u32) + 10 * ((b - 48) as u32) + ((c - 48) as u32)
}

fn field4(s: &[u8], i: usize) -> (n: u32)
    requires
        i + 4 <= s@.len(),
        all_digits(s@, i as int, i + 4),
    ensures
        n == val4(s@, i as int),
        n <= 9999,
{
    let len = s.len();
    assert(i + 4 <= len);
    let a = *vstd::slice::slice_index_get(s, i);
    let b = *vstd::slice::slice_index_get(s, i + 1);
    let c = *vstd::slice::slice_index_get(s, i + 2);
    let d = *vstd::slice::slice_index_get(s, i + 3);
    assert(is_digit(s@[i as int]) && is_digit(s@[i + 1]) && is_digit(s@[i + 2]) && is_digit(
        s@[i + 3],
    ));
    1000 * ((a - 48) as u32) + 100 * ((b - 48) as u32) + 10 * ((c - 48) as u32) + ((d - 48) as u32)
}

/// Parses a feed-wire date token: `YYYYMMDDHHMMSS` at offsets `0..14`,
/// milliseconds at offsets `15..18` when the token is at least 15 bytes,
/// zero otherwise. Bytes past offset 18 are ignored.
pub fn parse_tcp_feed_date(date: &[u8]) -> (r: Result<Timestamp, DateParseError>)
    ensures
        r == spec_parse_tcp_feed_date(date@),
        r matches Ok(ts) ==> ts.wf(),
{
    if date.len() < 14 {
        return Err(DateParseError::TooShort);
    }
    if !check_digits(date, 0, 14) {
        return Err(DateParseError::NotANumber);
    }
    let year = field4(date, 0);
    let month = field2(date, 4);
    let day = field2(date, 6);
    let hour = field2(date, 8);
    let minute = field2(date, 10);
    let second = field2(date, 12);
    if date.len() == 14 {
        return Ok(Timestamp { year, month, day, hour, minute, second, microsecond: 0 });
    }
    if date.len() < 18 {
        return Err(DateParseError::TooShort);
    }
    if !check_digits(date, 15, 18) {
        return Err(DateParseError::NotANumber);
    }
    let millis = field3(date, 15);
    Ok(Timestamp { year, month, day, hour, minute, second, microsecond: millis * 1000 })
}

/// `n` splits into its two lowest decimal digits.
proof fn lemma_dec2(n: int)
    requires
        0 <= n <= 99,
    ensures
        10 * (n / 10 % 10) + n % 10 == n,
        0 <= n / 10 % 10 <= 9,
        0 <= n % 10 <= 9,
{
    lemma_fundamental_div_mod(n, 10);
    lemma_mod_bound(n, 10);
    lemma_div_pos_is_pos(n, 10);
    lemma_div_is_ordered(n, 99, 10);
    lemma_small_mod((n / 10) as nat, 10);
}

/// `n` splits into its three lowest decimal digits.
proof fn lemma_dec3(n: int)
    requires
        0 <= n <= 999,
    ensures
        100 * (n / 100 % 10) + 10 * (n / 10 % 10) + n % 10 == n,
        0 <= n / 100 % 10 <= 9,
        0 <= n / 10 % 10 <= 9,
        0 <= n % 10 <= 9,
{
    lemma_fundamental_div_mod(n, 10);
    lemma_fundamental_div_mod(n / 10, 10);
    lemma_div_denominator(n, 10, 10);
    lemma_mod_bound(n, 10);
    lemma_mod_bound(n / 10, 10);
    lemma_div_pos_is_pos(n, 100);
    lemma_div_is_ordered(n, 999, 100);
    lemma_small_mod((n / 100) as nat, 10);
}

/// `n` splits into its four lowest decimal digits.
proof fn lemma_dec4(n: int)
    requires
        0 <= n <= 9999,
    ensures
        1000 * (n / 1000 % 10) + 100 * (n / 100 % 10) + 10 * (n / 10 % 10) + n % 10 == n,
        0 <= n / 1000 % 10 <= 9,
        0 <= n / 100 % 10 <= 9,
        0 <= n / 10 % 10 <= 9,
        0 <= n % 10 <= 9,
{
    lemma_fundamental_div_mod(n, 10);
    lemma_fundamental_div_mod(n / 10, 10);
    lemma_div_denominator(n, 10, 10);
    lemma_fundamental_div_mod(n / 100, 10);
    lemma_div_denominator(n, 100, 10);
    lemma_mod_bound(n, 10);
    lemma_mod_bound(n / 10, 10);
    lemma_mod_bound(n / 100, 10);
    lemma_div_pos_is_pos(n, 1000);
    lemma_div_is_ordered(n, 9999, 1000);
    lemma_small_mod((n / 1000) as nat, 10);
}

/// The two bytes at offset `i` of `s` spell `n` in decimal.
proof fn lemma_fmt2_at(s: Seq<u8>, i: int, n: int)
    requires
        0 <= n <= 99,
        0 <= i,
        i + 2 <= s.len(),
        s.subrange(i, i + 2) =~= fmt2(n),
    ensures
        all_digits(s, i, i + 2),
        val2(s, i) == n,
{
    lemma_dec2(n);
    assert(s[i] == digit8(n / 10 % 10));
    assert(s[i + 1] == digit8(n % 10));
}

proof fn lemma_fmt3_at(s: Seq<u8>, i: int, n: int)
    requires
        0 <= n <= 999,
        0 <= i,
        i + 3 <= s.len(),
        s.subrange(i, i + 3) =~= fmt3(n),
    ensures
        all_digits(s, i, i + 3),
        val3(s, i) == n,
{
    lemma_dec3(n);
    assert(s[i] == digit8(n / 100 % 10));
    assert(s[i + 1] == digit8(n / 10 % 10));
    assert(s[i + 2] == digit8(n % 10));
}

proof fn lemma_fmt4_at(s: Seq<u8>, i: int, n: int)
    requires
        0 <= n <= 9999,
        0 <= i,
        i + 4 <= s.len(),
        s.subrange(i, i + 4) =~= fmt4(n),
    ensures
        all_digits(s, i, i + 4),
        val4(s, i) == n,
{
    lemma_dec4(n);
    assert(s[i] == digit8(n / 1000 % 10));
    assert(s[i + 1] == digit8(n / 100 % 10));
    assert(s[i + 2] == digit8(n / 10 % 10));
    assert(s[i + 3] == digit8(n % 10));
}

/// Law: rendering an instant to the feed-wire form and parsing it back
/// reproduces the instant exactly, for every representable instant whose
/// sub-second part has millisecond granularity.
#[verifier::rlimit(100)]
#[verifier::spinoff_prover]
pub proof fn lemma_wire_date_round_trip(ts: Timestamp)
    requires
        ts.wf(),
        ts.microsecond % 1000 == 0,
    ensures
        spec_parse_tcp_feed_date(wire_date_bytes(ts)) == Ok::<Timestamp, DateParseError>(ts),
{
    let y = ts.year as int;
    let mo = ts.month as int;
    let d = ts.day as int;
    let h = ts.hour as int;
    let mi = ts.minute as int;
    let sec = ts.second as int;
    let ms = ts.microsecond as int / 1000;
    let s = wire_date_bytes(ts);
    assert(s.len() == if ts.microsecond == 0 { 14int } else { 18int });
    assert(s.subrange(0, 4) =~= fmt4(y));
    assert(s.subrange(4, 6) =~= fmt2(mo));
    assert(s.subrange(6, 8) =~= fmt2(d));
    assert(s.subrange(8, 10) =~= fmt2(h));
    assert(s.subrange(10, 12) =~= fmt2(mi));
    assert(s.subrange(12, 14) =~= fmt2(sec));
    lemma_fmt4_at(s, 0, y);
    lemma_fmt2_at(s, 4, mo);
    lemma_fmt2_at(s, 6, d);
    lemma_fmt2_at(s, 8, h);
    lemma_fmt2_at(s, 10, mi);
    lemma_fmt2_at(s, 12, sec);
    assert(all_digits(s, 0, 14));
    if ts.microsecond != 0 {
        assert(s.subrange(15, 18) =~= fmt3(ms));
        lemma_fmt3_at(s, 15, ms);
        assert(ms * 1000 == ts.microsecond as int);
    }
}

pub open spec fn is_digit_char(c: char) -> bool {
    '0' <= c <= '9'
}

pub open spec fn cdval(c: char) -> int {
    c as u32 - 48
}

pub open spec fn all_digit_chars(s: Seq<char>, from: int, to: int) -> bool {
    forall|k: int| from <= k < to ==> is_digit_char(#[trigger] s[k])
}

pub open spec fn cval2(s: Seq<char>, i: int) -> int {
    10 * cdval(s[i]) + cdval(s[i + 1])
}

pub open spec fn cval3(s: Seq<char>, i: int) -> int {
    100 * cdval(s[i]) + 10 * cdval(s[i + 1]) + cdval(s[i + 2])
}

pub open spec fn cval4(s: Seq<char>, i: int) -> int {
    1000 * cdval(s[i]) + 100 * cdval(s[i + 1]) + 10 * cdval(s[i + 2]) + cdval(s[i + 3])
}

/// What parsing a report date string yields: digit fields at the fixed
/// character offsets of `YYYYMMDD-HH:MM:SS.mmm`; the separator positions
/// are not inspected, and characters past offset 21 are ignored.
pub open spec fn spec_parse_fix_date(s: Seq<char>) -> Result<Timestamp, DateParseError> {
    if s.len() < 21 {
        Err(DateParseError::TooShort)
    } else if !(all_digit_chars(s, 0, 8) && all_digit_chars(s, 9, 11) && all_digit_chars(s, 12, 14)
        && all_digit_chars(s, 15, 17) && all_digit_chars(s, 18, 21)) {
        Err(DateParseError::NotANumber)
    } else {
        Ok(
            Timestamp {
                year: cval4(s, 0) as u32,
                month: cval2(s, 4) as u32,
                day: cval2(s, 6) as u32,
                hour: cval2(s, 9) as u32,
                minute: cval2(s, 12) as u32,
                second: cval2(s, 15) as u32,
                microsecond: (cval3(s, 18) * 1000) as u32,
            },
        )
    }
}

fn check_digit_chars(s: &str, from: usize, to: usize) -> (r: bool)
    requires
        from <= to <= s@.len(),
    ensures
        r == all_digit_chars(s@, from as int, to as int),
{
    let mut i: usize = from;
    while i < to
        invariant
            from <= i <= to <= s@.len(),
            forall|k: int| from <= k < i ==> is_digit_char(#[trigger] s@[k]),
        decreases to - i,
    {
        let c = s.get_char(i);
        if c < '0' || c > '9' {
            return false;
        }
        i += 1;
    }
    true
}

fn cfield2(s: &str, i: usize) -> (n: u32)
    requires
        i + 2 <= s@.len(),
        all_digit_chars(s@, i as int, i + 2),
    ensures
        n == cval2(s@, i as int),
        n <= 99,
{
    let len = s.unicode_len();
    assert(i + 2 <= len);
    let a = s.get_char(i) as u32;
    let b = s.get_char(i + 1) as u32;
    assert(is_digit_char(s@[i as int]) && is_digit_char(s@[i + 1]));
    10 * (a - 48) + (b - 48)
}

fn cfield3(s: &str, i: usize) -> (n: u32)
    requires
        i + 3 <= s@.len(),
        all_digit_chars(s@, i as int, i + 3),
    ensures
        n == cval3(s@, i as int),
        n <= 999,
{
    let len = s.unicode_len();
    assert(i + 2 <= len);
    let a = s.get_char(i) as u32;
    let b = s.get_char(i + 1) as u32;
    let c = s.get_char(i + 2) as u32;
    assert(is_digit_char(s@[i as int]) && is_digit_char(s@[i + 1]) && is_digit_char(s@[i + 2]));
    100 * (a - 48) + 10 * (b - 48) + (c - 48)
}

fn cfield4(s: &str, i: usize) -> (n: u32)
    requires
        i + 4 <= s@.len(),
        all_digit_chars(s@, i as int, i + 4),
    ensures
        n == cval4(s@, i as int),
        n <= 9999,
{
    let len = s.unicode_len();
    assert(i + 3 <= len);
    let a = s.get_char(i) as u32;
    let b = s.get_char(i + 1) as u32;
    let c = s.get_char(i + 2) as u32;
    let d = s.get_char(i + 3) as u32;
    assert(is_digit_char(s@[i as int]) && is_digit_char(s@[i + 1]) && is_digit_char(s@[i + 2])
        && is_digit_char(s@[i + 3]));
    1000 * (a - 48) + 100 * (b - 48) + 10 * (c - 48) + (d - 48)
}

/// Parses a report date string `YYYYMMDD-HH:MM:SS.mmm` by its fixed
/// character offsets.
pub fn parse_fix_date(date: &str) -> (r: Result<Timestamp, DateParseError>)
    ensures
        r == spec_parse_fix_date(date@),
        r matches Ok(ts) ==> ts.wf(),
{
    let n = date.unicode_len();
    if n < 21 {
        return Err(DateParseError::TooShort);
    }
    if !(check_digit_chars(date, 0, 8) && check_digit_chars(date, 9, 11) && check_digit_chars(
        date,
        12,
        14,
    ) && check_digit_chars(date, 15, 17) && check_digit_chars(date, 18, 21)) {
        return Err(DateParseError::NotANumber);
    }
    let year = cfield4(date, 0);
    let month = cfield2(date, 4);
    let day = cfield2(date, 6);
    let hour = cfield2(date, 9);
    let minute = cfield2(date, 12);
    let second = cfield2(date, 15);
    let millis = cfield3(date, 18);
    Ok(Timestamp { year, month, day, hour, minute, second, microsecond: millis * 1000 })
}

proof fn lemma_fmt2_digits(n: int)
    requires
        0 <= n,
    ensures
        all_digits(fmt2(n), 0, 2),
{
    lemma_mod_bound(n, 10);
    lemma_div_pos_is_pos(n, 10);
    lemma_mod_bound(n / 10, 10);
}

proof fn lemma_fmt3_digits(n: int)
    requires
        0 <= n,
    ensures
        all_digits(fmt3(n), 0, 3),
{
    lemma_mod_bound(n, 10);
    lemma_div_pos_is_pos(n, 10);
    lemma_mod_bound(n / 10, 10);
    lemma_div_pos_is_pos(n, 100);
    lemma_mod_bound(n / 100, 10);
}

proof fn lemma_fmt4_digits(n: int)
    requires
        0 <= n,
    ensures
        all_digits(fmt4(n), 0, 4),
{
    lemma_fmt3_digits(n);
    lemma_div_pos_is_pos(n, 1000);
    lemma_mod_bound(n / 1000, 10);
    assert(fmt4(n)[0] == digit8(n / 1000 % 10));
    assert(fmt4(n)[1] == fmt3(n)[0]);
    assert(fmt4(n)[2] == fmt3(n)[1]);
    assert(fmt4(n)[3] == fmt3(n)[2]);
}

/// Every byte of the report rendering is ASCII.
proof fn lemma_fix_date_ascii(ts: Timestamp)
    ensures
        is_ascii_bytes(fix_date_bytes(ts)),
{
    let y = ts.year as int;
    let mo = ts.month as int;
    let d = ts.day as int;
    let h = ts.hour as int;
    let mi = ts.minute as int;
    let sec = ts.second as int;
    let ms = ts.microsecond as int / 1000;
    lemma_div_pos_is_pos(ts.microsecond as int, 1000);
    lemma_fmt4_digits(y);
    lemma_fmt2_digits(mo);
    lemma_fmt2_digits(d);
    lemma_fmt2_digits(h);
    lemma_fmt2_digits(mi);
    lemma_fmt2_digits(sec);
    lemma_fmt3_digits(ms);
    let b = fix_date_bytes(ts);
    assert forall|k: int| 0 <= k < b.len() implies #[trigger] b[k] < 128 by {
        if k < 4 {
            assert(b[k] == fmt4(y)[k]);
        } else if k < 6 {
            assert(b[k] == fmt2(mo)[k - 4]);
        } else if k < 8 {
            assert(b[k] == fmt2(d)[k - 6]);
        } else if k == 8 {
            assert(b[k] == 45);
        } else if k < 11 {
            assert(b[k] == fmt2(h)[k - 9]);
        } else if k == 11 {
            assert(b[k] == 58);
        } else if k < 14 {
            assert(b[k] == fmt2(mi)[k - 12]);
        } else if k == 14 {
            assert(b[k] == 58);
        } else if k < 17 {
            assert(b[k] == fmt2(sec)[k - 15]);
        } else if k == 17 {
            assert(b[k] == 46);
        } else {
            assert(b[k] == fmt3(ms)[k - 18]);
        }
    }
}

/// Renders an instant in the report form `YYYYMMDD-HH:MM:SS.mmm`,
/// milliseconds truncated, fields zero padded.
pub fn to_fix_date_string(src: Timestamp) -> (r: String)
    ensures
        r@ == chars_of(fix_date_bytes(src)),
{
    let mut out: Vec<u8> = Vec::new();
    push4(&mut out, src.year);
    push2(&mut out, src.month);
    push2(&mut out, src.day);
    out.push(45);
    push2(&mut out, src.hour);
    out.push(58);
    push2(&mut out, src.minute);
    out.push(58);
    push2(&mut out, src.second);
    out.push(46);
    push3(&mut out, src.microsecond / 1000);
    assert(out@ =~= fix_date_bytes(src));
    proof {
        lemma_fix_date_ascii(src);
    }
    ascii_to_string(out.as_slice())
}

/// Characters that are decimal digits spell the same digits as the bytes
/// beneath them.
proof fn lemma_digits_to_chars(b: Seq<u8>, from: int, to: int)
    requires
        0 <= from <= to <= b.len(),
        all_digits(b, from, to),
    ensures
        all_digit_chars(chars_of(b), from, to),
        forall|k: int| from <= k < to ==> cdval(#[trigger] chars_of(b)[k]) == dval(b[k]),
{
    assert forall|k: int| from <= k < to implies is_digit_char(#[trigger] chars_of(b)[k]) by {
        assert(is_digit(b[k]));
        assert(chars_of(b)[k] == b[k] as char);
    }
    assert forall|k: int| from <= k < to implies cdval(#[trigger] chars_of(b)[k]) == dval(b[k]) by {
        assert(is_digit(b[k]));
        assert(chars_of(b)[k] == b[k] as char);
    }
}

/// Law: rendering an instant in the report form and parsing it back
/// reproduces the instant exactly, for every representable instant whose
/// sub-second part has millisecond granularity.
#[verifier::rlimit(100)]
#[verifier::spinoff_prover]
pub proof fn lemma_fix_date_round_trip(ts: Timestamp)
    requires
        ts.wf(),
        ts.microsecond % 1000 == 0,
    ensures
        spec_parse_fix_date(chars_of(fix_date_bytes(ts))) == Ok::<Timestamp, DateParseError>(ts),
{
    let y = ts.year as int;
    let mo = ts.month as int;
    let d = ts.day as int;
    let h = ts.hour as int;
    let mi = ts.minute as int;
    let sec = ts.second as int;
    let ms = ts.microsecond as int / 1000;
    lemma_div_pos_is_pos(ts.microsecond as int, 1000);
    lemma_div_is_ordered(ts.microsecond as int, 999_999, 1000);
    let b = fix_date_bytes(ts);
    let s = chars_of(b);
    assert(b.subrange(0, 4) =~= fmt4(y));
    assert(b.subrange(4, 6) =~= fmt2(mo));
    assert(b.subrange(6, 8) =~= fmt2(d));
    assert(b.subrange(9, 11) =~= fmt2(h));
    assert(b.subrange(12, 14) =~= fmt2(mi));
    assert(b.subrange(15, 17) =~= fmt2(sec));
    assert(b.subrange(18, 21) =~= fmt3(ms));
    lemma_fmt4_at(b, 0, y);
    lemma_fmt2_at(b, 4, mo);
    lemma_fmt2_at(b, 6, d);
    lemma_fmt2_at(b, 9, h);
    lemma_fmt2_at(b, 12, mi);
    lemma_fmt2_at(b, 15, sec);
    lemma_fmt3_at(b, 18, ms);
    lemma_digits_to_chars(b, 0, 8);
    lemma_digits_to_chars(b, 9, 11);
    lemma_digits_to_chars(b, 12, 14);
    lemma_digits_to_chars(b, 15, 17);
    lemma_digits_to_chars(b, 18, 21);
    assert(cval4(s, 0) == val4(b, 0));
    assert(cval2(s, 4) == val2(b, 4));
    assert(cval2(s, 6) == val2(b, 6));
    assert(cval2(s, 9) == val2(b, 9));
    assert(cval2(s, 12) == val2(b, 12));
    assert(cval2(s, 15) == val2(b, 15));
    assert(cval3(s, 18) == val3(b, 18));
    assert(ms * 1000 == ts.microsecond as int);
}

/// No byte of the feed-wire rendering is a space: the fields are digits
/// and the sub-second part starts with a dot.
pub proof fn lemma_wire_date_no_space(ts: Timestamp)
    ensures
        forall|k: int|
            0 <= k < wire_date_bytes(ts).len() ==> #[trigger] wire_date_bytes(ts)[k] != 32,
{
    let y = ts.year as int;
    let mo = ts.month as int;
    let d = ts.day as int;
    let h = ts.hour as int;
    let mi = ts.minute as int;
    let sec = ts.second as int;
    let ms = ts.microsecond as int / 1000;
    lemma_div_pos_is_pos(ts.microsecond as int, 1000);
    lemma_fmt4_digits(y);
    lemma_fmt2_digits(mo);
    lemma_fmt2_digits(d);
    lemma_fmt2_digits(h);
    lemma_fmt2_digits(mi);
    lemma_fmt2_digits(sec);
    lemma_fmt3_digits(ms);
    let b = wire_date_bytes(ts);
    assert forall|k: int| 0 <= k < b.len() implies #[trigger] b[k] != 32 by {
        if k < 4 {
            assert(b[k] == fmt4(y)[k]);
        } else if k < 6 {
            assert(b[k] == fmt2(mo)[k - 4]);
        } else if k < 8 {
            assert(b[k] == fmt2(d)[k - 6]);
        } else if k < 10 {
            assert(b[k] == fmt2(h)[k - 8]);
        } else if k < 12 {
            assert(b[k] == fmt2(mi)[k - 10]);
        } else if k < 14 {
            assert(b[k] == fmt2(sec)[k - 12]);
        } else if k == 14 {
            assert(b[k] == 46);
        } else {
            assert(b[k] == fmt3(ms)[k - 15]);
        }
    }
}

/// An ISO-like rendering of an instant, always with the `+00:00` offset:
/// `YYYY-MM-DDTHH:MM:SS`, then nothing when the sub-second part is zero,
/// `.mmm` when it has millisecond granularity, `.mmmmmm` otherwise.
pub open spec fn rfc3339_bytes(ts: Timestamp) -> Seq<u8> {
    fmt4(ts.year as int) + seq![45u8] + fmt2(ts.month as int) + seq![45u8] + fmt2(ts.day as int)
        + seq![84u8] + fmt2(ts.hour as int) + seq![58u8] + fmt2(ts.minute as int) + seq![58u8]
        + fmt2(ts.second as int) + if ts.microsecond == 0 {
        Seq::<u8>::empty()
    } else if ts.microsecond % 1000 == 0 {
        seq![46u8] + fmt3(ts.microsecond as int / 1000)
    } else {
        seq![46u8] + fmt6(ts.microsecond as int)
    } + seq![43u8, 48u8, 48u8, 58u8, 48u8, 48u8]
}

/// Every byte of the ISO-like rendering is ASCII.
proof fn lemma_rfc3339_ascii(ts: Timestamp)
    ensures
        is_ascii_bytes(rfc3339_bytes(ts)),
{
    let y = ts.year as int;
    let mo = ts.month as int;
    let d = ts.day as int;
    let h = ts.hour as int;
    let mi = ts.minute as int;
    let sec = ts.second as int;
    let us = ts.microsecond as int;
    lemma_div_pos_is_pos(us, 1000);
    lemma_mod_bound(us, 1000);
    lemma_fmt4_digits(y);
    lemma_fmt2_digits(mo);
    lemma_fmt2_digits(d);
    lemma_fmt2_digits(h);
    lemma_fmt2_digits(mi);
    lemma_fmt2_digits(sec);
    lemma_fmt3_digits(us / 1000);
    lemma_fmt3_digits(us / 1000 % 1000);
    lemma_fmt3_digits(us % 1000);
    lemma_mod_bound(us / 1000, 1000);
    let b = rfc3339_bytes(ts);
    let frac = if ts.microsecond == 0 {
        Seq::<u8>::empty()
    } else if ts.microsecond % 1000 == 0 {
        seq![46u8] + fmt3(us / 1000)
    } else {
        seq![46u8] + fmt6(us)
    };
    let fl = frac.len() as int;
    assert forall|k: int| 0 <= k < b.len() implies #[trigger] b[k] < 128 by {
        if k < 4 {
            assert(b[k] == fmt4(y)[k]);
        } else if k == 4 {
            assert(b[k] == 45);
        } else if k < 7 {
            assert(b[k] == fmt2(mo)[k - 5]);
        } else if k == 7 {
            assert(b[k] == 45);
        } else if k < 10 {
            assert(b[k] == fmt2(d)[k - 8]);
        } else if k == 10 {
            assert(b[k] == 84);
        } else if k < 13 {
            assert(b[k] == fmt2(h)[k - 11]);
        } else if k == 13 {
            assert(b[k] == 58);
        } else if k < 16 {
            assert(b[k] == fmt2(mi)[k - 14]);
        } else if k == 16 {
            assert(b[k] == 58);
        } else if k < 19 {
            assert(b[k] == fmt2(sec)[k - 17]);
        } else if k < 19 + fl {
            assert(b[k] == frac[k - 19]);
            if k == 19 {
                assert(frac[0] == 46);
            } else if ts.microsecond % 1000 == 0 {
                assert(frac[k - 19] == fmt3(us / 1000)[k - 20]);
            } else {
                assert(frac[k - 19] == fmt6(us)[k - 20]);
                if k - 20 < 3 {
                    assert(fmt6(us)[k - 20] == fmt3(us / 1000 % 1000)[k - 20]);
                } else {
                    assert(fmt6(us)[k - 20] == fmt3(us % 1000)[k - 23]);
                }
            }
        } else {
            assert(b[k] == seq![43u8, 48u8, 48u8, 58u8, 48u8, 48u8][k - 19 - fl]);
        }
    }
}

impl Timestamp {
    /// Renders the instant in the ISO-like form with a `+00:00` offset,
    /// with as many sub-second digits as its granularity asks for.
    pub fn to_rfc3339(&self) -> (r: String)
        ensures
            r@ == chars_of(rfc3339_bytes(*self)),
    {
        let mut out: Vec<u8> = Vec::new();
        push4(&mut out, self.year);
        out.push(45);
        push2(&mut out, self.month);
        out.push(45);
        push2(&mut out, self.day);
        out.push(84);
        push2(&mut out, self.hour);
        out.push(58);
        push2(&mut out, self.minute);
        out.push(58);
        push2(&mut out, self.second);
        if self.microsecond != 0 {
            out.push(46);
            if self.microsecond % 1000 == 0 {
                push3(&mut out, self.microsecond / 1000);
            } else {
                push3(&mut out, (self.microsecond / 1000) % 1000);
                push3(&mut out, self.microsecond % 1000);
            }
        }
        out.push(43);
        out.push(48);
        out.push(48);
        out.push(58);
        out.push(48);
        out.push(48);
        assert(out@ =~= rfc3339_bytes(*self));
        proof {
            lemma_rfc3339_ascii(*self);
        }
        ascii_to_string(out.as_slice())
    }
}

/// The number a sequence of decimal digit characters spells.
pub open spec fn digits_val(s: Seq<char>) -> int
    decreases s.len(),
{
    if s.len() == 0 {
        0
    } else {
        10 * digits_val(s.drop_last()) + cdval(s.last())
    }
}

proof fn lemma_digits_val_nonneg(s: Seq<char>)
    requires
        all_digit_chars(s, 0, s.len() as int),
    ensures
        digits_val(s) >= 0,
    decreases s.len(),
{
    if s.len() > 0 {
        assert(all_digit_chars(s.drop_last(), 0, s.len() - 1));
        lemma_digits_val_nonneg(s.drop_last());
        assert(is_digit_char(s.last()));
    }
}

proof fn lemma_digits_val_prefix_le(s: Seq<char>, i: int)
    requires
        all_digit_chars(s, 0, s.len() as int),
        0 <= i <= s.len(),
    ensures
        digits_val(s.take(i)) <= digits_val(s),
    decreases s.len() - i,
{
    if i == s.len() {
        assert(s.take(i) =~= s);
    } else {
        assert(s.take(i + 1).drop_last() =~= s.take(i));
        assert(s.take(i + 1).last() == s[i]);
        assert(all_digit_chars(s.take(i), 0, i));
        lemma_digits_val_nonneg(s.take(i));
        assert(is_digit_char(s[i]));
        assert(digits_val(s.take(i)) <= digits_val(s.take(i + 1)));
        lemma_digits_val_prefix_le(s, i + 1);
    }
}

/// Parses a string of decimal digits as a number. Yields the spelled
/// value exactly when the string is non-empty, all digits, and the value
/// fits the result type.
pub fn parse_number(src: &str) -> (r: Option<u64>)
    ensures
        (r is Some) <==> (src@.len() > 0 && all_digit_chars(src@, 0, src@.len() as int)
            && digits_val(src@) <= u64::MAX),
        r matches Some(v) ==> v == digits_val(src@),
{
    let n = src.unicode_len();
    if n == 0 {
        return None;
    }
    if !check_digit_chars(src, 0, n) {
        return None;
    }
    let mut v: u64 = 0;
    let mut i: usize = 0;
    while i < n
        invariant
            n == src@.len(),
            0 <= i <= n,
            all_digit_chars(src@, 0, n as int),
            v == digits_val(src@.take(i as int)),
        decreases n - i,
    {
        let c = src.get_char(i);
        assert(is_digit_char(src@[i as int]));
        let d = (c as u32 - 48) as u64;
        proof {
            assert(src@.take(i + 1).drop_last() =~= src@.take(i as int));
            assert(src@.take(i + 1).last() == src@[i as int]);
            lemma_fundamental_div_mod(u64::MAX - d, 10);
            lemma_mod_bound(u64::MAX - d, 10);
        }
        if v > (u64::MAX - d) / 10 {
            proof {
                assert(digits_val(src@.take(i + 1)) > u64::MAX);
                lemma_digits_val_prefix_le(src@, i + 1);
            }
            return None;
        }
        v = v * 10 + d;
        i += 1;
    }
    assert(src@.take(n as int) =~= src@);
    Some(v)
}

} // verus!

