//! Modification times as text: the ISO 8601 form with a UTC offset used in
//! listings (`2014-04-30T10:11:12+01:00`), the `touch -t` form, and the
//! conversion of a written date and time back to seconds since the epoch.

use vstd::prelude::*;
use crate::text::{
    is_ascii_seq, lemma_ascii_boundary, lemma_no_newline_char, lemma_no_newline_concat,
    lemma_no_newline_digits_or_word, no_newline, lemma_ascii_byte_len, lemma_zero_padded_reads_back, pow10,
    byte_len, byte_len_at_least, byte_slice, chars_of, find_boundary, has_boundary, boundary_index,
    is_boundary, lemma_byte_len_at_least_len, lemma_byte_len_concat, lemma_byte_len_prefix_monotone,
    parse_int, parse_int_exec, push_number, push_zero_padded, string_of, zero_padded,
};

verus! {

/// A broken-down local time as `localtime_r` fills it in (`struct tm`):
/// years since 1900, months from 0, and the offset from UTC in seconds.
#[derive(Clone, Copy, Debug)]
pub struct BrokenDownTime {
    pub tm_year: i32,
    pub tm_mon: i32,
    pub tm_mday: i32,
    pub tm_hour: i32,
    pub tm_min: i32,
    pub tm_sec: i32,
    pub tm_gmtoff: i64,
}

// ---------------------------------------------------------------------------
// The proleptic Gregorian calendar
// ---------------------------------------------------------------------------

pub open spec fn is_leap_year(y: int) -> bool {
    y % 4 == 0 && (y % 100 != 0 || y % 400 == 0)
}

/// Number of leap years in `1..y` (extended to all `y` by floor division).
pub open spec fn leap_years_before(y: int) -> int {
    (y - 1) / 4 - (y - 1) / 100 + (y - 1) / 400
}

/// Days in year `y` before the first day of month `m` (`0` = January).
pub open spec fn days_before_month(y: int, m: int) -> int {
    let common: int = if m == 0 {
        0
    } else if m == 1 {
        31
    } else if m == 2 {
        59
    } else if m == 3 {
        90
    } else if m == 4 {
        120
    } else if m == 5 {
        151
    } else if m == 6 {
        181
    } else if m == 7 {
        212
    } else if m == 8 {
        243
    } else if m == 9 {
        273
    } else if m == 10 {
        304
    } else {
        334
    };
    common + if m >= 2 && is_leap_year(y) {
        1int
    } else {
        0int
    }
}

/// Days from 1970-01-01 to day `d` of month `m` (`0` = January) of year `y`.
pub open spec fn days_since_epoch(y: int, m: int, d: int) -> int {
    365 * (y - 1970) + leap_years_before(y) - leap_years_before(1970) + days_before_month(y, m) + d
        - 1
}

/// What `timegm` computes: the seconds since the epoch of a UTC date and time,
/// given as a full year, a month counted from 0 and day, hour, minute and second.
/// Months outside `0..12` carry into the year, and the other fields add linearly,
/// as `timegm` normalises them.
pub open spec fn timegm(year: int, mon: int, mday: int, hour: int, min: int, sec: int) -> int {
    let y = year + mon / 12;
    let m = mon % 12;
    days_since_epoch(y, m, mday) * 86400 + hour * 3600 + min * 60 + sec
}

/// `timegm` for the field ranges that the listing format can hold.
pub fn timegm_exec(year: i64, mon: i64, mday: i64, hour: i64, min: i64, sec: i64) -> (r: i64)
    requires
        -10000 <= year <= 10000,
        -100 <= mon <= 100,
        -10000 <= mday <= 10000,
        -10000 <= hour <= 10000,
        -10000 <= min <= 10000,
        -10000 <= sec <= 10000,
    ensures
        r == timegm(year as int, mon as int, mday as int, hour as int, min as int, sec as int),
{
    let ms = mon + 120;
    let q = ms / 12;
    let m = ms % 12;
    proof {
        vstd::arithmetic::div_mod::lemma_fundamental_div_mod(ms as int, 12);
        vstd::arithmetic::div_mod::lemma_fundamental_div_mod_converse(mon as int, 12, (q - 10) as int, m as int);
    }
    let y = year + q - 10;
    // Shift by a multiple of 400 years so that every division is of a positive number.
    let yy = y - 1 + 12000;
    let a4 = yy / 4;
    let a100 = yy / 100;
    let a400 = yy / 400;
    proof {
        vstd::arithmetic::div_mod::lemma_fundamental_div_mod(yy as int, 4);
        vstd::arithmetic::div_mod::lemma_fundamental_div_mod(yy as int, 100);
        vstd::arithmetic::div_mod::lemma_fundamental_div_mod(yy as int, 400);
        vstd::arithmetic::div_mod::lemma_fundamental_div_mod_converse((y - 1) as int, 4, (a4 - 3000) as int, (yy % 4) as int);
        vstd::arithmetic::div_mod::lemma_fundamental_div_mod_converse((y - 1) as int, 100, (a100 - 120) as int, (yy % 100) as int);
        vstd::arithmetic::div_mod::lemma_fundamental_div_mod_converse((y - 1) as int, 400, (a400 - 30) as int, (yy % 400) as int);
    }
    let leaps = (a4 - 3000) - (a100 - 120) + (a400 - 30);
    let yl = y + 12000;
    proof {
        vstd::arithmetic::div_mod::lemma_fundamental_div_mod(yl as int, 4);
        vstd::arithmetic::div_mod::lemma_fundamental_div_mod(yl as int, 100);
        vstd::arithmetic::div_mod::lemma_fundamental_div_mod(yl as int, 400);
        vstd::arithmetic::div_mod::lemma_fundamental_div_mod_converse(y as int, 4, (yl / 4 - 3000) as int, (yl % 4) as int);
        vstd::arithmetic::div_mod::lemma_fundamental_div_mod_converse(y as int, 100, (yl / 100 - 120) as int, (yl % 100) as int);
        vstd::arithmetic::div_mod::lemma_fundamental_div_mod_converse(y as int, 400, (yl / 400 - 30) as int, (yl % 400) as int);
    }
    let leap = yl % 4 == 0 && (yl % 100 != 0 || yl % 400 == 0);
    let common: i64 = if m == 0 {
        0
    } else if m == 1 {
        31
    } else if m == 2 {
        59
    } else if m == 3 {
        90
    } else if m == 4 {
        120
    } else if m == 5 {
        151
    } else if m == 6 {
        181
    } else if m == 7 {
        212
    } else if m == 8 {
        243
    } else if m == 9 {
        273
    } else if m == 10 {
        304
    } else {
        334
    };
    let before_month = common + if m >= 2 && leap {
        1
    } else {
        0
    };
    let days = 365 * (y - 1970) + leaps - 477 + before_month + mday - 1;
    assert(leap_years_before(1970) == 477);
    days * 86400 + hour * 3600 + min * 60 + sec
}

// ---------------------------------------------------------------------------
// Writing times
// ---------------------------------------------------------------------------

pub open spec fn abs_offset(t: BrokenDownTime) -> int {
    if t.tm_gmtoff >= 0 {
        t.tm_gmtoff as int
    } else {
        -(t.tm_gmtoff as int)
    }
}

/// `YYYY-MM-DDTHH:MM:SS+HH:MM`, the offset's seconds dropped.
pub open spec fn mtime_text(t: BrokenDownTime) -> Seq<char> {
    zero_padded(t.tm_year + 1900, 4) + seq!['-'] + zero_padded(t.tm_mon + 1, 2) + seq!['-']
        + zero_padded(t.tm_mday as int, 2) + seq!['T'] + zero_padded(t.tm_hour as int, 2) + seq![':']
        + zero_padded(t.tm_min as int, 2) + seq![':'] + zero_padded(t.tm_sec as int, 2) + seq![
        if t.tm_gmtoff >= 0 {
            '+'
        } else {
            '-'
        },
    ] + zero_padded(abs_offset(t) / 3600, 2) + seq![':'] + zero_padded((abs_offset(t) % 3600) / 60, 2)
}

/// `YYYYMMDDhhmm.ss`, the form `touch -t` takes.
pub open spec fn touch_text(t: BrokenDownTime) -> Seq<char> {
    zero_padded(t.tm_year + 1900, 4) + zero_padded(t.tm_mon + 1, 2) + zero_padded(t.tm_mday as int, 2)
        + zero_padded(t.tm_hour as int, 2) + zero_padded(t.tm_min as int, 2) + seq!['.'] + zero_padded(
        t.tm_sec as int,
        2,
    )
}

/// Writes the modification time of a listing line.
#[verifier::spinoff_prover]
#[verifier::rlimit(40)]
pub fn format_mtime(t: &BrokenDownTime) -> (r: String)
    ensures
        r@ == mtime_text(*t),
{
    let mut out: Vec<char> = Vec::new();
    push_zero_padded(&mut out, t.tm_year as i64 + 1900, 4);
    out.push('-');
    push_zero_padded(&mut out, t.tm_mon as i64 + 1, 2);
    out.push('-');
    push_zero_padded(&mut out, t.tm_mday as i64, 2);
    out.push('T');
    push_zero_padded(&mut out, t.tm_hour as i64, 2);
    out.push(':');
    push_zero_padded(&mut out, t.tm_min as i64, 2);
    out.push(':');
    push_zero_padded(&mut out, t.tm_sec as i64, 2);
    let sign = if t.tm_gmtoff >= 0 {
        '+'
    } else {
        '-'
    };
    out.push(sign);
    let abs: u64 = if t.tm_gmtoff >= 0 {
        t.tm_gmtoff as u64
    } else {
        ((-(t.tm_gmtoff + 1)) as u64) + 1
    };
    assert(abs == abs_offset(*t));
    push_number(&mut out, abs / 3600, 10, 2, '0');
    out.push(':');
    push_number(&mut out, (abs % 3600) / 60, 10, 2, '0');
    assert(out@ =~= mtime_text(*t));
    string_of(&out, 0, out.len())
}

/// Writes a time in the form `touch -t` takes.
pub fn format_touch_time(t: &BrokenDownTime) -> (r: String)
    ensures
        r@ == touch_text(*t),
{
    let mut out: Vec<char> = Vec::new();
    push_zero_padded(&mut out, t.tm_year as i64 + 1900, 4);
    push_zero_padded(&mut out, t.tm_mon as i64 + 1, 2);
    push_zero_padded(&mut out, t.tm_mday as i64, 2);
    push_zero_padded(&mut out, t.tm_hour as i64, 2);
    push_zero_padded(&mut out, t.tm_min as i64, 2);
    out.push('.');
    push_zero_padded(&mut out, t.tm_sec as i64, 2);
    assert(out@ =~= touch_text(*t));
    string_of(&out, 0, out.len())
}


/// Each field of the date and time is written in exactly its width: the
/// year in four characters, the month, day, hour, minute and second in two.
pub open spec fn fields_fill_widths(t: BrokenDownTime) -> bool {
    &&& zero_padded(t.tm_year + 1900, 4).len() == 4
    &&& zero_padded(t.tm_mon + 1, 2).len() == 2
    &&& zero_padded(t.tm_mday as int, 2).len() == 2
    &&& zero_padded(t.tm_hour as int, 2).len() == 2
    &&& zero_padded(t.tm_min as int, 2).len() == 2
    &&& zero_padded(t.tm_sec as int, 2).len() == 2
}

/// The `touch -t` text of a time is its listing text with the separators and
/// the UTC offset taken out: `YYYYMMDDhhmm.ss` from `YYYY-MM-DDThh:mm:ss+HH:MM`.
pub proof fn lemma_touch_text_from_mtime_text(t: BrokenDownTime)
    requires
        fields_fill_widths(t),
    ensures
        ({
            let m = mtime_text(t);
            touch_text(t) == m.subrange(0, 4) + m.subrange(5, 7) + m.subrange(8, 10) + m.subrange(11, 13)
                + m.subrange(14, 16) + seq!['.'] + m.subrange(17, 19)
        }),
{
    let m = mtime_text(t);
    let p_year = zero_padded(t.tm_year + 1900, 4);
    let p_mon = zero_padded(t.tm_mon + 1, 2);
    let p_day = zero_padded(t.tm_mday as int, 2);
    let p_hour = zero_padded(t.tm_hour as int, 2);
    let p_min = zero_padded(t.tm_min as int, 2);
    let p_sec = zero_padded(t.tm_sec as int, 2);
    let head = p_year + seq!['-'] + p_mon + seq!['-'] + p_day + seq!['T'] + p_hour + seq![':'] + p_min
        + seq![':'] + p_sec;
    assert(m =~= head + m.subrange(19, m.len() as int));
    assert(m.subrange(0, 4) =~= p_year);
    assert(m.subrange(5, 7) =~= p_mon);
    assert(m.subrange(8, 10) =~= p_day);
    assert(m.subrange(11, 13) =~= p_hour);
    assert(m.subrange(14, 16) =~= p_min);
    assert(m.subrange(17, 19) =~= p_sec);
    assert(touch_text(t) =~= p_year + p_mon + p_day + p_hour + p_min + seq!['.'] + p_sec);
}


// ---------------------------------------------------------------------------
// Reading times
// ---------------------------------------------------------------------------

/// One numeric field of a written time, read from the byte range `a..b`:
/// slicing panics when an offset falls inside a character, and otherwise the
/// field either reads as an integer or does not.
pub enum Field {
    Panic,
    Fail,
    Value(int),
}

#[verifier::opaque]
pub open spec fn int_field(s: Seq<char>, a: int, b: int) -> Field {
    if !(has_boundary(s, a) && has_boundary(s, b)) {
        Field::Panic
    } else {
        match parse_int(byte_slice(s, a, b)) {
            Some(v) => Field::Value(v),
            None => Field::Fail,
        }
    }
}

/// The fields of a written time, as integers, and the character that stands
/// where the sign of the UTC offset belongs.
pub struct WrittenTime {
    pub year: int,
    pub month: int,
    pub day: int,
    pub hour: int,
    pub min: int,
    pub sec: int,
    pub sign: Seq<char>,
    pub tz_hours: int,
    pub tz_mins: int,
}

pub enum FieldsParse {
    Panic,
    Rejected,
    Fields(WrittenTime),
}

/// Reading the fields of `YYYY-MM-DDTHH:MM:SS+HH:MM` in order, each at its
/// fixed byte offsets; the separators are not looked at.
pub open spec fn datetime_fields(s: Seq<char>) -> FieldsParse {
    match int_field(s, 0, 4) {
        Field::Panic => FieldsParse::Panic,
        Field::Fail => FieldsParse::Rejected,
        Field::Value(year) => match int_field(s, 5, 7) {
            Field::Panic => FieldsParse::Panic,
            Field::Fail => FieldsParse::Rejected,
            Field::Value(month) => match int_field(s, 8, 10) {
                Field::Panic => FieldsParse::Panic,
                Field::Fail => FieldsParse::Rejected,
                Field::Value(day) => match int_field(s, 11, 13) {
                    Field::Panic => FieldsParse::Panic,
                    Field::Fail => FieldsParse::Rejected,
                    Field::Value(hour) => match int_field(s, 14, 16) {
                        Field::Panic => FieldsParse::Panic,
                        Field::Fail => FieldsParse::Rejected,
                        Field::Value(min) => match int_field(s, 17, 19) {
                            Field::Panic => FieldsParse::Panic,
                            Field::Fail => FieldsParse::Rejected,
                            Field::Value(sec) => if !(has_boundary(s, 19) && has_boundary(s, 20)) {
                                FieldsParse::Panic
                            } else {
                                match int_field(s, 20, 22) {
                                    Field::Panic => FieldsParse::Panic,
                                    Field::Fail => FieldsParse::Rejected,
                                    Field::Value(tz_hours) => match int_field(s, 23, 25) {
                                        Field::Panic => FieldsParse::Panic,
                                        Field::Fail => FieldsParse::Rejected,
                                        Field::Value(tz_mins) => FieldsParse::Fields(
                                            WrittenTime {
                                                year,
                                                month,
                                                day,
                                                hour,
                                                min,
                                                sec,
                                                sign: byte_slice(s, 19, 20),
                                                tz_hours,
                                                tz_mins,
                                            },
                                        ),
                                    },
                                }
                            },
                        },
                    },
                },
            },
        },
    }
}

/// What reading a written time comes to: a panic (a byte offset inside a
/// character), a rejection, or seconds since the epoch.
pub enum DatetimeParse {
    Panic,
    Rejected,
    Accepted(nat),
}

/// The instant that a UTC offset and the fields of a local date and time
/// denote, unless `timegm` reports failure (`-1`) or the instant is before the epoch.
pub open spec fn instant(
    year: int,
    month: int,
    day: int,
    hour: int,
    min: int,
    sec: int,
    offset: int,
) -> DatetimeParse {
    let epoch = timegm(year, month - 1, day, hour, min, sec);
    if epoch == -1 || epoch - offset < 0 {
        DatetimeParse::Rejected
    } else {
        DatetimeParse::Accepted((epoch - offset) as nat)
    }
}

/// The instant of a written time whose fields were read; the offset's sign
/// must be `+` or `-`.
pub open spec fn written_instant(w: WrittenTime) -> DatetimeParse {
    let offset = w.tz_hours * 3600 + w.tz_mins * 60;
    if w.sign == seq!['+'] {
        instant(w.year, w.month, w.day, w.hour, w.min, w.sec, offset)
    } else if w.sign == seq!['-'] {
        instant(w.year, w.month, w.day, w.hour, w.min, w.sec, -offset)
    } else {
        DatetimeParse::Rejected
    }
}

/// Reading `YYYY-MM-DDTHH:MM:SS+HH:MM` (at least 25 bytes) as seconds since the epoch.
pub open spec fn datetime_parse(s: Seq<char>) -> DatetimeParse {
    if byte_len(s) < 25 {
        DatetimeParse::Rejected
    } else {
        match datetime_fields(s) {
            FieldsParse::Panic => DatetimeParse::Panic,
            FieldsParse::Rejected => DatetimeParse::Rejected,
            FieldsParse::Fields(w) => written_instant(w),
        }
    }
}

/// The seconds since the epoch that a written time reads as, if any.
pub open spec fn datetime_value(s: Seq<char>) -> Option<u64> {
    match datetime_parse(s) {
        DatetimeParse::Accepted(n) => if n <= u64::MAX {
            Some(n as u64)
        } else {
            None
        },
        _ => None,
    }
}

/// Character indices of two boundaries grow with their byte offsets.
proof fn lemma_boundaries_ordered(s: Seq<char>, a: int, b: int)
    requires
        has_boundary(s, a),
        has_boundary(s, b),
        a <= b,
    ensures
        boundary_index(s, a) <= boundary_index(s, b),
        byte_len(byte_slice(s, a, b)) == b - a,
        byte_slice(s, a, b).len() <= b - a,
{
    let i = boundary_index(s, a);
    let j = boundary_index(s, b);
    assert(is_boundary(s, a, i));
    assert(is_boundary(s, b, j));
    if j < i {
        lemma_byte_len_prefix_monotone(s, j, i);
    }
    assert(s.subrange(0, j) =~= s.subrange(0, i) + s.subrange(i, j));
    lemma_byte_len_concat(s.subrange(0, i), s.subrange(i, j));
    lemma_byte_len_at_least_len(s.subrange(i, j));
}

/// Reads the field at bytes `a..b`: `None` when slicing would panic,
/// `Some(None)` when the field is not an integer.
fn int_field_exec(v: &Vec<char>, a: usize, b: usize) -> (r: Option<Option<i64>>)
    requires
        a < b <= 25,
        b - a <= 4,
    ensures
        match int_field(v@, a as int, b as int) {
            Field::Panic => r is None,
            Field::Fail => r == Some(None::<i64>),
            Field::Value(x) => r == Some(Some(x as i64)) && -9999 <= x <= 9999 && (b - a <= 2 ==> -99
                <= x <= 99),
        },
{
    reveal(int_field);
    let i = match find_boundary(v, a) {
        Some(i) => i,
        None => return None,
    };
    let j = match find_boundary(v, b) {
        Some(j) => j,
        None => return None,
    };
    proof {
        lemma_boundaries_ordered(v@, a as int, b as int);
    }
    Some(parse_int_exec(v, i, j))
}

/// Whether the byte range `a..b` can be sliced, and the characters it holds.
fn slice_exec(v: &Vec<char>, a: usize, b: usize) -> (r: Option<(usize, usize)>)
    requires
        a < b <= 25,
    ensures
        r is None <==> !(has_boundary(v@, a as int) && has_boundary(v@, b as int)),
        r matches Some((i, j)) ==> i <= j <= v.len() && v@.subrange(i as int, j as int) == byte_slice(
            v@,
            a as int,
            b as int,
        ),
{
    let i = match find_boundary(v, a) {
        Some(i) => i,
        None => return None,
    };
    let j = match find_boundary(v, b) {
        Some(j) => j,
        None => return None,
    };
    proof {
        lemma_boundaries_ordered(v@, a as int, b as int);
        assert(is_boundary(v@, b as int, j as int));
    }
    Some((i, j))
}

/// The fields of a written time as machine integers, with the sign's character
/// range.
struct TimeFields {
    year: i64,
    month: i64,
    day: i64,
    hour: i64,
    min: i64,
    sec: i64,
    tz_hours: i64,
    tz_mins: i64,
    sign_start: usize,
    sign_end: usize,
}

/// `datetime_fields`; `Err` where reading the fields would panic.
fn read_fields(v: &Vec<char>) -> (r: Result<Option<TimeFields>, ()>)
    ensures
        match datetime_fields(v@) {
            FieldsParse::Panic => r is Err,
            FieldsParse::Rejected => r matches Ok(None),
            FieldsParse::Fields(w) => r matches Ok(Some(f)) && {
                &&& f.year == w.year && f.month == w.month && f.day == w.day
                &&& f.hour == w.hour && f.min == w.min && f.sec == w.sec
                &&& f.tz_hours == w.tz_hours && f.tz_mins == w.tz_mins
                &&& f.sign_start <= f.sign_end <= v.len()
                &&& v@.subrange(f.sign_start as int, f.sign_end as int) == w.sign
                &&& -9999 <= w.year <= 9999 && -99 <= w.month <= 99 && -99 <= w.day <= 99
                &&& -99 <= w.hour <= 99 && -99 <= w.min <= 99 && -99 <= w.sec <= 99
                &&& -99 <= w.tz_hours <= 99 && -99 <= w.tz_mins <= 99
            },
        },
{
    let year = match int_field_exec(v, 0, 4) {
        Some(Some(x)) => x,
        Some(None) => return Ok(None),
        None => return Err(()),
    };
    let month = match int_field_exec(v, 5, 7) {
        Some(Some(x)) => x,
        Some(None) => return Ok(None),
        None => return Err(()),
    };
    let day = match int_field_exec(v, 8, 10) {
        Some(Some(x)) => x,
        Some(None) => return Ok(None),
        None => return Err(()),
    };
    let hour = match int_field_exec(v, 11, 13) {
        Some(Some(x)) => x,
        Some(None) => return Ok(None),
        None => return Err(()),
    };
    let min = match int_field_exec(v, 14, 16) {
        Some(Some(x)) => x,
        Some(None) => return Ok(None),
        None => return Err(()),
    };
    let sec = match int_field_exec(v, 17, 19) {
        Some(Some(x)) => x,
        Some(None) => return Ok(None),
        None => return Err(()),
    };
    let (sign_start, sign_end) = match slice_exec(v, 19, 20) {
        Some(p) => p,
        None => return Err(()),
    };
    let tz_hours = match int_field_exec(v, 20, 22) {
        Some(Some(x)) => x,
        Some(None) => return Ok(None),
        None => return Err(()),
    };
    let tz_mins = match int_field_exec(v, 23, 25) {
        Some(Some(x)) => x,
        Some(None) => return Ok(None),
        None => return Err(()),
    };
    Ok(Some(TimeFields { year, month, day, hour, min, sec, tz_hours, tz_mins, sign_start, sign_end }))
}

/// `datetime_value`; `Err` where reading would panic.
pub fn parse_datetime_total(v: &Vec<char>) -> (r: Result<Option<u64>, ()>)
    ensures
        r is Err <==> datetime_parse(v@) is Panic,
        r matches Ok(x) ==> x == datetime_value(v@),
{
    if !byte_len_at_least(v, 25) {
        return Ok(None);
    }
    let f = match read_fields(v) {
        Ok(Some(f)) => f,
        Ok(None) => return Ok(None),
        Err(()) => return Err(()),
    };
    let ghost w = datetime_fields(v@)->Fields_0;
    let one = f.sign_end > f.sign_start && f.sign_end - f.sign_start == 1;
    let plus = one && v[f.sign_start] == '+';
    let minus = one && v[f.sign_start] == '-';
    proof {
        assert(seq!['+'][0] == '+' && seq!['+'].len() == 1);
        assert(seq!['-'][0] == '-' && seq!['-'].len() == 1);
        if one {
            assert(w.sign =~= seq![v@[f.sign_start as int]]);
        } else {
            assert(w.sign.len() != 1);
        }
    }
    let magnitude = f.tz_hours * 3600 + f.tz_mins * 60;
    let offset: i64 = if plus {
        magnitude
    } else if minus {
        -magnitude
    } else {
        return Ok(None);
    };
    let epoch = timegm_exec(f.year, f.month - 1, f.day, f.hour, f.min, f.sec);
    if epoch == -1 {
        return Ok(None);
    }
    let utc = epoch - offset;
    if utc < 0 {
        return Ok(None);
    }
    Ok(Some(utc as u64))
}

/// Reads a written time (`2014-04-30T10:11:12+01:00`) as seconds since the
/// epoch.  The fields are taken at fixed byte offsets, so the input must not
/// place one of those offsets inside a multi-byte character.
pub fn parse_datetime(s: &str) -> (r: Option<u64>)
    requires
        !(datetime_parse(s@) is Panic),
    ensures
        r == datetime_value(s@),
{
    let v = chars_of(s);
    match parse_datetime_total(&v) {
        Ok(x) => x,
        Err(()) => None,
    }
}


// ---------------------------------------------------------------------------
// Reading back a written time
// ---------------------------------------------------------------------------

proof fn lemma_int_field_padded(s: Seq<char>, a: int, w: nat, n: int)
    requires
        is_ascii_seq(s),
        0 <= a,
        a + w <= s.len(),
        w >= 1,
        0 <= n < pow10(w),
        s.subrange(a, a + w) == zero_padded(n, w as int),
    ensures
        int_field(s, a, a + w) == Field::Value(n),
{
    reveal(int_field);
    lemma_ascii_boundary(s, a);
    lemma_ascii_boundary(s, a + w);
    lemma_zero_padded_reads_back(n, w);
}

/// The fields of a broken-down time fit the listing format: a four-digit
/// year, two-digit month, day, hour, minute and second, and an offset from
/// UTC under a hundred hours.
pub open spec fn fits_listing_format(t: BrokenDownTime) -> bool {
    &&& 0 <= t.tm_year + 1900 <= 9999
    &&& 0 <= t.tm_mon + 1 <= 99
    &&& 0 <= t.tm_mday <= 99
    &&& 0 <= t.tm_hour <= 99
    &&& 0 <= t.tm_min <= 99
    &&& 0 <= t.tm_sec <= 99
    &&& abs_offset(t) < 360000
}

/// The UTC offset as a listing writes it: hours and minutes, the seconds dropped.
pub open spec fn written_offset(t: BrokenDownTime) -> int {
    let w = (abs_offset(t) / 3600) * 3600 + ((abs_offset(t) % 3600) / 60) * 60;
    if t.tm_gmtoff >= 0 {
        w
    } else {
        -w
    }
}

/// What `timegm` gives for the local date and time of `t`.
pub open spec fn local_timegm(t: BrokenDownTime) -> int {
    timegm(
        t.tm_year + 1900,
        t.tm_mon as int,
        t.tm_mday as int,
        t.tm_hour as int,
        t.tm_min as int,
        t.tm_sec as int,
    )
}

/// The written time of `t` reads back as an instant: `timegm` does not report
/// failure (`-1`, which it gives for 1969-12-31T23:59:59) and the instant is
/// not before the epoch.
pub open spec fn reads_as_instant(t: BrokenDownTime) -> bool {
    local_timegm(t) != -1 && local_timegm(t) - written_offset(t) >= 0
}

/// Reading back a written modification time gives the instant that the
/// broken-down time and its UTC offset as written denote, the offset's
/// seconds dropped (or a rejection, exactly when that instant is before the
/// epoch or `timegm` gives the `-1` that it reserves for failure).
#[verifier::rlimit(50)]
pub proof fn lemma_mtime_text_reads_back(t: BrokenDownTime)
    requires
        fits_listing_format(t),
    ensures
        datetime_parse(mtime_text(t)) == instant(
            t.tm_year + 1900,
            t.tm_mon + 1,
            t.tm_mday as int,
            t.tm_hour as int,
            t.tm_min as int,
            t.tm_sec as int,
            written_offset(t),
        ),
        abs_offset(t) % 60 == 0 ==> written_offset(t) == t.tm_gmtoff,
        mtime_text(t).len() == 25,
        is_ascii_seq(mtime_text(t)),
        crate::text::is_digit(mtime_text(t)[0]),
{
    reveal_with_fuel(pow10, 5);
    let abs = abs_offset(t);
    let oh = abs / 3600;
    let om = (abs % 3600) / 60;
    vstd::arithmetic::div_mod::lemma_fundamental_div_mod(abs, 3600);
    vstd::arithmetic::div_mod::lemma_fundamental_div_mod(abs % 3600, 60);
    vstd::arithmetic::div_mod::lemma_mod_mod(abs, 60, 60);
    vstd::arithmetic::div_mod::lemma_mod_bound(abs, 3600);
    assert(oh * 3600 + om * 60 == abs - abs % 60);
    assert(0 <= oh < 100);
    assert(0 <= om < 60);
    let p_year = zero_padded(t.tm_year + 1900, 4);
    let p_mon = zero_padded(t.tm_mon + 1, 2);
    let p_day = zero_padded(t.tm_mday as int, 2);
    let p_hour = zero_padded(t.tm_hour as int, 2);
    let p_min = zero_padded(t.tm_min as int, 2);
    let p_sec = zero_padded(t.tm_sec as int, 2);
    let sign = if t.tm_gmtoff >= 0 {
        '+'
    } else {
        '-'
    };
    let p_oh = zero_padded(oh, 2);
    let p_om = zero_padded(om, 2);
    lemma_zero_padded_reads_back(t.tm_year + 1900, 4);
    lemma_zero_padded_reads_back(t.tm_mon + 1, 2);
    lemma_zero_padded_reads_back(t.tm_mday as int, 2);
    lemma_zero_padded_reads_back(t.tm_hour as int, 2);
    lemma_zero_padded_reads_back(t.tm_min as int, 2);
    lemma_zero_padded_reads_back(t.tm_sec as int, 2);
    lemma_zero_padded_reads_back(oh, 2);
    lemma_zero_padded_reads_back(om, 2);
    let s = mtime_text(t);
    assert(s =~= p_year + seq!['-'] + p_mon + seq!['-'] + p_day + seq!['T'] + p_hour + seq![':'] + p_min
        + seq![':'] + p_sec + seq![sign] + p_oh + seq![':'] + p_om);
    assert(s.len() == 25);
    assert forall|k: int| 0 <= k < s.len() implies (#[trigger] s[k] as u32) < 0x80 by {
        if k < 4 {
            assert(s[k] == p_year[k]);
        } else if 5 <= k < 7 {
            assert(s[k] == p_mon[k - 5]);
        } else if 8 <= k < 10 {
            assert(s[k] == p_day[k - 8]);
        } else if 11 <= k < 13 {
            assert(s[k] == p_hour[k - 11]);
        } else if 14 <= k < 16 {
            assert(s[k] == p_min[k - 14]);
        } else if 17 <= k < 19 {
            assert(s[k] == p_sec[k - 17]);
        } else if 20 <= k < 22 {
            assert(s[k] == p_oh[k - 20]);
        } else if 23 <= k < 25 {
            assert(s[k] == p_om[k - 23]);
        }
    }
    assert(is_ascii_seq(s));
    lemma_ascii_byte_len(s);
    assert(s.subrange(0, 4) =~= p_year);
    assert(s.subrange(5, 7) =~= p_mon);
    assert(s.subrange(8, 10) =~= p_day);
    assert(s.subrange(11, 13) =~= p_hour);
    assert(s.subrange(14, 16) =~= p_min);
    assert(s.subrange(17, 19) =~= p_sec);
    assert(s.subrange(20, 22) =~= p_oh);
    assert(s.subrange(23, 25) =~= p_om);
    assert(s.subrange(19, 20) =~= seq![sign]);
    lemma_int_field_padded(s, 0, 4, t.tm_year + 1900);
    lemma_int_field_padded(s, 5, 2, t.tm_mon + 1);
    lemma_int_field_padded(s, 8, 2, t.tm_mday as int);
    lemma_int_field_padded(s, 11, 2, t.tm_hour as int);
    lemma_int_field_padded(s, 14, 2, t.tm_min as int);
    lemma_int_field_padded(s, 17, 2, t.tm_sec as int);
    lemma_int_field_padded(s, 20, 2, oh);
    lemma_int_field_padded(s, 23, 2, om);
    lemma_ascii_boundary(s, 19);
    lemma_ascii_boundary(s, 20);
    assert(byte_slice(s, 19, 20) == seq![sign]);
    assert(s[0] == p_year[0]);
    assert(seq!['+'] != seq!['-']) by {
        assert(seq!['+'][0] != seq!['-'][0]);
    }
}

/// A written time that reads as an instant reads as the seconds from the
/// epoch to that instant.
pub proof fn lemma_written_time_value(t: BrokenDownTime)
    requires
        fits_listing_format(t),
        reads_as_instant(t),
    ensures
        datetime_value(mtime_text(t)) == Some((local_timegm(t) - written_offset(t)) as u64),
{
    lemma_mtime_text_reads_back(t);
    let year = t.tm_year + 1900;
    let mon = t.tm_mon as int;
    assert((t.tm_mon + 1) - 1 == mon);
    let y = year + mon / 12;
    let m = mon % 12;
    assert(-1 <= mon / 12 <= 8);
    assert(-1 <= y <= 10007);
    let days = days_since_epoch(y, m, t.tm_mday as int);
    assert(leap_years_before(y) <= 10007);
    assert(days <= 4_000_000);
    assert(days * 86400 <= 4_000_000 * 86400) by (nonlinear_arith)
        requires
            days <= 4_000_000,
    ;
    assert(local_timegm(t) == days * 86400 + t.tm_hour * 3600 + t.tm_min * 60 + t.tm_sec);
    assert(written_offset(t) > -360000) by {
        vstd::arithmetic::div_mod::lemma_fundamental_div_mod(abs_offset(t), 3600);
        vstd::arithmetic::div_mod::lemma_fundamental_div_mod(abs_offset(t) % 3600, 60);
    }
    assert(local_timegm(t) - written_offset(t) <= u64::MAX);
}

/// A written time holds no newline.
pub proof fn lemma_mtime_text_one_line(t: BrokenDownTime)
    requires
        fits_listing_format(t),
    ensures
        no_newline(mtime_text(t)),
{
    reveal_with_fuel(pow10, 5);
    let abs = abs_offset(t);
    let oh = abs / 3600;
    let om = (abs % 3600) / 60;
    vstd::arithmetic::div_mod::lemma_mod_bound(abs, 3600);
    assert(0 <= oh < 100);
    assert(0 <= om < 60);
    let p_year = zero_padded(t.tm_year + 1900, 4);
    let p_mon = zero_padded(t.tm_mon + 1, 2);
    let p_day = zero_padded(t.tm_mday as int, 2);
    let p_hour = zero_padded(t.tm_hour as int, 2);
    let p_min = zero_padded(t.tm_min as int, 2);
    let p_sec = zero_padded(t.tm_sec as int, 2);
    let sign = if t.tm_gmtoff >= 0 {
        '+'
    } else {
        '-'
    };
    let p_oh = zero_padded(oh, 2);
    let p_om = zero_padded(om, 2);
    lemma_zero_padded_reads_back(t.tm_year + 1900, 4);
    lemma_zero_padded_reads_back(t.tm_mon + 1, 2);
    lemma_zero_padded_reads_back(t.tm_mday as int, 2);
    lemma_zero_padded_reads_back(t.tm_hour as int, 2);
    lemma_zero_padded_reads_back(t.tm_min as int, 2);
    lemma_zero_padded_reads_back(t.tm_sec as int, 2);
    lemma_zero_padded_reads_back(oh, 2);
    lemma_zero_padded_reads_back(om, 2);
    lemma_no_newline_digits_or_word(p_year);
    lemma_no_newline_digits_or_word(p_mon);
    lemma_no_newline_digits_or_word(p_day);
    lemma_no_newline_digits_or_word(p_hour);
    lemma_no_newline_digits_or_word(p_min);
    lemma_no_newline_digits_or_word(p_sec);
    lemma_no_newline_digits_or_word(p_oh);
    lemma_no_newline_digits_or_word(p_om);
    lemma_no_newline_char('-');
    lemma_no_newline_char('T');
    lemma_no_newline_char(':');
    lemma_no_newline_char(sign);
    let s1 = p_year + seq!['-'];
    lemma_no_newline_concat(p_year, seq!['-']);
    let s2 = s1 + p_mon;
    lemma_no_newline_concat(s1, p_mon);
    let s3 = s2 + seq!['-'];
    lemma_no_newline_concat(s2, seq!['-']);
    let s4 = s3 + p_day;
    lemma_no_newline_concat(s3, p_day);
    let s5 = s4 + seq!['T'];
    lemma_no_newline_concat(s4, seq!['T']);
    let s6 = s5 + p_hour;
    lemma_no_newline_concat(s5, p_hour);
    let s7 = s6 + seq![':'];
    lemma_no_newline_concat(s6, seq![':']);
    let s8 = s7 + p_min;
    lemma_no_newline_concat(s7, p_min);
    let s9 = s8 + seq![':'];
    lemma_no_newline_concat(s8, seq![':']);
    let s10 = s9 + p_sec;
    lemma_no_newline_concat(s9, p_sec);
    let s11 = s10 + seq![sign];
    lemma_no_newline_concat(s10, seq![sign]);
    let s12 = s11 + p_oh;
    lemma_no_newline_concat(s11, p_oh);
    let s13 = s12 + seq![':'];
    lemma_no_newline_concat(s12, seq![':']);
    let s14 = s13 + p_om;
    lemma_no_newline_concat(s13, p_om);
    assert(mtime_text(t) == s14);
}


// ---------------------------------------------------------------------------
// The calendar that `timegm` follows
// ---------------------------------------------------------------------------

/// Days in month `m` (`0` = January) of year `y` of the Gregorian calendar:
/// thirty days hath September, April, June and November; February has 29
/// in years divisible by 4 but not by 100 unless by 400, and 28 otherwise.
pub open spec fn days_in_month(y: int, m: int) -> int {
    if m == 1 {
        if y % 4 == 0 && (y % 100 != 0 || y % 400 == 0) {
            29
        } else {
            28
        }
    } else if m == 3 || m == 5 || m == 8 || m == 10 {
        30
    } else {
        31
    }
}

/// The epoch is 1970-01-01T00:00:00.
pub proof fn lemma_timegm_epoch()
    ensures
        timegm(1970, 0, 1, 0, 0, 0) == 0,
{
    assert(leap_years_before(1970) == 477);
}

/// Within a month, each day starts 86400 seconds after the one before, and
/// the time of day adds its hours, minutes and seconds.
pub proof fn lemma_timegm_day_and_time(y: int, m: int, d: int, hour: int, min: int, sec: int)
    requires
        0 <= m < 12,
    ensures
        timegm(y, m, d, hour, min, sec) == timegm(y, m, 1, 0, 0, 0) + (d - 1) * 86400 + hour * 3600
            + min * 60 + sec,
{
    vstd::arithmetic::div_mod::lemma_basic_div_specific_divisor(12);
    vstd::arithmetic::div_mod::lemma_small_mod(m as nat, 12);
    assert(m / 12 == 0);
    assert((d - 1) * 86400 + 0 * 86400 == (d - 1) * 86400);
    assert(days_since_epoch(y, m, d) == days_since_epoch(y, m, 1) + (d - 1));
    assert(days_since_epoch(y, m, d) * 86400 == days_since_epoch(y, m, 1) * 86400 + (d - 1) * 86400)
        by (nonlinear_arith)
        requires
            days_since_epoch(y, m, d) == days_since_epoch(y, m, 1) + (d - 1),
    ;
}

/// The first day of each month from February to December starts one month
/// length after the first day of the month before.
pub proof fn lemma_timegm_next_month(y: int, m: int)
    requires
        0 <= m < 11,
    ensures
        timegm(y, m + 1, 1, 0, 0, 0) - timegm(y, m, 1, 0, 0, 0) == days_in_month(y, m) * 86400,
{
    vstd::arithmetic::div_mod::lemma_small_mod(m as nat, 12);
    vstd::arithmetic::div_mod::lemma_small_mod((m + 1) as nat, 12);
    vstd::arithmetic::div_mod::lemma_basic_div_specific_divisor(12);
    assert(m / 12 == 0);
    assert((m + 1) / 12 == 0);
    assert(days_before_month(y, m + 1) - days_before_month(y, m) == days_in_month(y, m));
    let a = days_since_epoch(y, m + 1, 1);
    let b = days_since_epoch(y, m, 1);
    assert(a - b == days_in_month(y, m));
    assert(a * 86400 - b * 86400 == days_in_month(y, m) * 86400) by (nonlinear_arith)
        requires
            a - b == days_in_month(y, m),
    ;
}

proof fn lemma_div_step(y: int, k: int)
    requires
        k > 0,
    ensures
        y / k - (y - 1) / k == if y % k == 0 {
            1int
        } else {
            0int
        },
{
    vstd::arithmetic::div_mod::lemma_fundamental_div_mod(y, k);
    vstd::arithmetic::div_mod::lemma_mod_bound(y, k);
    let q = y / k;
    let r = y % k;
    if r == 0 {
        assert(y - 1 == (q - 1) * k + (k - 1)) by (nonlinear_arith)
            requires
                y == k * q + r,
                r == 0,
        ;
        vstd::arithmetic::div_mod::lemma_fundamental_div_mod_converse(y - 1, k, q - 1, k - 1);
    } else {
        assert(y - 1 == q * k + (r - 1)) by (nonlinear_arith)
            requires
                y == k * q + r,
        ;
        vstd::arithmetic::div_mod::lemma_fundamental_div_mod_converse(y - 1, k, q, r - 1);
    }
}

/// One more year passed has one more leap day exactly when the year is a leap year.
proof fn lemma_leap_step(y: int)
    ensures
        leap_years_before(y + 1) - leap_years_before(y) == if is_leap_year(y) {
            1int
        } else {
            0int
        },
{
    lemma_div_step(y, 4);
    lemma_div_step(y, 100);
    lemma_div_step(y, 400);
    vstd::arithmetic::div_mod::lemma_fundamental_div_mod(y, 100);
    vstd::arithmetic::div_mod::lemma_fundamental_div_mod(y, 400);
    vstd::arithmetic::div_mod::lemma_fundamental_div_mod(y, 4);
    if y % 100 == 0 {
        let q = y / 100;
        assert(y == 4 * (25 * q)) by (nonlinear_arith)
            requires
                y == 100 * q + y % 100,
                y % 100 == 0,
        ;
        vstd::arithmetic::div_mod::lemma_fundamental_div_mod_converse(y, 4, 25 * q, 0);
    }
    if y % 400 == 0 {
        let q = y / 400;
        assert(y == 100 * (4 * q)) by (nonlinear_arith)
            requires
                y == 400 * q + y % 400,
                y % 400 == 0,
        ;
        vstd::arithmetic::div_mod::lemma_fundamental_div_mod_converse(y, 100, 4 * q, 0);
    }
}

/// January of the next year starts 31 days after the first of December.
pub proof fn lemma_timegm_next_year(y: int)
    ensures
        timegm(y + 1, 0, 1, 0, 0, 0) - timegm(y, 11, 1, 0, 0, 0) == 31 * 86400,
{
    vstd::arithmetic::div_mod::lemma_basic_div_specific_divisor(12);
    vstd::arithmetic::div_mod::lemma_small_mod(11, 12);
    vstd::arithmetic::div_mod::lemma_small_mod(0, 12);
    assert(11int / 12 == 0);
    assert(0int / 12 == 0);
    lemma_leap_step(y);
    let a = days_since_epoch(y + 1, 0, 1);
    let b = days_since_epoch(y, 11, 1);
    assert(a - b == 31);
    assert(a * 86400 - b * 86400 == 31 * 86400) by (nonlinear_arith)
        requires
            a - b == 31,
    ;
}

/// Months past December carry into the next year.
pub proof fn lemma_timegm_month_carry(y: int, m: int, d: int, hour: int, min: int, sec: int)
    ensures
        timegm(y, m + 12, d, hour, min, sec) == timegm(y + 1, m, d, hour, min, sec),
{
    vstd::arithmetic::div_mod::lemma_fundamental_div_mod(m, 12);
    vstd::arithmetic::div_mod::lemma_mod_bound(m, 12);
    vstd::arithmetic::div_mod::lemma_fundamental_div_mod_converse(m + 12, 12, m / 12 + 1, m % 12);
}

} // verus!
