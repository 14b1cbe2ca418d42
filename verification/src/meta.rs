//! What is known of a photo file from its header.

use vstd::prelude::*;
use vstd::utf8::*;
use crate::path;
use crate::text;

verus! {

#[derive(Debug, Clone, Copy, PartialEq, Eq, Structural)]
pub enum FileKind {
    Cr3,
    Cr2,
    Jpeg,
    Heif,
}

/// Absolute byte range within the source file.
#[derive(Debug, Clone, Copy, PartialEq, Eq, Structural)]
pub struct ByteRange {
    pub offset: u64,
    pub len: u64,
}

#[derive(Debug, Clone, Copy, PartialEq, Eq, Structural)]
pub struct PreviewInfo {
    pub range: ByteRange,
    /// Pixel dimensions if known at header-parse time (0 = unknown).
    pub width: u32,
    pub height: u32,
    /// Range holds a bare JPEG stream (true) or a container area that still
    /// needs a local parse to locate the JPEG (false, e.g. CR3 PRVW uuid).
    pub is_bare_jpeg: bool,
}

/// Capture time with centisecond precision (EXIF SubSecTimeOriginal).
#[derive(Debug, Clone, Copy, PartialEq, Eq, PartialOrd, Ord, Structural)]
pub struct Timestamp {
    pub unix_centis: i64,
}

/// `std::str::from_utf8`: the text that `v` encodes, where it is UTF-8.
#[verifier::external_body]
fn from_utf8(v: &[u8]) -> (r: Option<&str>)
    ensures
        r is Some <==> valid_utf8(v@),
        r is Some ==> r->0@ == decode_utf8(v@),
{
    std::str::from_utf8(v).ok()
}

/// The number in the bytes `lo..hi` of `b`: UTF-8 text that is a signed
/// decimal number once white space around it is taken away.
pub open spec fn field(b: Seq<u8>, lo: int, hi: int) -> Option<int> {
    let part = b.subrange(lo, hi);
    if valid_utf8(part) {
        text::int_value(text::trimmed(decode_utf8(part)))
    } else {
        None
    }
}

/// Days from 1 January 1970 to a date of the Gregorian calendar, counting
/// years from March so that the leap day comes last.
pub open spec fn civil_days(y: int, mo: int, d: int) -> int {
    let (y2, mo2) = if mo <= 2 {
        (y - 1, mo + 12)
    } else {
        (y, mo)
    };
    365 * y2 + y2 / 4 - y2 / 100 + y2 / 400 + (153 * (mo2 - 3) + 2) / 5 + d - 1 - 719468
}

/// Leap years of the Gregorian calendar.
pub open spec fn is_leap(y: int) -> bool {
    y % 4 == 0 && (y % 100 != 0 || y % 400 == 0)
}

/// Number of days in a month.
pub open spec fn month_len(y: int, mo: int) -> int {
    if mo == 2 {
        if is_leap(y) {
            29
        } else {
            28
        }
    } else if mo == 4 || mo == 6 || mo == 9 || mo == 11 {
        30
    } else {
        31
    }
}

/// Days are counted as the Gregorian calendar does: day 0 is 1 January 1970,
/// each day of a month is one more than the day before, and the first of a
/// month is one more than the last day of the month before.
pub proof fn days_follow_the_calendar(y: int, mo: int, d: int)
    requires
        1 <= mo <= 12,
    ensures
        civil_days(1970, 1, 1) == 0,
        civil_days(y, mo, d + 1) == civil_days(y, mo, d) + 1,
        mo < 12 ==> civil_days(y, mo + 1, 1) == civil_days(y, mo, month_len(y, mo)) + 1,
        mo == 12 ==> civil_days(y + 1, 1, 1) == civil_days(y, 12, 31) + 1,
{
    let y2 = y - 1;
    assert(y % 4 == 0 ==> y / 4 == y2 / 4 + 1);
    assert(y % 4 != 0 ==> y / 4 == y2 / 4);
    assert(y % 100 == 0 ==> y / 100 == y2 / 100 + 1);
    assert(y % 100 != 0 ==> y / 100 == y2 / 100);
    assert(y % 400 == 0 ==> y / 400 == y2 / 400 + 1);
    assert(y % 400 != 0 ==> y / 400 == y2 / 400);
    assert(y % 400 == 0 ==> y % 100 == 0);
    assert(y % 100 == 0 ==> y % 4 == 0);
}

/// Hundredths of a second in an EXIF sub-second string: its first two digits
/// after trimming, a single one standing for tenths; 0 if it is no number.
pub open spec fn subsec_centis(ss: Seq<char>) -> int {
    let t = text::trimmed(ss);
    let two = if t.len() >= 2 {
        t.take(2)
    } else if t.len() == 1 {
        t.push('0')
    } else {
        seq!['0', '0']
    };
    match text::int_value(two) {
        Some(v) => v,
        None => 0,
    }
}

/// The time that an EXIF date and sub-second string stand for.
pub open spec fn exif_centis(dt: Seq<u8>, subsec: Option<Seq<char>>) -> Option<int> {
    if dt.len() < 19 {
        None
    } else {
        match (
            field(dt, 0, 4),
            field(dt, 5, 7),
            field(dt, 8, 10),
            field(dt, 11, 13),
            field(dt, 14, 16),
            field(dt, 17, 19),
        ) {
            (Some(y), Some(mo), Some(d), Some(h), Some(mi), Some(s)) => if 1 <= mo <= 12 && 1 <= d
                <= 31 {
                let secs = civil_days(y, mo, d) * 86400 + h * 3600 + mi * 60 + s;
                let centis = match subsec {
                    Some(ss) => subsec_centis(ss),
                    None => 0,
                };
                Some(secs * 100 + centis)
            } else {
                None
            },
            _ => None,
        }
    }
}

proof fn lemma_trim_shorter(s: Seq<char>)
    ensures
        text::trimmed(s).len() <= s.len(),
    decreases s.len(),
{
    lemma_trim_start_shorter(s);
    lemma_trim_end_shorter(text::trim_start(s));
}

proof fn lemma_trim_start_shorter(s: Seq<char>)
    ensures
        text::trim_start(s).len() <= s.len(),
    decreases s.len(),
{
    if s.len() > 0 && text::is_ws(s[0]) {
        lemma_trim_start_shorter(s.drop_first());
    }
}

proof fn lemma_trim_end_shorter(s: Seq<char>)
    ensures
        text::trim_end(s).len() <= s.len(),
    decreases s.len(),
{
    if s.len() > 0 && text::is_ws(s.last()) {
        lemma_trim_end_shorter(s.drop_last());
    }
}

proof fn lemma_decode_shorter(b: Seq<u8>)
    requires
        valid_utf8(b),
    ensures
        decode_utf8(b).len() <= b.len(),
    decreases b.len(),
{
    if b.len() > 0 {
        lemma_decode_shorter(pop_first_scalar(b));
    }
}

/// Decimal numbers of at most four digits lie below 10000.
proof fn lemma_digits_small(s: Seq<char>)
    requires
        s.len() <= 4,
        text::all_digits(s),
    ensures
        0 <= text::digits_value(s) <= 9999,
{
    reveal_with_fuel(text::digits_value, 5);
    assert forall|i: int| 0 <= i < s.len() implies 0 <= (#[trigger] s[i]) as int - '0' as int <= 9 by {
        assert(text::is_digit(s[i]));
    }
    if s.len() > 0 {
        let a = s.drop_last();
        if a.len() > 0 {
            let b = a.drop_last();
            assert(a.last() == s[s.len() - 2]);
            if b.len() > 0 {
                assert(b.last() == s[s.len() - 3]);
                let c = b.drop_last();
                if c.len() > 0 {
                    assert(c.last() == s[s.len() - 4]);
                    assert(c.drop_last().len() == 0);
                }
            }
        }
    }
}

proof fn lemma_short_int(s: Seq<char>)
    requires
        s.len() <= 4,
        text::int_value(s) is Some,
    ensures
        -999 <= text::int_value(s)->0 <= 9999,
{
    if s[0] == '-' || s[0] == '+' {
        let t = s.drop_first();
        lemma_digits_small(t);
        reveal_with_fuel(text::digits_value, 4);
        assert forall|i: int| 0 <= i < t.len() implies 0 <= (#[trigger] t[i]) as int - '0' as int <= 9 by {
            assert(text::is_digit(t[i]));
        }
        let a = t.drop_last();
        if a.len() > 0 {
            assert(a.last() == t[t.len() - 2]);
            let b = a.drop_last();
            if b.len() > 0 {
                assert(b.last() == t[t.len() - 3]);
                assert(b.drop_last().len() == 0);
            }
        }
    } else {
        lemma_digits_small(s);
    }
}

/// The number in the bytes `lo..hi` of `b`.
fn number_in(b: &[u8], lo: usize, hi: usize) -> (r: Option<i64>)
    requires
        lo <= hi <= b.len(),
        hi - lo <= 4,
    ensures
        r is Some <==> field(b@, lo as int, hi as int) is Some,
        r is Some ==> r->0 == field(b@, lo as int, hi as int)->0 && -999 <= r->0 <= 9999,
{
    let part = vstd::slice::slice_subrange(b, lo, hi);
    match from_utf8(part) {
        None => None,
        Some(s) => {
            let t = text::trim(&text::chars_of(s));
            proof {
                lemma_decode_shorter(part@);
                lemma_trim_shorter(s@);
                if text::int_value(t@) is Some {
                    lemma_short_int(t@);
                }
            }
            text::parse_i64(&t)
        },
    }
}

/// Days from 1 January 1970 to a date.
fn days_from_civil(y: i64, mo: i64, d: i64) -> (r: i64)
    requires
        -999 <= y <= 9999,
        1 <= mo <= 12,
        1 <= d <= 31,
    ensures
        r == civil_days(y as int, mo as int, d as int),
        -1_100_000 <= r <= 3_000_000,
{
    let y2: i64 = if mo <= 2 {
        y - 1
    } else {
        y
    };
    let mo2: i64 = if mo <= 2 {
        mo + 12
    } else {
        mo
    };
    // Whole eras of 400 years; the shift keeps the dividend positive.
    let era: i64 = (y2 + 1200) / 400 - 3;
    let yoe: i64 = y2 - era * 400;
    let doy: i64 = (153 * (mo2 - 3) + 2) / 5 + d - 1;
    let doe: i64 = yoe * 365 + yoe / 4 - yoe / 100 + doy;
    proof {
        let e = era as int;
        let q = yoe as int;
        assert(0 <= q < 400);
        assert(y2 == 400 * e + q);
        assert((400 * e + q) / 400 == e);
        assert((400 * e + q) / 4 == 100 * e + q / 4);
        assert((400 * e + q) / 100 == 4 * e + q / 100);
    }
    era * 146097 + doe - 719468
}

impl Timestamp {
    /// Parse "YYYY:MM:DD HH:MM:SS" (+ optional subsec string) as local time.
    /// Timezone is irrelevant for burst grouping; only deltas matter.
    pub fn from_exif(dt: &str, subsec: Option<&str>) -> (r: Option<Self>)
        ensures
            ({
                let ss = match subsec {
                    Some(s) => Some(s@),
                    None => None,
                };
                let want = exif_centis(encode_utf8(dt@), ss);
                &&& r is Some <==> want is Some
                &&& r is Some ==> r->0.unix_centis == want->0
            }),
    {
        let b = dt.as_bytes();
        if b.len() < 19 {
            return None;
        }
        let y: i64 = number_in(b, 0, 4)?;
        let mo: i64 = number_in(b, 5, 7)?;
        let d: i64 = number_in(b, 8, 10)?;
        let h: i64 = number_in(b, 11, 13)?;
        let mi: i64 = number_in(b, 14, 16)?;
        let s: i64 = number_in(b, 17, 19)?;
        if mo < 1 || mo > 12 || d < 1 || d > 31 {
            return None;
        }
        let days: i64 = days_from_civil(y, mo, d);
        let secs: i64 = days * 86400 + h * 3600 + mi * 60 + s;
        let centis: i64 = match subsec {
            None => 0,
            Some(ss) => centis_of(ss),
        };
        Some(Timestamp { unix_centis: secs * 100 + centis })
    }
}

/// A date and time of day.
pub struct Clock {
    pub y: int,
    pub mo: int,
    pub d: int,
    pub h: int,
    pub mi: int,
    pub s: int,
}

/// Whether there is such a date and time of day.
pub open spec fn on_calendar(c: Clock) -> bool {
    &&& 1 <= c.mo <= 12 && 1 <= c.d <= month_len(c.y, c.mo)
    &&& 0 <= c.h < 24 && 0 <= c.mi < 60 && 0 <= c.s < 60
}

/// Whether the characters `lo..hi` of `dt` are digits that stand for `v`.
pub open spec fn digits_show(dt: Seq<char>, lo: int, hi: int, v: int) -> bool {
    text::all_digits(dt.subrange(lo, hi)) && text::digits_value(dt.subrange(lo, hi)) == v
}

/// Whether `dt` is "YYYY:MM:DD HH:MM:SS" for `c`.
pub open spec fn shows(dt: Seq<char>, c: Clock) -> bool {
    &&& dt.len() == 19
    &&& dt[4] == ':' && dt[7] == ':' && dt[10] == ' ' && dt[13] == ':' && dt[16] == ':'
    &&& digits_show(dt, 0, 4, c.y)
    &&& digits_show(dt, 5, 7, c.mo)
    &&& digits_show(dt, 8, 10, c.d)
    &&& digits_show(dt, 11, 13, c.h)
    &&& digits_show(dt, 14, 16, c.mi)
    &&& digits_show(dt, 17, 19, c.s)
}

/// Whether a sub-second string is missing or a run of digits.
pub open spec fn plain_subsec(ss: Option<Seq<char>>) -> bool {
    ss matches Some(s) ==> s.len() > 0 && text::all_digits(s)
}

/// The first two digits of a sub-second string, with zeros for those that are
/// missing.
pub open spec fn hundredths(ss: Option<Seq<char>>) -> int {
    match ss {
        Some(s) => (s[0] as int - '0' as int) * 10 + (if s.len() > 1 {
            s[1] as int - '0' as int
        } else {
            0
        }),
        None => 0,
    }
}

/// Whether one date and time of day comes before another.
pub open spec fn earlier(a: Clock, b: Clock) -> bool {
    ||| a.y < b.y
    ||| a.y == b.y && a.mo < b.mo
    ||| a.y == b.y && a.mo == b.mo && a.d < b.d
    ||| a.y == b.y && a.mo == b.mo && a.d == b.d && a.h < b.h
    ||| a.y == b.y && a.mo == b.mo && a.d == b.d && a.h == b.h && a.mi < b.mi
    ||| a.y == b.y && a.mo == b.mo && a.d == b.d && a.h == b.h && a.mi == b.mi && a.s < b.s
}

/// The same time of day on the next day of the calendar.
pub open spec fn next_day(c: Clock) -> Clock {
    if c.d < month_len(c.y, c.mo) {
        Clock { d: c.d + 1, ..c }
    } else if c.mo < 12 {
        Clock { mo: c.mo + 1, d: 1, ..c }
    } else {
        Clock { y: c.y + 1, mo: 1, d: 1, ..c }
    }
}

/// Hundredths of a second from the start of 1970.
pub open spec fn clock_centis(c: Clock, centis: int) -> int {
    (civil_days(c.y, c.mo, c.d) * 86400 + c.h * 3600 + c.mi * 60 + c.s) * 100 + centis
}

/// Digits are read as the number that they stand for.
proof fn lemma_read_digits(dt: Seq<char>, lo: int, hi: int)
    requires
        is_ascii_chars(dt),
        0 <= lo < hi <= dt.len(),
        text::all_digits(dt.subrange(lo, hi)),
    ensures
        encode_utf8(dt).len() == dt.len(),
        field(encode_utf8(dt), lo, hi) == Some(text::digits_value(dt.subrange(lo, hi))),
{
    let part = dt.subrange(lo, hi);
    is_ascii_chars_encode_utf8(dt);
    is_ascii_chars_encode_utf8(part);
    assert(encode_utf8(part) =~= encode_utf8(dt).subrange(lo, hi)) by {
        assert forall|i: int| 0 <= i < part.len() implies #[trigger] encode_utf8(part)[i]
            == encode_utf8(dt)[lo + i] by {
            assert(part[i] == dt[lo + i]);
        }
    }
    encode_utf8_valid_utf8(part);
    encode_utf8_decode_utf8(part);
    assert(text::is_digit(part[0]) && text::is_digit(part[part.len() - 1]));
    assert(text::trimmed(part) == part);
}

/// A sub-second string of digits is read as its hundredths.
proof fn lemma_read_subsec(s: Seq<char>)
    requires
        s.len() > 0,
        text::all_digits(s),
    ensures
        subsec_centis(s) == hundredths(Some(s)),
        0 <= hundredths(Some(s)) < 100,
{
    assert(text::is_digit(s[0]) && text::is_digit(s[s.len() - 1]));
    assert(text::trimmed(s) == s);
    let two = if s.len() >= 2 {
        s.take(2)
    } else {
        s.push('0')
    };
    assert(s.len() >= 2 ==> text::is_digit(s[1]));
    assert(two[0] == s[0]);
    assert(text::all_digits(two));
    reveal_with_fuel(text::digits_value, 3);
    assert(two.drop_last().drop_last().len() == 0);
    assert(two.drop_last().last() == s[0]);
}

/// A date that is written out is read as its time.
proof fn lemma_read_clock(dt: Seq<char>, c: Clock, ss: Option<Seq<char>>)
    requires
        shows(dt, c),
        on_calendar(c),
        plain_subsec(ss),
    ensures
        exif_centis(encode_utf8(dt), ss) == Some(clock_centis(c, hundredths(ss))),
        0 <= hundredths(ss) < 100,
{
    assert forall|i: int| 0 <= i < dt.len() implies '\0' <= #[trigger] dt[i] <= '\u{7f}' by {
        if i < 4 {
            assert(text::is_digit(dt.subrange(0, 4)[i]));
        } else if 5 <= i < 7 {
            assert(text::is_digit(dt.subrange(5, 7)[i - 5]));
        } else if 8 <= i < 10 {
            assert(text::is_digit(dt.subrange(8, 10)[i - 8]));
        } else if 11 <= i < 13 {
            assert(text::is_digit(dt.subrange(11, 13)[i - 11]));
        } else if 14 <= i < 16 {
            assert(text::is_digit(dt.subrange(14, 16)[i - 14]));
        } else if 17 <= i {
            assert(text::is_digit(dt.subrange(17, 19)[i - 17]));
        }
    }
    lemma_read_digits(dt, 0, 4);
    lemma_read_digits(dt, 5, 7);
    lemma_read_digits(dt, 8, 10);
    lemma_read_digits(dt, 11, 13);
    lemma_read_digits(dt, 14, 16);
    lemma_read_digits(dt, 17, 19);
    if let Some(s) = ss {
        lemma_read_subsec(s);
    }
}

/// The last day of a month comes before the first of a later one.
proof fn lemma_later_month(y: int, mo: int, m2: int)
    requires
        1 <= mo < m2 <= 12,
    ensures
        civil_days(y, mo, month_len(y, mo)) < civil_days(y, m2, 1),
    decreases m2 - mo,
{
    days_follow_the_calendar(y, m2 - 1, 1);
    if mo < m2 - 1 {
        lemma_later_month(y, mo, m2 - 1);
    }
}

/// The last day of a year comes before the first of a later one.
proof fn lemma_later_year(y: int, y2: int)
    requires
        y < y2,
    ensures
        civil_days(y, 12, 31) < civil_days(y2, 1, 1),
    decreases y2 - y,
{
    days_follow_the_calendar(y2 - 1, 12, 1);
    if y < y2 - 1 {
        lemma_later_year(y, y2 - 1);
        lemma_later_month(y2 - 1, 1, 12);
    }
}

/// A later date has more days before it.
proof fn lemma_later_date(a: Clock, b: Clock)
    requires
        on_calendar(a),
        on_calendar(b),
        a.y < b.y || (a.y == b.y && a.mo < b.mo),
    ensures
        civil_days(a.y, a.mo, a.d) < civil_days(b.y, b.mo, b.d),
{
    assert(civil_days(a.y, a.mo, a.d) <= civil_days(a.y, a.mo, month_len(a.y, a.mo)));
    assert(civil_days(b.y, b.mo, 1) <= civil_days(b.y, b.mo, b.d));
    if a.y < b.y {
        lemma_later_year(a.y, b.y);
        if a.mo < 12 {
            lemma_later_month(a.y, a.mo, 12);
        }
        if b.mo > 1 {
            lemma_later_month(b.y, 1, b.mo);
        }
    } else {
        lemma_later_month(a.y, a.mo, b.mo);
    }
}

/// An earlier time is a smaller number, whatever the hundredths.
proof fn lemma_earlier(a: Clock, b: Clock, ca: int, cb: int)
    requires
        on_calendar(a),
        on_calendar(b),
        earlier(a, b),
        0 <= ca < 100,
        0 <= cb < 100,
    ensures
        clock_centis(a, ca) < clock_centis(b, cb),
{
    if a.y < b.y || (a.y == b.y && a.mo < b.mo) {
        lemma_later_date(a, b);
    }
}

/// Of two capture times the later has the larger number: both are read, and
/// the first number is smaller exactly where its date and time of day come
/// first, or are the same and its hundredths are fewer.
pub proof fn later_times_are_larger(
    dt1: Seq<char>,
    c1: Clock,
    ss1: Option<Seq<char>>,
    dt2: Seq<char>,
    c2: Clock,
    ss2: Option<Seq<char>>,
)
    requires
        shows(dt1, c1) && on_calendar(c1) && plain_subsec(ss1),
        shows(dt2, c2) && on_calendar(c2) && plain_subsec(ss2),
    ensures
        ({
            let t1 = exif_centis(encode_utf8(dt1), ss1);
            let t2 = exif_centis(encode_utf8(dt2), ss2);
            &&& t1 is Some && t2 is Some
            &&& t1->0 < t2->0 <==> earlier(c1, c2) || (c1 == c2 && hundredths(ss1) < hundredths(ss2))
        }),
{
    lemma_read_clock(dt1, c1, ss1);
    lemma_read_clock(dt2, c2, ss2);
    if earlier(c1, c2) {
        lemma_earlier(c1, c2, hundredths(ss1), hundredths(ss2));
    } else if earlier(c2, c1) {
        lemma_earlier(c2, c1, hundredths(ss2), hundredths(ss1));
    } else {
        assert(c1 == c2);
    }
}

/// The same time of day on the next day is 8,640,000 hundredths of a second
/// later, over the ends of months and years and leap days too.
pub proof fn a_day_is_as_long_as_any(
    dt1: Seq<char>,
    c: Clock,
    dt2: Seq<char>,
    ss: Option<Seq<char>>,
)
    requires
        shows(dt1, c) && on_calendar(c) && plain_subsec(ss),
        shows(dt2, next_day(c)),
    ensures
        ({
            let t1 = exif_centis(encode_utf8(dt1), ss);
            let t2 = exif_centis(encode_utf8(dt2), ss);
            t1 is Some && t2 is Some && t2->0 == t1->0 + 8_640_000
        }),
{
    days_follow_the_calendar(c.y, c.mo, c.d);
    lemma_read_clock(dt1, c, ss);
    lemma_read_clock(dt2, next_day(c), ss);
}

/// Hundredths of a second in an EXIF sub-second string.
fn centis_of(ss: &str) -> (r: i64)
    ensures
        r == subsec_centis(ss@),
        -999 <= r <= 9999,
{
    let t = text::trim(&text::chars_of(ss));
    let mut two: Vec<char> = Vec::new();
    if t.len() >= 1 {
        two.push(t[0]);
    } else {
        two.push('0');
    }
    if t.len() >= 2 {
        two.push(t[1]);
    } else {
        two.push('0');
    }
    proof {
        if t@.len() >= 2 {
            assert(two@ =~= t@.take(2));
        } else if t@.len() == 1 {
            assert(two@ =~= t@.push('0'));
        } else {
            assert(two@ =~= seq!['0', '0']);
        }
        if text::int_value(two@) is Some {
            lemma_short_int(two@);
        }
    }
    match text::parse_i64(&two) {
        Some(v) => v,
        None => 0,
    }
}

/// A non-negative fraction; its denominator is not 0.
pub type Fraction = (u32, u32);

#[derive(Debug, Clone, Copy, PartialEq, Eq)]
pub struct Exposure {
    /// Exposure time as (num, den), e.g. (1, 2000).
    pub time: Option<(u32, u32)>,
    /// Aperture number as a fraction.
    pub f_number: Option<Fraction>,
    pub iso: Option<u32>,
    /// Focal length in millimetres as a fraction.
    pub focal_mm: Option<Fraction>,
}

impl Default for Exposure {
    fn default() -> (r: Self)
        ensures
            r == (Exposure { time: None, f_number: None, iso: None, focal_mm: None }),
    {
        Exposure { time: None, f_number: None, iso: None, focal_mm: None }
    }
}

/// The AF area a Canon camera used, in pixels of its AF frame: the centre
/// relative to the frame's centre with +y up, and the size. Divided by the
/// frame's size these are fractions of the stored (unrotated) image.
#[derive(Debug, Clone, Copy, PartialEq, Eq, Structural)]
pub struct AfBox {
    pub x: i16,
    pub y: i16,
    pub w: u16,
    pub h: u16,
    /// Size of the AF frame; neither is 0.
    pub af_w: u16,
    pub af_h: u16,
    /// AF area mode as the camera numbers it.
    pub mode: u16,
}

/// An AF area counts as an eye up to this fraction (one part in
/// `EYE_PARTS`) of the frame along each side; larger ones are zones.
pub const EYE_PARTS: u32 = 10;

#[derive(Debug, Clone)]
pub struct FileMeta {
    pub path: String,
    pub size: u64,
    pub kind: FileKind,
    pub make: Option<String>,
    pub model: Option<String>,
    pub serial: Option<String>,
    pub lens: Option<String>,
    pub ts: Option<Timestamp>,
    pub exposure: Exposure,
    /// EXIF orientation (1 = normal).
    pub orientation: u16,
    /// Full image dimensions (0 = unknown).
    pub width: u32,
    pub height: u32,
    /// Camera file number from the filename digits (e.g. 4P4A9770 -> 9770).
    pub file_number: Option<u32>,
    /// Hash of the first bytes of the file (0 before the header is read).
    pub content_key: u64,
    /// AF area recorded by the camera.
    pub af_box: Option<AfBox>,
    pub thumb: Option<PreviewInfo>,
    pub preview: Option<PreviewInfo>,
    pub fullsize: Option<PreviewInfo>,
}

/// The value of a `FileMeta`, its strings as character sequences.
#[verifier::ext_equal]
pub struct MetaView {
    pub path: Seq<char>,
    pub size: u64,
    pub kind: FileKind,
    pub make: Option<Seq<char>>,
    pub model: Option<Seq<char>>,
    pub serial: Option<Seq<char>>,
    pub lens: Option<Seq<char>>,
    pub ts: Option<Timestamp>,
    pub exposure: Exposure,
    pub orientation: u16,
    pub width: u32,
    pub height: u32,
    pub file_number: Option<u32>,
    pub content_key: u64,
    pub af_box: Option<AfBox>,
    pub thumb: Option<PreviewInfo>,
    pub preview: Option<PreviewInfo>,
    pub fullsize: Option<PreviewInfo>,
}

impl View for FileMeta {
    type V = MetaView;

    open spec fn view(&self) -> MetaView {
        MetaView {
            path: self.path@,
            size: self.size,
            kind: self.kind,
            make: path::opt_view(self.make),
            model: path::opt_view(self.model),
            serial: path::opt_view(self.serial),
            lens: path::opt_view(self.lens),
            ts: self.ts,
            exposure: self.exposure,
            orientation: self.orientation,
            width: self.width,
            height: self.height,
            file_number: self.file_number,
            content_key: self.content_key,
            af_box: self.af_box,
            thumb: self.thumb,
            preview: self.preview,
            fullsize: self.fullsize,
        }
    }
}

/// The run of digits that `s` ends in.
pub open spec fn trailing_digits(s: Seq<char>) -> Seq<char>
    decreases s.len(),
{
    if s.len() > 0 && text::is_digit(s.last()) {
        trailing_digits(s.drop_last()).push(s.last())
    } else {
        Seq::empty()
    }
}

/// The camera's file number in a file stem: the digits it ends in, if there
/// are any and they fit 32 bits.
pub open spec fn number_of_stem(stem: Seq<char>) -> Option<u32> {
    let d = trailing_digits(stem);
    if d.len() > 0 && text::digits_value(d) <= u32::MAX {
        Some(text::digits_value(d) as u32)
    } else {
        None
    }
}

proof fn lemma_trailing_digits(s: Seq<char>, k: int)
    requires
        0 <= k <= s.len(),
        forall|i: int| k <= i < s.len() ==> text::is_digit(#[trigger] s[i]),
        k > 0 ==> !text::is_digit(s[k - 1]),
    ensures
        trailing_digits(s) == s.skip(k),
        text::all_digits(trailing_digits(s)),
    decreases s.len(),
{
    if k < s.len() {
        let d = s.drop_last();
        assert(text::is_digit(s[s.len() - 1]));
        lemma_trailing_digits(d, k);
        assert(d.skip(k).push(s.last()) =~= s.skip(k));
    } else {
        assert(s.skip(k) =~= Seq::<char>::empty());
    }
}

/// What stands before a character that is no digit does not count.
proof fn lemma_digits_after(front: Seq<char>, s: Seq<char>)
    requires
        front.len() == 0 || !text::is_digit(front.last()),
    ensures
        trailing_digits(front + s) == trailing_digits(s),
    decreases s.len(),
{
    if s.len() > 0 {
        lemma_digits_after(front, s.drop_last());
        assert((front + s).drop_last() =~= front + s.drop_last());
    } else {
        assert(front + s =~= front);
    }
}

/// The camera's file number in a file stem.
pub fn file_number_of(stem: &str) -> (r: Option<u32>)
    ensures
        r == number_of_stem(stem@),
{
    let cs = text::chars_of(stem);
    let mut k: usize = cs.len();
    while k > 0 && '0' <= cs[k - 1] && cs[k - 1] <= '9'
        invariant
            k <= cs.len(),
            forall|i: int| k <= i < cs.len() ==> text::is_digit(#[trigger] cs@[i]),
        decreases k,
    {
        k -= 1;
    }
    proof {
        lemma_trailing_digits(cs@, k as int);
        text::lemma_digits_nonneg(cs@.skip(k as int));
    }
    let run = vstd::slice::slice_subrange(cs.as_slice(), k, cs.len());
    assert(run@ =~= cs@.skip(k as int));
    assert(run@.len() > 0 ==> text::is_digit(run@[0]));
    match text::parse_unsigned(run, u32::MAX as u64) {
        Some(v) => Some(v as u32),
        None => None,
    }
}

impl FileMeta {
    /// What is known of a file before its header is read.
    pub fn new(path: String, size: u64, kind: FileKind) -> (r: Self)
        ensures
            ({
                let m = r@;
                &&& m == (MetaView { file_number: m.file_number, ..blank_meta(path@, size, kind) })
                &&& path::readable(path@) ==> m.file_number == number_of_stem(
                    path::shared_stem(path@),
                )
            }),
    {
        let ghost p = path@;
        let file_number: Option<u32> = match path::file_stem(path.as_str()) {
            Some(stem) => {
                proof {
                    if path::readable(p) {
                        path::lemma_readable(p);
                        let k = choose|k: int| #[trigger]
                            path::may_start(p, k) && stem@ == path::name_stem(p.skip(k));
                        path::lemma_start(p, k);
                        let front = p.subrange(k, path::last_break(p) + 1);
                        assert(stem@ =~= front + path::shared_stem(p));
                        lemma_digits_after(front, path::shared_stem(p));
                    }
                }
                file_number_of(stem.as_str())
            },
            None => None,
        };
        FileMeta {
            path,
            size,
            kind,
            make: None,
            model: None,
            serial: None,
            lens: None,
            ts: None,
            exposure: Exposure::default(),
            orientation: 1,
            width: 0,
            height: 0,
            file_number,
            content_key: 0,
            af_box: None,
            thumb: None,
            preview: None,
            fullsize: None,
        }
    }

    /// The AF area if it is small enough to be an eye frame: the camera also
    /// records whole zones, which say nothing about where the eye is.
    pub fn af_box_eye(&self) -> (r: Option<AfBox>)
        ensures
            r == eye_box(self@),
    {
        match self.af_box {
            Some(b) => {
                if b.w as u32 * EYE_PARTS <= b.af_w as u32 && b.h as u32 * EYE_PARTS
                    <= b.af_h as u32 {
                    Some(b)
                } else {
                    None
                }
            },
            None => None,
        }
    }

    /// Image dimensions as displayed, with the EXIF orientation applied.
    pub fn display_dims(&self) -> (r: (u32, u32))
        ensures
            r == upright_dims(self@),
    {
        if 5 <= self.orientation && self.orientation <= 8 {
            (self.height, self.width)
        } else {
            (self.width, self.height)
        }
    }
}

/// The AF area of `m` if it is an eye frame.
pub open spec fn eye_box(m: MetaView) -> Option<AfBox> {
    match m.af_box {
        Some(b) if b.w * EYE_PARTS <= b.af_w && b.h * EYE_PARTS <= b.af_h => Some(b),
        _ => None,
    }
}

/// Width and height of `m` as displayed: orientations 5 to 8 turn the image
/// on its side.
pub open spec fn upright_dims(m: MetaView) -> (u32, u32) {
    if 5 <= m.orientation <= 8 {
        (m.height, m.width)
    } else {
        (m.width, m.height)
    }
}

/// A file of which only path, size and kind are known.
pub open spec fn blank_meta(path: Seq<char>, size: u64, kind: FileKind) -> MetaView {
    MetaView {
        path,
        size,
        kind,
        make: None,
        model: None,
        serial: None,
        lens: None,
        ts: None,
        exposure: Exposure { time: None, f_number: None, iso: None, focal_mm: None },
        orientation: 1,
        width: 0,
        height: 0,
        file_number: None,
        content_key: 0,
        af_box: None,
        thumb: None,
        preview: None,
        fullsize: None,
    }
}

/// A stem that ends in the digits of a number gives that number, whatever
/// stands before them, as long as it fits 32 bits.
pub proof fn stems_end_in_their_number(name: Seq<char>, digits: Seq<char>)
    requires
        digits.len() > 0,
        text::all_digits(digits),
        name.len() > 0 ==> !('0' <= name.last() <= '9'),
    ensures
        text::digits_value(digits) <= 0xffff_ffff ==> number_of_stem(name + digits) == Some(
            text::digits_value(digits) as u32,
        ),
        text::digits_value(digits) > 0xffff_ffff ==> number_of_stem(name + digits) is None,
        number_of_stem(name) is None,
{
    let s = name + digits;
    let k = name.len() as int;
    assert forall|i: int| k <= i < s.len() implies text::is_digit(#[trigger] s[i]) by {
        assert(s[i] == digits[i - k]);
    }
    lemma_trailing_digits(s, k);
    assert(s.skip(k) =~= digits);
}

/// An AF area counts as an eye where it takes up a tenth of the frame at most,
/// along each side.
pub proof fn eyes_are_small(m: MetaView)
    ensures
        eye_box(m) is Some <==> m.af_box is Some && 10 * m.af_box->0.w <= m.af_box->0.af_w && 10
            * m.af_box->0.h <= m.af_box->0.af_h,
        eye_box(m) is Some ==> eye_box(m) == m.af_box,
{
}

/// A file's dimensions as displayed are those of its image once that is
/// turned upright.
pub proof fn displayed_dims_are_upright(m: MetaView)
    ensures
        upright_dims(m).0 == crate::decode::turned_dims(
            m.orientation,
            m.width as int,
            m.height as int,
        ).0,
        upright_dims(m).1 == crate::decode::turned_dims(
            m.orientation,
            m.width as int,
            m.height as int,
        ).1,
{
}

/// Of a file whose header was not read nothing is known but its path, its size
/// and its kind; it counts as upright.
pub proof fn new_files_are_blank(path: Seq<char>, size: u64, kind: FileKind)
    ensures
        ({
            let m = blank_meta(path, size, kind);
            &&& m.path == path && m.size == size && m.kind == kind
            &&& m.make is None && m.model is None && m.serial is None && m.lens is None
            &&& m.ts is None && m.af_box is None && m.file_number is None
            &&& m.thumb is None && m.preview is None && m.fullsize is None
            &&& m.orientation == 1 && m.width == 0 && m.height == 0 && m.content_key == 0
            &&& m.exposure.time is None && m.exposure.f_number is None && m.exposure.iso is None
                && m.exposure.focal_mm is None
        }),
{
}

} // verus!
