//! Calendar date-times at one-second resolution, rendered and parsed in the
//! `YYYY-MM-DD HH:MM:SS` form that the resolver chains produce.

use vstd::prelude::*;
use crate::chars::{
    digit_val, is_digit, pad2, pad4, seq_val, digit_value, pad2_string, pad4_string,
    lemma_seq_val2, lemma_seq_val4, lemma_pad2_val, lemma_pad4_val,
};

verus! {

/// A civil UTC date-time, second resolution, year 0 through 9999.
#[derive(Clone, Copy, PartialEq, Eq, Structural, Debug)]
pub struct Timestamp {
    pub year: u64,
    pub month: u64,
    pub day: u64,
    pub hour: u64,
    pub minute: u64,
    pub second: u64,
}

pub open spec fn is_leap_year(y: int) -> bool {
    y % 4 == 0 && (y % 100 != 0 || y % 400 == 0)
}

pub open spec fn days_in_month(y: int, m: int) -> int {
    if m == 2 {
        if is_leap_year(y) {
            29
        } else {
            28
        }
    } else if m == 4 || m == 6 || m == 9 || m == 11 {
        30
    } else {
        31
    }
}

impl Timestamp {
    /// A well-formed calendar date-time: every field in range, the day valid
    /// for its month and year.
    pub open spec fn wf(self) -> bool {
        &&& self.year <= 9999
        &&& 1 <= self.month <= 12
        &&& 1 <= self.day <= days_in_month(self.year as int, self.month as int)
        &&& self.hour <= 23
        &&& self.minute <= 59
        &&& self.second <= 59
    }
}

/// `YYYY-MM-DD`.
pub open spec fn date_seq(ts: Timestamp) -> Seq<char> {
    pad4(ts.year as int) + seq!['-'] + pad2(ts.month as int) + seq!['-'] + pad2(ts.day as int)
}

/// `HH:MM:SS`.
pub open spec fn time_seq(ts: Timestamp) -> Seq<char> {
    pad2(ts.hour as int) + seq![':'] + pad2(ts.minute as int) + seq![':'] + pad2(
        ts.second as int,
    )
}

/// `YYYY-MM-DD HH:MM:SS`.
pub open spec fn timestamp_seq(ts: Timestamp) -> Seq<char> {
    date_seq(ts) + seq![' '] + time_seq(ts)
}

/// What parsing a `YYYY-MM-DD HH:MM:SS` string yields: the well-formed
/// date-time it denotes, or nothing when the shape or the calendar check
/// fails.
pub open spec fn parsed_timestamp(s: Seq<char>) -> Option<Timestamp> {
    if s.len() == 19 && s[4] == '-' && s[7] == '-' && s[10] == ' ' && s[13] == ':' && s[16] == ':'
        && (forall|i: int|
        0 <= i < 19 && i != 4 && i != 7 && i != 10 && i != 13 && i != 16 ==> is_digit(#[trigger] s[i])) {
        let ts = Timestamp {
            year: seq_val(s.subrange(0, 4)) as u64,
            month: seq_val(s.subrange(5, 7)) as u64,
            day: seq_val(s.subrange(8, 10)) as u64,
            hour: seq_val(s.subrange(11, 13)) as u64,
            minute: seq_val(s.subrange(14, 16)) as u64,
            second: seq_val(s.subrange(17, 19)) as u64,
        };
        if ts.wf() {
            Some(ts)
        } else {
            None
        }
    } else {
        None
    }
}

/// Rendering and parsing agree: the rendered form of a well-formed
/// date-time parses back to that very date-time. A date the library itself
/// rendered is therefore never rejected later.
pub proof fn lemma_timestamp_roundtrip(ts: Timestamp)
    requires
        ts.wf(),
    ensures
        parsed_timestamp(timestamp_seq(ts)) == Some(ts),
{
    let s = timestamp_seq(ts);
    let y = pad4(ts.year as int);
    let mo = pad2(ts.month as int);
    let d = pad2(ts.day as int);
    let h = pad2(ts.hour as int);
    let mi = pad2(ts.minute as int);
    let sec = pad2(ts.second as int);
    lemma_pad4_val(ts.year as int);
    lemma_pad2_val(ts.month as int);
    lemma_pad2_val(ts.day as int);
    lemma_pad2_val(ts.hour as int);
    lemma_pad2_val(ts.minute as int);
    lemma_pad2_val(ts.second as int);
    assert(s.len() == 19);
    assert(s.subrange(0, 4) =~= y);
    assert(s[4] == '-');
    assert(s.subrange(5, 7) =~= mo);
    assert(s[7] == '-');
    assert(s.subrange(8, 10) =~= d);
    assert(s[10] == ' ');
    assert(s.subrange(11, 13) =~= h);
    assert(s[13] == ':');
    assert(s.subrange(14, 16) =~= mi);
    assert(s[16] == ':');
    assert(s.subrange(17, 19) =~= sec);
    assert forall|i: int|
        0 <= i < 19 && i != 4 && i != 7 && i != 10 && i != 13 && i != 16 implies is_digit(
        #[trigger] s[i],
    ) by {
        if i < 4 {
            assert(s[i] == y[i]);
        } else if i < 7 {
            assert(s[i] == mo[i - 5]);
        } else if i < 10 {
            assert(s[i] == d[i - 8]);
        } else if i < 13 {
            assert(s[i] == h[i - 11]);
        } else if i < 16 {
            assert(s[i] == mi[i - 14]);
        } else {
            assert(s[i] == sec[i - 17]);
        }
    }
}

/// Reads two digit characters of `s` starting at `at`.
fn parse2(s: &str, at: usize) -> (r: Option<u64>)
    requires
        at + 2 <= s@.len(),
        s@.len() <= usize::MAX,
    ensures
        match r {
            Some(v) => {
                &&& is_digit(s@[at as int]) && is_digit(s@[at + 1])
                &&& v == seq_val(s@.subrange(at as int, at + 2))
                &&& v < 100
            },
            None => !(is_digit(s@[at as int]) && is_digit(s@[at + 1])),
        },
{
    let d0 = digit_value(s.get_char(at));
    let d1 = digit_value(s.get_char(at + 1));
    match (d0, d1) {
        (Some(a), Some(b)) => {
            proof {
                lemma_seq_val2(s@.subrange(at as int, at + 2));
            }
            Some(a * 10 + b)
        },
        _ => None,
    }
}

/// Reads four digit characters of `s` starting at `at`.
fn parse4(s: &str, at: usize) -> (r: Option<u64>)
    requires
        at + 4 <= s@.len(),
        s@.len() <= usize::MAX,
    ensures
        match r {
            Some(v) => {
                &&& forall|i: int| at <= i < at + 4 ==> is_digit(#[trigger] s@[i])
                &&& v == seq_val(s@.subrange(at as int, at + 4))
                &&& v < 10000
            },
            None => !(forall|i: int| at <= i < at + 4 ==> is_digit(#[trigger] s@[i])),
        },
{
    let d0 = digit_value(s.get_char(at));
    let d1 = digit_value(s.get_char(at + 1));
    let d2 = digit_value(s.get_char(at + 2));
    let d3 = digit_value(s.get_char(at + 3));
    match (d0, d1, d2, d3) {
        (Some(a), Some(b), Some(c), Some(d)) => {
            proof {
                lemma_seq_val4(s@.subrange(at as int, at + 4));
            }
            Some(((a * 10 + b) * 10 + c) * 10 + d)
        },
        _ => None,
    }
}

/// Whether the fields form a well-formed calendar date-time.
pub(crate) fn parts_valid(year: u64, month: u64, day: u64, hour: u64, minute: u64, second: u64) -> (r: bool)
    ensures
        r == (Timestamp { year, month, day, hour, minute, second }).wf(),
{
    if year > 9999 || month < 1 || month > 12 || day < 1 || hour > 23 || minute > 59 || second
        > 59 {
        return false;
    }
    let dim: u64 = if month == 2 {
        if year % 4 == 0 && (year % 100 != 0 || year % 400 == 0) {
            29
        } else {
            28
        }
    } else if month == 4 || month == 6 || month == 9 || month == 11 {
        30
    } else {
        31
    };
    day <= dim
}

/// Parses `YYYY-MM-DD HH:MM:SS`, accepting exactly the well-formed
/// date-times.
pub fn parse_timestamp(s: &str) -> (r: Option<Timestamp>)
    ensures
        r == parsed_timestamp(s@),
{
    if s.unicode_len() != 19 {
        return None;
    }
    if s.get_char(4) != '-' || s.get_char(7) != '-' || s.get_char(10) != ' ' || s.get_char(13)
        != ':' || s.get_char(16) != ':' {
        return None;
    }
    let year = parse4(s, 0);
    let month = parse2(s, 5);
    let day = parse2(s, 8);
    let hour = parse2(s, 11);
    let minute = parse2(s, 14);
    let second = parse2(s, 17);
    match (year, month, day, hour, minute, second) {
        (Some(y), Some(mo), Some(d), Some(h), Some(mi), Some(sec)) => {
            if parts_valid(y, mo, d, h, mi, sec) {
                Some(Timestamp { year: y, month: mo, day: d, hour: h, minute: mi, second: sec })
            } else {
                None
            }
        },
        _ => None,
    }
}

/// Renders `YYYY-MM-DD`.
pub fn date_string(ts: &Timestamp) -> (r: String)
    requires
        ts.wf(),
    ensures
        r@ == date_seq(*ts),
{
    proof {
        reveal_strlit("-");
    }
    let mut r = pad4_string(ts.year);
    r.append("-");
    let mo = pad2_string(ts.month);
    r.append(mo.as_str());
    r.append("-");
    let d = pad2_string(ts.day);
    r.append(d.as_str());
    proof {
        assert(r@ =~= date_seq(*ts));
    }
    r
}

/// Renders `YYYY-MM-DD HH:MM:SS`.
pub fn format_timestamp(ts: &Timestamp) -> (r: String)
    requires
        ts.wf(),
    ensures
        r@ == timestamp_seq(*ts),
{
    proof {
        reveal_strlit(" ");
        reveal_strlit(":");
    }
    let mut r = date_string(ts);
    r.append(" ");
    let h = pad2_string(ts.hour);
    r.append(h.as_str());
    r.append(":");
    let mi = pad2_string(ts.minute);
    r.append(mi.as_str());
    r.append(":");
    let sec = pad2_string(ts.second);
    r.append(sec.as_str());
    proof {
        assert(r@ =~= timestamp_seq(*ts));
    }
    r
}

} // verus!
