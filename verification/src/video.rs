//! The video timestamp resolver: scans a container-metadata text dump for a
//! creation date, preferring the vendor-specific tag, then falls back on the
//! filename convention and the filesystem time.

use vstd::prelude::*;
use crate::chars::{is_digit, is_digit_char};
use crate::copier::{DateResult, DateResultView};
use crate::filename::{convention_date, video_convention_date};
use crate::filetools::{unix_time_string, get_time_from_unix};
use crate::strings::{
    is_first_occurrence, lemma_first_occurrence_unique, starts_with_seq, trimmed_start,
    lemma_trimmed_start_len, opt_seq, find_char, trim_start, str_starts_with,
};

verus! {

/// `s` has the shape `YYYY-MM-DD`.
pub open spec fn date_shape(s: Seq<char>) -> bool {
    &&& s.len() == 10
    &&& is_digit(s[0]) && is_digit(s[1]) && is_digit(s[2]) && is_digit(s[3])
    &&& s[4] == '-'
    &&& is_digit(s[5]) && is_digit(s[6])
    &&& s[7] == '-'
    &&& is_digit(s[8]) && is_digit(s[9])
}

/// `s` has the shape `hh:mm:ss`.
pub open spec fn time_shape(s: Seq<char>) -> bool {
    &&& s.len() == 8
    &&& is_digit(s[0]) && is_digit(s[1])
    &&& s[2] == ':'
    &&& is_digit(s[3]) && is_digit(s[4])
    &&& s[5] == ':'
    &&& is_digit(s[6]) && is_digit(s[7])
}

/// `s` begins with `YYYY-MM-DDThh:mm:ss`.
pub open spec fn leads_with_datetime(s: Seq<char>) -> bool {
    &&& s.len() >= 19
    &&& date_shape(s.take(10))
    &&& s[10] == 'T'
    &&& time_shape(s.subrange(11, 19))
}

/// The date and time at the head of `s`, joined by a space.
pub open spec fn datetime_of(s: Seq<char>) -> Seq<char> {
    s.take(10) + seq![' '] + s.subrange(11, 19)
}

/// `s` begins with a sub-second fraction and a zone mark: a dot, one or
/// more digits, then `Z`.
pub open spec fn fraction_z(s: Seq<char>) -> bool {
    &&& s.len() >= 3
    &&& s[0] == '.'
    &&& exists|m: int|
        2 <= m < s.len() && s[m] == 'Z' && (forall|j: int| 1 <= j < m ==> is_digit(#[trigger] s[j]))
}

/// The content of the part of `s` before the break at `brk`, a carriage
/// return right before the break removed.
pub open spec fn line_of(s: Seq<char>, brk: int) -> Seq<char> {
    let raw = s.take(brk);
    if raw.len() > 0 && raw.last() == '\r' {
        raw.drop_last()
    } else {
        raw
    }
}

/// The first line of `s` that, its leading whitespace dropped, starts with
/// `tag`; lines are split at newlines.
pub open spec fn first_tag_line(s: Seq<char>, tag: Seq<char>) -> Option<Seq<char>>
    decreases s.len(),
{
    if s.len() == 0 {
        None
    } else if exists|i: int| is_first_occurrence(s, '\n', i) {
        let brk = choose|i: int| is_first_occurrence(s, '\n', i);
        let line = line_of(s, brk);
        if starts_with_seq(trimmed_start(line), tag) {
            Some(line)
        } else {
            first_tag_line(s.skip(brk + 1), tag)
        }
    } else {
        if starts_with_seq(trimmed_start(s), tag) {
            Some(s)
        } else {
            None
        }
    }
}

/// What the vendor-specific line yields: after the tag, a colon, then
/// whitespace, a date-time follows; its date and time, or nothing when the
/// line is malformed.
pub open spec fn quicktime_parsed(line: Seq<char>) -> Option<Seq<char>> {
    let t = trimmed_start(line);
    if starts_with_seq(t, "com.apple.quicktime.creationdate"@) && t.len() > 32 && t[32] == ':' {
        let after = t.skip(33);
        let v = trimmed_start(after);
        if v.len() < after.len() && leads_with_datetime(v) {
            Some(datetime_of(v))
        } else {
            None
        }
    } else {
        None
    }
}

/// What the generic line yields: after the tag, whitespace, a colon, more
/// whitespace, a date-time with a sub-second fraction and `Z` follows; its
/// date and time with the fraction discarded, or nothing when malformed.
pub open spec fn creation_time_parsed(line: Seq<char>) -> Option<Seq<char>> {
    let t = trimmed_start(line);
    if starts_with_seq(t, "creation_time"@) {
        let a = t.skip(13);
        let b = trimmed_start(a);
        if b.len() < a.len() && b.len() > 0 && b[0] == ':' {
            let c = b.skip(1);
            let v = trimmed_start(c);
            if v.len() < c.len() && leads_with_datetime(v) && fraction_z(v.skip(19)) {
                Some(datetime_of(v))
            } else {
                None
            }
        } else {
            None
        }
    } else {
        None
    }
}

/// The creation date-time a metadata dump yields: the first vendor-specific
/// tag line if it parses; else the first generic tag line if it parses;
/// else nothing.
pub open spec fn creation_time_from_dump(dump: Seq<char>) -> Option<Seq<char>> {
    let qt = match first_tag_line(dump, "com.apple.quicktime.creationdate"@) {
        Some(line) => quicktime_parsed(line),
        None => None,
    };
    if qt is Some {
        qt
    } else {
        match first_tag_line(dump, "creation_time"@) {
            Some(line) => creation_time_parsed(line),
            None => None,
        }
    }
}

/// The video fallback chain, first success winning: the metadata dump (when
/// the external tool produced one); the messaging-app filename convention;
/// the filesystem time. Nothing only when the chain reaches the filesystem
/// time and that time has no calendar form.
pub open spec fn video_resolution(
    dump: Option<Seq<char>>,
    name: Seq<char>,
    fs_secs: i64,
) -> Option<DateResultView> {
    let meta = match dump {
        Some(d) => creation_time_from_dump(d),
        None => None,
    };
    if meta is Some {
        Some(DateResultView::FromMetadata(meta->0))
    } else if convention_date(name, 'V', 'I', 'D', 'm', 'p', '4') is Some {
        Some(DateResultView::Inferred(convention_date(name, 'V', 'I', 'D', 'm', 'p', '4')->0))
    } else {
        match unix_time_string(fs_secs) {
            Some(s) => Some(DateResultView::Inferred(s)),
            None => None,
        }
    }
}

/// Checks `leads_with_datetime` and builds the date-time string.
fn parse_datetime_lead(s: &str) -> (r: Option<String>)
    ensures
        match r {
            Some(v) => leads_with_datetime(s@) && v@ == datetime_of(s@),
            None => !leads_with_datetime(s@),
        },
{
    let len = s.unicode_len();
    if len < 19 {
        return None;
    }
    let date = s.substring_char(0, 10);
    proof {
        assert(date@ =~= s@.take(10));
    }
    if !(is_digit_char(date.get_char(0)) && is_digit_char(date.get_char(1)) && is_digit_char(
        date.get_char(2),
    ) && is_digit_char(date.get_char(3)) && date.get_char(4) == '-' && is_digit_char(
        date.get_char(5),
    ) && is_digit_char(date.get_char(6)) && date.get_char(7) == '-' && is_digit_char(
        date.get_char(8),
    ) && is_digit_char(date.get_char(9))) {
        return None;
    }
    if s.get_char(10) != 'T' {
        return None;
    }
    let time = s.substring_char(11, 19);
    proof {
        assert(time@ =~= s@.subrange(11, 19));
    }
    if !(is_digit_char(time.get_char(0)) && is_digit_char(time.get_char(1)) && time.get_char(2)
        == ':' && is_digit_char(time.get_char(3)) && is_digit_char(time.get_char(4))
        && time.get_char(5) == ':' && is_digit_char(time.get_char(6)) && is_digit_char(
        time.get_char(7),
    )) {
        return None;
    }
    proof {
        reveal_strlit(" ");
    }
    let mut r = date.to_owned();
    r.append(" ");
    r.append(time);
    proof {
        assert(r@ =~= datetime_of(s@));
    }
    Some(r)
}

/// Checks `fraction_z`.
fn check_fraction_z(s: &str) -> (r: bool)
    ensures
        r == fraction_z(s@),
{
    let len = s.unicode_len();
    if len < 3 {
        return false;
    }
    if s.get_char(0) != '.' {
        return false;
    }
    let mut p: usize = 1;
    while p < len && is_digit_char(s.get_char(p))
        invariant
            len == s@.len(),
            1 <= p <= len,
            forall|j: int| 1 <= j < p ==> is_digit(#[trigger] s@[j]),
        decreases len - p,
    {
        p += 1;
    }
    // p is the first position at or after 1 that is not a digit
    if p >= 2 && p < len && s.get_char(p) == 'Z' {
        proof {
            assert(2 <= p < s@.len() && s@[p as int] == 'Z' && (forall|j: int|
                1 <= j < p ==> is_digit(#[trigger] s@[j])));
        }
        true
    } else {
        proof {
            if exists|m: int|
                2 <= m < s@.len() && s@[m] == 'Z' && (forall|j: int|
                    1 <= j < m ==> is_digit(#[trigger] s@[j])) {
                let m = choose|m: int|
                    2 <= m < s@.len() && s@[m] == 'Z' && (forall|j: int|
                        1 <= j < m ==> is_digit(#[trigger] s@[j]));
                if m < p {
                    assert(is_digit(s@[m]));
                    assert(false);
                } else {
                    assert(p < s@.len() ==> !is_digit(s@[p as int]));
                    if m > p {
                        assert(is_digit(s@[p as int]));
                        assert(false);
                    }
                }
            }
        }
        false
    }
}

pub struct VideoHandler {}

impl VideoHandler {
    pub fn new() -> VideoHandler {
        VideoHandler {  }
    }

    /// Parses one vendor-specific tag line.
    pub fn parse_quicktime_creation_date(&self, s: &str) -> (r: Option<String>)
        ensures
            opt_seq(r) == quicktime_parsed(s@),
    {
        let t = trim_start(s);
        let tlen = t.unicode_len();
        if !str_starts_with(t, "com.apple.quicktime.creationdate") {
            return None;
        }
        if !(tlen > 32) {
            return None;
        }
        if t.get_char(32) != ':' {
            return None;
        }
        let after = t.substring_char(33, tlen);
        proof {
            assert(after@ =~= trimmed_start(s@).skip(33));
        }
        let v = trim_start(after);
        if v.unicode_len() == after.unicode_len() {
            return None;
        }
        proof {
            lemma_trimmed_start_len(after@);
        }
        parse_datetime_lead(v)
    }

    /// Parses one generic tag line.
    pub fn parse_creation_time(&self, s: &str) -> (r: Option<String>)
        ensures
            opt_seq(r) == creation_time_parsed(s@),
    {
        let t = trim_start(s);
        let tlen = t.unicode_len();
        if !str_starts_with(t, "creation_time") {
            return None;
        }
        proof {
            reveal_strlit("creation_time");
        }
        let a = t.substring_char(13, tlen);
        proof {
            assert(a@ =~= trimmed_start(s@).skip(13));
        }
        let b = trim_start(a);
        let blen = b.unicode_len();
        if blen == a.unicode_len() || blen == 0 {
            return None;
        }
        proof {
            lemma_trimmed_start_len(a@);
        }
        if b.get_char(0) != ':' {
            return None;
        }
        let c = b.substring_char(1, blen);
        proof {
            assert(c@ =~= trimmed_start(trimmed_start(s@).skip(13)).skip(1));
        }
        let v = trim_start(c);
        let vlen = v.unicode_len();
        if vlen == c.unicode_len() {
            return None;
        }
        proof {
            lemma_trimmed_start_len(c@);
        }
        let lead = parse_datetime_lead(v);
        match lead {
            None => None,
            Some(value) => {
                let tail = v.substring_char(19, vlen);
                proof {
                    assert(tail@ =~= v@.skip(19));
                }
                if check_fraction_z(tail) {
                    Some(value)
                } else {
                    None
                }
            },
        }
    }

    /// The first line of `s` that, after leading whitespace, starts with
    /// `tag`.
    fn find_tag_line(s: &str, tag: &str) -> (r: Option<String>)
        ensures
            opt_seq(r) == first_tag_line(s@, tag@),
        decreases s@.len(),
    {
        let len = s.unicode_len();
        if len == 0 {
            return None;
        }
        match find_char(s, '\n') {
            Some(brk) => {
                proof {
                    let w = choose|i: int| is_first_occurrence(s@, '\n', i);
                    lemma_first_occurrence_unique(s@, '\n', w, brk as int);
                }
                let end = if brk > 0 && s.get_char(brk - 1) == '\r' {
                    brk - 1
                } else {
                    brk
                };
                let line = s.substring_char(0, end);
                proof {
                    assert(s@.take(brk as int).len() == brk as int);
                    if brk > 0 && s@[brk - 1] == '\r' {
                        assert(s@.take(brk as int).last() == s@[brk - 1]);
                        assert(line@ =~= line_of(s@, brk as int));
                    } else {
                        if brk > 0 {
                            assert(s@.take(brk as int).last() == s@[brk - 1]);
                        }
                        assert(line@ =~= line_of(s@, brk as int));
                    }
                }
                if str_starts_with(trim_start(line), tag) {
                    Some(line.to_owned())
                } else {
                    let rest = s.substring_char(brk + 1, len);
                    proof {
                        assert(rest@ =~= s@.skip(brk + 1));
                    }
                    VideoHandler::find_tag_line(rest, tag)
                }
            },
            None => {
                proof {
                    assert(forall|i: int| !is_first_occurrence(s@, '\n', i));
                }
                if str_starts_with(trim_start(s), tag) {
                    Some(s.to_owned())
                } else {
                    None
                }
            },
        }
    }

    /// Scans a metadata dump for a creation date-time, vendor tag first.
    pub fn get_creationtime_from_string(&self, s: &str) -> (r: Option<String>)
        ensures
            opt_seq(r) == creation_time_from_dump(s@),
    {
        let qt_line = VideoHandler::find_tag_line(s, "com.apple.quicktime.creationdate");
        if let Some(line) = qt_line {
            let parsed = self.parse_quicktime_creation_date(line.as_str());
            if parsed.is_some() {
                return parsed;
            }
        }
        let ct_line = VideoHandler::find_tag_line(s, "creation_time");
        match ct_line {
            Some(line) => self.parse_creation_time(line.as_str()),
            None => None,
        }
    }

    /// Resolves a video's date-time from its metadata dump (when the
    /// external tool produced one), its name and its filesystem time.
    pub fn get_date_time(&self, dump: Option<&str>, file_name: &str, fs_secs: i64) -> (r: Option<
        DateResult,
    >)
        ensures
            ({
                let dump_seq = match dump {
                    Some(d) => Some(d@),
                    None => None,
                };
                match r {
                    Some(dr) => video_resolution(dump_seq, file_name@, fs_secs) == Some(dr@),
                    None => video_resolution(dump_seq, file_name@, fs_secs) is None,
                }
            }),
    {
        if let Some(text) = dump {
            if let Some(ct) = self.get_creationtime_from_string(text) {
                return Some(DateResult::FromMetadata(ct));
            }
        }
        if let Some(d) = video_convention_date(file_name) {
            return Some(DateResult::Inferred(d));
        }
        match get_time_from_unix(fs_secs) {
            Some(s) => Some(DateResult::Inferred(s)),
            None => None,
        }
    }
}

/// Filename-convention fallback: a video without container metadata whose
/// name matches the messaging-app convention resolves, with provenance
/// `Inferred`, to the date the name encodes followed by the placeholder
/// time ` 13:00:00`.
pub proof fn lemma_video_convention_fallback(name: Seq<char>, fs_secs: i64, i: int)
    requires
        crate::filename::convention_first_at(name, 'V', 'I', 'D', 'm', 'p', '4', i),
    ensures
        video_resolution(None, name, fs_secs) == Some(
            DateResultView::Inferred(crate::filename::convention_date_seq(name, i)),
        ),
        crate::filename::convention_date_seq(name, i).skip(10) == seq![' ', '1', '3', ':', '0', '0', ':', '0', '0'],
{
    let w = choose|k: int| crate::filename::convention_first_at(name, 'V', 'I', 'D', 'm', 'p', '4', k);
    crate::filename::lemma_convention_first_unique(name, 'V', 'I', 'D', 'm', 'p', '4', w, i);
    assert(crate::filename::convention_date_seq(name, i).skip(10) =~= seq![' ', '1', '3', ':', '0', '0', ':', '0', '0']);
}

} // verus!
