//! The messaging-app filename convention: `IMG-YYYYMMDD-WAxxxx.jpg` for
//! photos and `VID-YYYYMMDD-WAxxxx.mp4` for videos.
//!
//! Such a name encodes a capture date but no time; the derived date-time
//! therefore carries the fixed placeholder time `13:00:00`.

use vstd::prelude::*;
use crate::chars::{is_digit, is_digit_char};

verus! {

/// The convention matches `s` at position `i`: the three tag letters and a
/// dash, eight date digits, `-WA`, four digits, one arbitrary character, and
/// the three extension letters.
pub open spec fn convention_at(
    s: Seq<char>,
    c0: char,
    c1: char,
    c2: char,
    e0: char,
    e1: char,
    e2: char,
    i: int,
) -> bool {
    &&& 0 <= i
    &&& i + 23 <= s.len()
    &&& s[i] == c0
    &&& s[i + 1] == c1
    &&& s[i + 2] == c2
    &&& s[i + 3] == '-'
    &&& forall|j: int| i + 4 <= j < i + 12 ==> is_digit(#[trigger] s[j])
    &&& s[i + 12] == '-'
    &&& s[i + 13] == 'W'
    &&& s[i + 14] == 'A'
    &&& forall|j: int| i + 15 <= j < i + 19 ==> is_digit(#[trigger] s[j])
    &&& s[i + 20] == e0
    &&& s[i + 21] == e1
    &&& s[i + 22] == e2
}

/// `i` is the leftmost position where the convention matches.
pub open spec fn convention_first_at(
    s: Seq<char>,
    c0: char,
    c1: char,
    c2: char,
    e0: char,
    e1: char,
    e2: char,
    i: int,
) -> bool {
    &&& convention_at(s, c0, c1, c2, e0, e1, e2, i)
    &&& forall|j: int| 0 <= j < i ==> !convention_at(s, c0, c1, c2, e0, e1, e2, j)
}

/// The date-time derived from a match at `i`: the eight digits rearranged as
/// `YYYY-MM-DD`, with the placeholder time.
pub open spec fn convention_date_seq(s: Seq<char>, i: int) -> Seq<char> {
    s.subrange(i + 4, i + 8) + seq!['-'] + s.subrange(i + 8, i + 10) + seq!['-'] + s.subrange(
        i + 10,
        i + 12,
    ) + seq![' ', '1', '3', ':', '0', '0', ':', '0', '0']
}

/// The date-time the convention derives from `s`, from the leftmost match;
/// nothing when the convention does not match anywhere.
pub open spec fn convention_date(
    s: Seq<char>,
    c0: char,
    c1: char,
    c2: char,
    e0: char,
    e1: char,
    e2: char,
) -> Option<Seq<char>> {
    if exists|i: int| convention_first_at(s, c0, c1, c2, e0, e1, e2, i) {
        Some(convention_date_seq(s, choose|i: int| convention_first_at(s, c0, c1, c2, e0, e1, e2, i)))
    } else {
        None
    }
}

pub proof fn lemma_convention_first_unique(
    s: Seq<char>,
    c0: char,
    c1: char,
    c2: char,
    e0: char,
    e1: char,
    e2: char,
    i1: int,
    i2: int,
)
    requires
        convention_first_at(s, c0, c1, c2, e0, e1, e2, i1),
        convention_first_at(s, c0, c1, c2, e0, e1, e2, i2),
    ensures
        i1 == i2,
{
}

/// Whether the convention matches at position `i`.
fn check_at(s: &str, i: usize, c0: char, c1: char, c2: char, e0: char, e1: char, e2: char) -> (r:
    bool)
    requires
        i + 23 <= s@.len(),
        s@.len() <= usize::MAX,
    ensures
        r == convention_at(s@, c0, c1, c2, e0, e1, e2, i as int),
{
    if s.get_char(i) != c0 || s.get_char(i + 1) != c1 || s.get_char(i + 2) != c2 || s.get_char(
        i + 3,
    ) != '-' {
        return false;
    }
    if s.get_char(i + 12) != '-' || s.get_char(i + 13) != 'W' || s.get_char(i + 14) != 'A' {
        return false;
    }
    if s.get_char(i + 20) != e0 || s.get_char(i + 21) != e1 || s.get_char(i + 22) != e2 {
        return false;
    }
    let mut j: usize = i + 4;
    while j < i + 12
        invariant
            i + 4 <= j <= i + 12,
            i + 23 <= s@.len() <= usize::MAX,
            forall|k: int| i + 4 <= k < j ==> is_digit(#[trigger] s@[k]),
        decreases i + 12 - j,
    {
        if !is_digit_char(s.get_char(j)) {
            return false;
        }
        j += 1;
    }
    let mut j: usize = i + 15;
    while j < i + 19
        invariant
            i + 15 <= j <= i + 19,
            i + 23 <= s@.len() <= usize::MAX,
            forall|k: int| i + 15 <= k < j ==> is_digit(#[trigger] s@[k]),
        decreases i + 19 - j,
    {
        if !is_digit_char(s.get_char(j)) {
            return false;
        }
        j += 1;
    }
    true
}

/// Scans `s` for the leftmost match of the convention and derives the
/// date-time from it.
pub fn scan_convention(
    s: &str,
    c0: char,
    c1: char,
    c2: char,
    e0: char,
    e1: char,
    e2: char,
) -> (r: Option<String>)
    ensures
        match r {
            Some(d) => convention_date(s@, c0, c1, c2, e0, e1, e2) == Some(d@),
            None => convention_date(s@, c0, c1, c2, e0, e1, e2) is None,
        },
{
    let len = s.unicode_len();
    if len < 23 {
        proof {
            assert(forall|i: int| !convention_at(s@, c0, c1, c2, e0, e1, e2, i));
        }
        return None;
    }
    let mut i: usize = 0;
    while i <= len - 23
        invariant
            len == s@.len(),
            len <= usize::MAX,
            23 <= len,
            i <= len,
            forall|j: int| 0 <= j < i ==> !convention_at(s@, c0, c1, c2, e0, e1, e2, j),
        decreases len - i,
    {
        if check_at(s, i, c0, c1, c2, e0, e1, e2) {
            proof {
                reveal_strlit("-");
                reveal_strlit(" 13:00:00");
                assert(convention_first_at(s@, c0, c1, c2, e0, e1, e2, i as int));
                let w = choose|k: int| convention_first_at(s@, c0, c1, c2, e0, e1, e2, k);
                lemma_convention_first_unique(s@, c0, c1, c2, e0, e1, e2, w, i as int);
            }
            let mut r = s.substring_char(i + 4, i + 8).to_owned();
            r.append("-");
            r.append(s.substring_char(i + 8, i + 10));
            r.append("-");
            r.append(s.substring_char(i + 10, i + 12));
            r.append(" 13:00:00");
            proof {
                assert(r@ =~= convention_date_seq(s@, i as int));
            }
            return Some(r);
        }
        i += 1;
    }
    proof {
        assert(forall|j: int| j >= i ==> !convention_at(s@, c0, c1, c2, e0, e1, e2, j));
    }
    None
}

/// The photo form of the convention: `IMG-YYYYMMDD-WAxxxx.jpg`.
pub fn photo_convention_date(s: &str) -> (r: Option<String>)
    ensures
        match r {
            Some(d) => convention_date(s@, 'I', 'M', 'G', 'j', 'p', 'g') == Some(d@),
            None => convention_date(s@, 'I', 'M', 'G', 'j', 'p', 'g') is None,
        },
{
    scan_convention(s, 'I', 'M', 'G', 'j', 'p', 'g')
}

/// The video form of the convention: `VID-YYYYMMDD-WAxxxx.mp4`.
pub fn video_convention_date(s: &str) -> (r: Option<String>)
    ensures
        match r {
            Some(d) => convention_date(s@, 'V', 'I', 'D', 'm', 'p', '4') == Some(d@),
            None => convention_date(s@, 'V', 'I', 'D', 'm', 'p', '4') is None,
        },
{
    scan_convention(s, 'V', 'I', 'D', 'm', 'p', '4')
}

} // verus!
