//! Small helpers over strings, viewed as sequences of characters.

use vstd::prelude::*;

verus! {

/// `i` is the position of the first occurrence of `c` in `s`.
pub open spec fn is_first_occurrence(s: Seq<char>, c: char, i: int) -> bool {
    &&& 0 <= i < s.len()
    &&& s[i] == c
    &&& forall|j: int| 0 <= j < i ==> s[j] != c
}

/// The prefix of `s` up to (not including) the first occurrence of `c`,
/// or all of `s` when `c` does not occur in it.
pub open spec fn truncated_at(c: char, s: Seq<char>) -> Seq<char> {
    if exists|i: int| is_first_occurrence(s, c, i) {
        s.take(choose|i: int| is_first_occurrence(s, c, i))
    } else {
        s
    }
}

pub proof fn lemma_first_occurrence_unique(s: Seq<char>, c: char, i1: int, i2: int)
    requires
        is_first_occurrence(s, c, i1),
        is_first_occurrence(s, c, i2),
    ensures
        i1 == i2,
{
}

/// The character sequence an optional string holds.
pub open spec fn opt_seq(o: Option<String>) -> Option<Seq<char>> {
    match o {
        Some(s) => Some(s@),
        None => None,
    }
}

/// `p` is a prefix of `s`.
pub open spec fn starts_with_seq(s: Seq<char>, p: Seq<char>) -> bool {
    p.len() <= s.len() && s.take(p.len() as int) == p
}

/// `s` without its leading spaces, tabs and carriage returns.
pub open spec fn trimmed_start(s: Seq<char>) -> Seq<char>
    decreases s.len(),
{
    if s.len() > 0 && is_space(s[0]) {
        trimmed_start(s.drop_first())
    } else {
        s
    }
}

pub open spec fn is_space(c: char) -> bool {
    c == ' ' || c == '\t' || c == '\r'
}

pub proof fn lemma_trimmed_start_len(s: Seq<char>)
    ensures
        trimmed_start(s).len() <= s.len(),
    decreases s.len(),
{
    if s.len() > 0 && is_space(s[0]) {
        lemma_trimmed_start_len(s.drop_first());
    }
}

/// Whether `c` is a space, tab or carriage return.
pub fn is_space_char(c: char) -> (r: bool)
    ensures
        r == is_space(c),
{
    c == ' ' || c == '\t' || c == '\r'
}

/// The position of the first occurrence of `c` in `s`.
pub fn find_char(s: &str, c: char) -> (r: Option<usize>)
    ensures
        match r {
            Some(i) => is_first_occurrence(s@, c, i as int),
            None => forall|j: int| 0 <= j < s@.len() ==> s@[j] != c,
        },
{
    let len = s.unicode_len();
    let mut k: usize = 0;
    while k < len
        invariant
            len == s@.len(),
            k <= len,
            forall|j: int| 0 <= j < k ==> s@[j] != c,
        decreases len - k,
    {
        if s.get_char(k) == c {
            return Some(k);
        }
        k += 1;
    }
    None
}

/// `s` without its leading spaces, tabs and carriage returns.
pub fn trim_start(s: &str) -> (r: &str)
    ensures
        r@ == trimmed_start(s@),
    decreases s@.len(),
{
    let len = s.unicode_len();
    if len > 0 && is_space_char(s.get_char(0)) {
        let rest = s.substring_char(1, len);
        proof {
            assert(rest@ =~= s@.drop_first());
        }
        trim_start(rest)
    } else {
        s
    }
}

/// Whether `p` is a prefix of `s`.
pub fn str_starts_with(s: &str, p: &str) -> (r: bool)
    ensures
        r == starts_with_seq(s@, p@),
{
    let lp = p.unicode_len();
    if lp > s.unicode_len() {
        return false;
    }
    let mut k: usize = 0;
    while k < lp
        invariant
            lp == p@.len(),
            lp <= s@.len(),
            k <= lp,
            forall|j: int| 0 <= j < k ==> s@[j] == p@[j],
        decreases lp - k,
    {
        if s.get_char(k) != p.get_char(k) {
            proof {
                assert(s@.take(lp as int)[k as int] != p@[k as int]);
            }
            return false;
        }
        k += 1;
    }
    proof {
        assert(s@.take(lp as int) =~= p@);
    }
    true
}

/// Compares two string slices character by character.
pub fn str_eq(a: &str, b: &str) -> (r: bool)
    ensures
        r == (a@ == b@),
{
    let la = a.unicode_len();
    let lb = b.unicode_len();
    if la != lb {
        return false;
    }
    let mut k: usize = 0;
    while k < la
        invariant
            la == a@.len(),
            lb == b@.len(),
            la == lb,
            k <= la,
            forall|j: int| 0 <= j < k ==> a@[j] == b@[j],
        decreases la - k,
    {
        if a.get_char(k) != b.get_char(k) {
            return false;
        }
        k += 1;
    }
    proof {
        assert(a@ =~= b@);
    }
    true
}

pub struct Strings {}

impl Strings {
    /// The prefix of `s` before the first space.
    pub fn truncate_at_space(s: String) -> (r: String)
        ensures
            r@ == truncated_at(' ', s@),
    {
        Strings::truncate_at(' ', s)
    }

    /// The prefix of `s` before the first occurrence of `c`; `s` itself when
    /// `c` does not occur.
    pub fn truncate_at(c: char, s: String) -> (r: String)
        ensures
            r@ == truncated_at(c, s@),
    {
        let len = s.as_str().unicode_len();
        let mut k: usize = 0;
        while k < len
            invariant
                len == s@.len(),
                k <= len,
                forall|j: int| 0 <= j < k ==> s@[j] != c,
            decreases len - k,
        {
            if s.as_str().get_char(k) == c {
                proof {
                    assert(is_first_occurrence(s@, c, k as int));
                    let i = choose|i: int| is_first_occurrence(s@, c, i);
                    lemma_first_occurrence_unique(s@, c, i, k as int);
                }
                let prefix = s.as_str().substring_char(0, k);
                return prefix.to_owned();
            }
            k += 1;
        }
        s
    }
}

} // verus!
