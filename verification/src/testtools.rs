//! Helpers the test harness shares: locating a named ancestor directory
//! inside a path.

use vstd::prelude::*;
use crate::strings::str_eq;

verus! {

pub struct TestTools {}

/// `dir` stands as a whole path segment of `path` ending at position `e`:
/// it carries no separator itself and is bounded by separators or the ends
/// of the path.
pub open spec fn is_segment_end(path: Seq<char>, dir: Seq<char>, e: int) -> bool {
    &&& dir.len() <= e <= path.len()
    &&& path.subrange(e - dir.len(), e) == dir
    &&& (e - dir.len() == 0 || path[e - dir.len() - 1] == '/')
    &&& (e == path.len() || path[e] == '/')
    &&& forall|j: int| 0 <= j < dir.len() ==> dir[j] != '/'
}

/// `e` is the rightmost such position.
pub open spec fn is_last_segment_end(path: Seq<char>, dir: Seq<char>, e: int) -> bool {
    &&& is_segment_end(path, dir, e)
    &&& forall|x: int| e < x <= path.len() ==> !is_segment_end(path, dir, x)
}

/// The prefix of `path` up to and including the rightmost segment equal to
/// `dir`, with a trailing separator; empty when no segment matches.
pub open spec fn base_dir_of(path: Seq<char>, dir: Seq<char>) -> Seq<char> {
    if exists|e: int| is_segment_end(path, dir, e) {
        path.take(choose|e: int| is_last_segment_end(path, dir, e)) + seq!['/']
    } else {
        Seq::empty()
    }
}

pub proof fn lemma_last_segment_end_unique(path: Seq<char>, dir: Seq<char>, e1: int, e2: int)
    requires
        is_last_segment_end(path, dir, e1),
        is_last_segment_end(path, dir, e2),
    ensures
        e1 == e2,
{
}

proof fn lemma_last_segment_from_witness(path: Seq<char>, dir: Seq<char>, e0: int)
    requires
        is_segment_end(path, dir, e0),
    ensures
        exists|e: int| is_last_segment_end(path, dir, e),
    decreases path.len() - e0,
{
    if forall|x: int| e0 < x <= path.len() ==> !is_segment_end(path, dir, x) {
        assert(is_last_segment_end(path, dir, e0));
    } else {
        let x0 = choose|x: int| e0 < x <= path.len() && is_segment_end(path, dir, x);
        lemma_last_segment_from_witness(path, dir, x0);
    }
}

/// Whether `dir` stands as a whole path segment ending at `e`.
fn check_segment_end(path: &str, dir: &str, e: usize) -> (r: bool)
    requires
        e <= path@.len(),
        path@.len() <= usize::MAX,
    ensures
        r == is_segment_end(path@, dir@, e as int),
{
    let plen = path.unicode_len();
    let dlen = dir.unicode_len();
    if dlen > e {
        return false;
    }
    let mut j: usize = 0;
    while j < dlen
        invariant
            dlen == dir@.len(),
            j <= dlen,
            forall|i: int| 0 <= i < j ==> dir@[i] != '/',
        decreases dlen - j,
    {
        if dir.get_char(j) == '/' {
            return false;
        }
        j += 1;
    }
    let seg = path.substring_char(e - dlen, e);
    proof {
        assert(seg@ =~= path@.subrange(e - dlen, e as int));
    }
    if !str_eq(seg, dir) {
        return false;
    }
    if e - dlen > 0 && path.get_char(e - dlen - 1) != '/' {
        return false;
    }
    if e < plen && path.get_char(e) != '/' {
        return false;
    }
    true
}

/// The prefix of `path` up to and including the rightmost path segment
/// equal to `dirname`, separator included; empty when no segment matches.
pub fn find_base_dir(path: &str, dirname: &str) -> (r: String)
    ensures
        r@ == base_dir_of(path@, dirname@),
{
    proof {
        reveal_strlit("/");
    }
    let len = path.unicode_len();
    let mut e: usize = len;
    if check_segment_end(path, dirname, e) {
        proof {
            assert(is_last_segment_end(path@, dirname@, e as int));
            let w = choose|x: int| is_last_segment_end(path@, dirname@, x);
            lemma_last_segment_end_unique(path@, dirname@, w, e as int);
        }
        let mut r = path.substring_char(0, e).to_owned();
        r.append("/");
        proof {
            assert(r@ =~= base_dir_of(path@, dirname@));
        }
        return r;
    }
    while e > 0
        invariant
            len == path@.len(),
            e <= len,
            forall|x: int| e <= x <= len ==> !is_segment_end(path@, dirname@, x),
        decreases e,
    {
        e -= 1;
        if check_segment_end(path, dirname, e) {
            proof {
                reveal_strlit("/");
                assert(is_last_segment_end(path@, dirname@, e as int));
                let w = choose|x: int| is_last_segment_end(path@, dirname@, x);
                lemma_last_segment_end_unique(path@, dirname@, w, e as int);
            }
            let mut r = path.substring_char(0, e).to_owned();
            r.append("/");
            proof {
                assert(r@ =~= base_dir_of(path@, dirname@));
            }
            return r;
        }
    }
    proof {
        assert(forall|x: int| !is_segment_end(path@, dirname@, x));
    }
    String::new()
}

} // verus!
