//! The file organizer: classifies source files, derives the destination
//! directory from the resolved date, and plans collision-safe copies.

use vstd::prelude::*;
use vstd::relations::injective_on;
use vstd::set_lib::{set_int_range, lemma_int_range, lemma_len_subset, lemma_map_size};
use crate::chars::{
    pad2, pad4, pad2_string, pad4_string, pad3_or_more, pad3_or_more_string,
    lemma_pad3_or_more_injective, lemma_pad3_or_more_len,
};
use crate::date::{
    Timestamp, date_seq, date_string, parsed_timestamp, parse_timestamp, timestamp_seq,
    lemma_timestamp_roundtrip,
};
use crate::strings::str_eq;

verus! {

/// A resolved date-time string together with its provenance: read from
/// embedded metadata, or inferred from a filename convention or a
/// filesystem time.
#[derive(Debug, PartialEq)]
pub enum DateResult {
    FromMetadata(String),
    Inferred(String),
}

/// The spec-level form of `DateResult`, over character sequences.
pub enum DateResultView {
    FromMetadata(Seq<char>),
    Inferred(Seq<char>),
}

impl View for DateResult {
    type V = DateResultView;

    open spec fn view(&self) -> DateResultView {
        match self {
            DateResult::FromMetadata(s) => DateResultView::FromMetadata(s@),
            DateResult::Inferred(s) => DateResultView::Inferred(s@),
        }
    }
}

/// The ASCII-lowercase form of `c`.
pub open spec fn lower_char(c: char) -> char {
    match c {
        'A' => 'a',
        'B' => 'b',
        'C' => 'c',
        'D' => 'd',
        'E' => 'e',
        'F' => 'f',
        'G' => 'g',
        'H' => 'h',
        'I' => 'i',
        'J' => 'j',
        'K' => 'k',
        'L' => 'l',
        'M' => 'm',
        'N' => 'n',
        'O' => 'o',
        'P' => 'p',
        'Q' => 'q',
        'R' => 'r',
        'S' => 's',
        'T' => 't',
        'U' => 'u',
        'V' => 'v',
        'W' => 'w',
        'X' => 'x',
        'Y' => 'y',
        'Z' => 'z',
        _ => c,
    }
}

/// `s` with its ASCII uppercase letters lowered.
pub open spec fn ascii_lower(s: Seq<char>) -> Seq<char> {
    s.map_values(|c: char| lower_char(c))
}

/// The ASCII-lowercase form of `c`.
pub fn ascii_lower_char(c: char) -> (r: char)
    ensures
        r == lower_char(c),
{
    match c {
        'A' => 'a',
        'B' => 'b',
        'C' => 'c',
        'D' => 'd',
        'E' => 'e',
        'F' => 'f',
        'G' => 'g',
        'H' => 'h',
        'I' => 'i',
        'J' => 'j',
        'K' => 'k',
        'L' => 'l',
        'M' => 'm',
        'N' => 'n',
        'O' => 'o',
        'P' => 'p',
        'Q' => 'q',
        'R' => 'r',
        'S' => 's',
        'T' => 't',
        'U' => 'u',
        'V' => 'v',
        'W' => 'w',
        'X' => 'x',
        'Y' => 'y',
        'Z' => 'z',
        _ => c,
    }
}

/// Whether `s`, ASCII-lowered, equals `p`.
pub fn eq_ignore_ascii_case(s: &str, p: &str) -> (r: bool)
    ensures
        r == (ascii_lower(s@) == p@),
{
    let ls = s.unicode_len();
    let lp = p.unicode_len();
    if ls != lp {
        return false;
    }
    let mut k: usize = 0;
    while k < ls
        invariant
            ls == s@.len(),
            lp == p@.len(),
            ls == lp,
            k <= ls,
            forall|j: int| 0 <= j < k ==> lower_char(s@[j]) == p@[j],
        decreases ls - k,
    {
        if ascii_lower_char(s.get_char(k)) != p.get_char(k) {
            proof {
                assert(ascii_lower(s@)[k as int] != p@[k as int]);
            }
            return false;
        }
        k += 1;
    }
    proof {
        assert(ascii_lower(s@) =~= p@);
    }
    true
}

/// `i` is the position of the last occurrence of `c` in `s`.
pub open spec fn is_last_occurrence(s: Seq<char>, c: char, i: int) -> bool {
    &&& 0 <= i < s.len()
    &&& s[i] == c
    &&& forall|j: int| i < j < s.len() ==> s[j] != c
}

pub proof fn lemma_last_occurrence_unique(s: Seq<char>, c: char, i1: int, i2: int)
    requires
        is_last_occurrence(s, c, i1),
        is_last_occurrence(s, c, i2),
    ensures
        i1 == i2,
{
}

/// The position of the last occurrence of `c` in `s`.
pub fn rfind_char(s: &str, c: char) -> (r: Option<usize>)
    ensures
        match r {
            Some(i) => is_last_occurrence(s@, c, i as int),
            None => forall|j: int| 0 <= j < s@.len() ==> s@[j] != c,
        },
{
    let len = s.unicode_len();
    let mut k: usize = len;
    while k > 0
        invariant
            len == s@.len(),
            k <= len,
            forall|j: int| k <= j < len ==> s@[j] != c,
        decreases k,
    {
        k -= 1;
        if s.get_char(k) == c {
            return Some(k);
        }
    }
    None
}

/// The extension of a file name: what follows the last dot, none when
/// there is no dot or when the only dot leads the name.
pub open spec fn extension_of(name: Seq<char>) -> Option<Seq<char>> {
    if exists|i: int| is_last_occurrence(name, '.', i) {
        let i = choose|i: int| is_last_occurrence(name, '.', i);
        if i > 0 {
            Some(name.skip(i + 1))
        } else {
            None
        }
    } else {
        None
    }
}

/// The media kind an extension denotes, matched without regard to ASCII
/// case.
#[derive(Clone, Copy, Debug, PartialEq, Eq, Structural)]
pub enum MediaKind {
    Photo,
    Video,
    Unsupported,
}

pub open spec fn kind_of_ext(e: Seq<char>) -> MediaKind {
    if ascii_lower(e) == "jpeg"@ || ascii_lower(e) == "jpg"@ || ascii_lower(e) == "heic"@
        || ascii_lower(e) == "dng"@ {
        MediaKind::Photo
    } else if ascii_lower(e) == "mp4"@ || ascii_lower(e) == "m4v"@ || ascii_lower(e) == "mov"@ {
        MediaKind::Video
    } else {
        MediaKind::Unsupported
    }
}

/// The media kind an extension denotes.
pub fn media_kind_of(ext: &str) -> (r: MediaKind)
    ensures
        r == kind_of_ext(ext@),
{
    if eq_ignore_ascii_case(ext, "jpeg") || eq_ignore_ascii_case(ext, "jpg")
        || eq_ignore_ascii_case(ext, "heic") || eq_ignore_ascii_case(ext, "dng") {
        MediaKind::Photo
    } else if eq_ignore_ascii_case(ext, "mp4") || eq_ignore_ascii_case(ext, "m4v")
        || eq_ignore_ascii_case(ext, "mov") {
        MediaKind::Video
    } else {
        MediaKind::Unsupported
    }
}

/// How a source file is to be handled, decided before any metadata is read.
#[derive(Clone, Copy, Debug, PartialEq, Eq, Structural)]
pub enum Classification {
    /// Below the configured minimum size: skipped, not an error.
    SkipTooSmall,
    /// A hidden file (name starting with a dot): skipped.
    SkipHidden,
    /// An extension naming no supported media kind: skipped.
    SkipUnsupported,
    /// An empty name or one without an extension: a per-file data error.
    MalformedName,
    /// A photo: resolve its date from its tags.
    Photo,
    /// A video: resolve its date from its container metadata.
    Video,
}

pub open spec fn classify_spec(min_size: u64, name: Seq<char>, size: u64) -> Classification {
    if size < min_size {
        Classification::SkipTooSmall
    } else if name.len() == 0 {
        Classification::MalformedName
    } else if name[0] == '.' {
        Classification::SkipHidden
    } else {
        match extension_of(name) {
            None => Classification::MalformedName,
            Some(e) => match kind_of_ext(e) {
                MediaKind::Photo => Classification::Photo,
                MediaKind::Video => Classification::Video,
                MediaKind::Unsupported => Classification::SkipUnsupported,
            },
        }
    }
}

/// The organizer's configuration: the size filter and the choice between
/// the in-process copy and the external copy command.
pub struct Copier {
    pub min_size: u64,
    pub shell_cp: bool,
}

impl Copier {
    pub fn new(min_size: u64, shell_cp: bool) -> (c: Copier)
        ensures
            c.min_size == min_size,
            c.shell_cp == shell_cp,
    {
        Copier { min_size, shell_cp }
    }

    /// Decides how a source file is handled: the size filter first, then
    /// the hidden-file and extension checks.
    pub fn classify(&self, file_name: &str, size: u64) -> (r: Classification)
        ensures
            r == classify_spec(self.min_size, file_name@, size),
    {
        if size < self.min_size {
            return Classification::SkipTooSmall;
        }
        let len = file_name.unicode_len();
        if len == 0 {
            return Classification::MalformedName;
        }
        if file_name.get_char(0) == '.' {
            return Classification::SkipHidden;
        }
        match rfind_char(file_name, '.') {
            None => {
                proof {
                    assert(forall|i: int| !is_last_occurrence(file_name@, '.', i));
                }
                Classification::MalformedName
            },
            Some(i) => {
                proof {
                    let w = choose|j: int| is_last_occurrence(file_name@, '.', j);
                    lemma_last_occurrence_unique(file_name@, '.', w, i as int);
                }
                if i == 0 {
                    return Classification::MalformedName;
                }
                let ext = file_name.substring_char(i + 1, len);
                proof {
                    assert(ext@ =~= file_name@.skip(i + 1));
                }
                match media_kind_of(ext) {
                    MediaKind::Photo => Classification::Photo,
                    MediaKind::Video => Classification::Video,
                    MediaKind::Unsupported => Classification::SkipUnsupported,
                }
            },
        }
    }
}

/// The stem and extension of a target name, split at the last dot; the
/// extension keeps the dot, and is empty when there is none.
pub open spec fn split_at_last_dot(name: Seq<char>) -> (Seq<char>, Seq<char>) {
    if exists|i: int| is_last_occurrence(name, '.', i) {
        let i = choose|i: int| is_last_occurrence(name, '.', i);
        (name.take(i), name.skip(i))
    } else {
        (name, Seq::empty())
    }
}

pub proof fn lemma_split_at_last_dot(name: Seq<char>)
    ensures
        split_at_last_dot(name).0 + split_at_last_dot(name).1 == name,
{
    if exists|i: int| is_last_occurrence(name, '.', i) {
        let i = choose|i: int| is_last_occurrence(name, '.', i);
        assert(name.take(i) + name.skip(i) =~= name);
    } else {
        assert(name + Seq::<char>::empty() =~= name);
    }
}

/// The target name with the `_NNN` collision suffix for `k` inserted
/// before the extension.
pub open spec fn suffixed_name(name: Seq<char>, k: int) -> Seq<char> {
    let p = split_at_last_dot(name);
    p.0 + seq!['_'] + pad3_or_more(k) + p.1
}

/// The `k`-th candidate target name: the name itself first, then the
/// suffixed forms.
pub open spec fn candidate_name(name: Seq<char>, k: int) -> Seq<char> {
    if k == 0 {
        name
    } else {
        suffixed_name(name, k)
    }
}

/// Distinct candidate indices give distinct names.
pub proof fn lemma_candidate_injective(name: Seq<char>, k1: int, k2: int)
    requires
        0 <= k1,
        0 <= k2,
        k1 != k2,
    ensures
        candidate_name(name, k1) != candidate_name(name, k2),
{
    let p = split_at_last_dot(name);
    lemma_split_at_last_dot(name);
    lemma_pad3_or_more_len(k1);
    lemma_pad3_or_more_len(k2);
    if k1 == 0 || k2 == 0 {
        // one is the bare name, the other is strictly longer
    } else {
        let c1 = suffixed_name(name, k1);
        let c2 = suffixed_name(name, k2);
        let l0 = p.0.len() as int;
        let l1 = pad3_or_more(k1).len() as int;
        let l2 = pad3_or_more(k2).len() as int;
        if l1 == l2 {
            if c1 == c2 {
                assert forall|j: int| 0 <= j < l1 implies pad3_or_more(k1)[j] == pad3_or_more(
                    k2,
                )[j] by {
                    assert(c1[l0 + 1 + j] == pad3_or_more(k1)[j]);
                    assert(c2[l0 + 1 + j] == pad3_or_more(k2)[j]);
                }
                assert(pad3_or_more(k1) =~= pad3_or_more(k2));
                lemma_pad3_or_more_injective(k1, k2);
                assert(false);
            }
        } else {
            assert(c1.len() != c2.len());
        }
    }
}

/// One name in the target directory, with the size of the file bearing it.
pub struct TargetEntry {
    pub name: String,
    pub size: u64,
}

impl View for TargetEntry {
    type V = (Seq<char>, u64);

    open spec fn view(&self) -> (Seq<char>, u64) {
        (self.name@, self.size)
    }
}

pub open spec fn entries_view(es: Seq<TargetEntry>) -> Seq<(Seq<char>, u64)> {
    es.map_values(|e: TargetEntry| e@)
}

/// The size recorded under `name`: that of the first entry bearing it.
pub open spec fn lookup(entries: Seq<(Seq<char>, u64)>, name: Seq<char>) -> Option<u64>
    decreases entries.len(),
{
    if entries.len() == 0 {
        None
    } else if entries[0].0 == name {
        Some(entries[0].1)
    } else {
        lookup(entries.drop_first(), name)
    }
}

pub proof fn lemma_lookup_some_index(entries: Seq<(Seq<char>, u64)>, name: Seq<char>)
    requires
        lookup(entries, name) is Some,
    ensures
        exists|i: int| 0 <= i < entries.len() && entries[i].0 == name,
    decreases entries.len(),
{
    if entries[0].0 == name {
        assert(entries[0].0 == name);
    } else {
        lemma_lookup_some_index(entries.drop_first(), name);
        let i = choose|i: int|
            0 <= i < entries.drop_first().len() && entries.drop_first()[i].0 == name;
        assert(entries[i + 1].0 == name);
    }
}

/// The size of the first entry named `name`, scanning front to back.
fn lookup_entry(entries: &Vec<TargetEntry>, name: &str) -> (r: Option<u64>)
    ensures
        r == lookup(entries_view(entries@), name@),
{
    let ghost vs = entries_view(entries@);
    proof {
        assert(vs.skip(0) =~= vs);
    }
    let mut k: usize = 0;
    while k < entries.len()
        invariant
            vs == entries_view(entries@),
            vs.len() == entries@.len(),
            k <= entries@.len(),
            lookup(vs, name@) == lookup(vs.skip(k as int), name@),
        decreases entries@.len() - k,
    {
        let e = &entries[k];
        proof {
            assert(vs.skip(k as int)[0] == vs[k as int]);
            assert(vs[k as int] == entries@[k as int]@);
        }
        if str_eq(e.name.as_str(), name) {
            return Some(e.size);
        }
        k += 1;
        proof {
            assert(vs.skip(k - 1).drop_first() =~= vs.skip(k as int));
        }
    }
    proof {
        assert(vs.skip(k as int) =~= Seq::<(Seq<char>, u64)>::empty());
    }
    None
}

/// Candidate `k` is occupied by a file that is neither empty nor
/// size-identical to the source: the collision search must move past it.
pub open spec fn blocked_at(
    entries: Seq<(Seq<char>, u64)>,
    base: Seq<char>,
    size: u64,
    k: int,
) -> bool {
    match lookup(entries, candidate_name(base, k)) {
        Some(s) => s != 0 && s != size,
        None => false,
    }
}

/// `k` is the first candidate index the collision search stops at.
pub open spec fn is_planned_index(
    entries: Seq<(Seq<char>, u64)>,
    base: Seq<char>,
    size: u64,
    k: int,
) -> bool {
    &&& 0 <= k
    &&& !blocked_at(entries, base, size, k)
    &&& forall|j: int| 0 <= j < k ==> blocked_at(entries, base, size, j)
}

pub proof fn lemma_planned_index_unique(
    entries: Seq<(Seq<char>, u64)>,
    base: Seq<char>,
    size: u64,
    k1: int,
    k2: int,
)
    requires
        is_planned_index(entries, base, size, k1),
        is_planned_index(entries, base, size, k2),
    ensures
        k1 == k2,
{
}

/// Not every candidate up to the number of entries can be blocked: the
/// candidates are distinct names, and each blocked one pins a distinct
/// entry.
pub proof fn lemma_not_all_blocked(entries: Seq<(Seq<char>, u64)>, base: Seq<char>, size: u64)
    ensures
        exists|k: int| 0 <= k <= entries.len() && !blocked_at(entries, base, size, k),
{
    let n = entries.len() as int;
    if forall|k: int| 0 <= k <= n ==> #[trigger] blocked_at(entries, base, size, k) {
        let f = |k: int| choose|i: int| 0 <= i < n && entries[i].0 == candidate_name(base, k);
        let dom = set_int_range(0, n + 1);
        lemma_int_range(0, n + 1);
        assert forall|k: int| dom.contains(k) implies 0 <= #[trigger] f(k) < n && entries[f(
            k,
        )].0 == candidate_name(base, k) by {
            assert(blocked_at(entries, base, size, k));
            lemma_lookup_some_index(entries, candidate_name(base, k));
        }
        assert(injective_on(f, dom)) by {
            assert forall|k1: int, k2: int|
                #![trigger f(k1), f(k2)]
                dom.contains(k1) && dom.contains(k2) && k1 != k2 implies f(k1) != f(k2) by {
                if f(k1) == f(k2) {
                    assert(entries[f(k1)].0 == candidate_name(base, k1));
                    assert(entries[f(k2)].0 == candidate_name(base, k2));
                    lemma_candidate_injective(base, k1, k2);
                }
            }
        }
        let img = dom.map(f);
        lemma_map_size(dom, img, f);
        lemma_int_range(0, n);
        assert(img.subset_of(set_int_range(0, n))) by {
            assert forall|x: int| img.contains(x) implies set_int_range(0, n).contains(x) by {
                let k = choose|k: int| dom.contains(k) && f(k) == x;
                assert(0 <= f(k) < n);
            }
        }
        lemma_len_subset(img, set_int_range(0, n));
        assert(false);
    }
}

proof fn lemma_planned_from_witness(
    entries: Seq<(Seq<char>, u64)>,
    base: Seq<char>,
    size: u64,
    k0: int,
)
    requires
        0 <= k0,
        !blocked_at(entries, base, size, k0),
    ensures
        exists|k: int| is_planned_index(entries, base, size, k),
    decreases k0,
{
    if forall|j: int| 0 <= j < k0 ==> #[trigger] blocked_at(entries, base, size, j) {
        assert(is_planned_index(entries, base, size, k0));
    } else {
        let j0 = choose|j: int| 0 <= j < k0 && !blocked_at(entries, base, size, j);
        lemma_planned_from_witness(entries, base, size, j0);
    }
}

/// The index the collision search stops at.
pub open spec fn plan_index(entries: Seq<(Seq<char>, u64)>, base: Seq<char>, size: u64) -> int {
    choose|k: int| is_planned_index(entries, base, size, k)
}

pub proof fn lemma_plan_index(entries: Seq<(Seq<char>, u64)>, base: Seq<char>, size: u64)
    ensures
        is_planned_index(entries, base, size, plan_index(entries, base, size)),
        0 <= plan_index(entries, base, size) <= entries.len(),
{
    lemma_not_all_blocked(entries, base, size);
    let k0 = choose|k: int| 0 <= k <= entries.len() && !blocked_at(entries, base, size, k);
    lemma_planned_from_witness(entries, base, size, k0);
    let k = plan_index(entries, base, size);
    assert(is_planned_index(entries, base, size, k));
    if k > k0 {
        assert(blocked_at(entries, base, size, k0));
    }
}

/// What the organizer is to do for one source file at its target
/// directory: copy it under a (possibly suffixed) name, first deleting a
/// stale empty file of that name, or nothing, a size-identical copy being
/// already present.
#[derive(Debug, PartialEq)]
pub enum CopyPlan {
    CopyTo { name: String, replace_empty: bool },
    AlreadyPresent { name: String },
}

/// The spec-level form of `CopyPlan`.
pub enum CopyPlanView {
    CopyTo { name: Seq<char>, replace_empty: bool },
    AlreadyPresent { name: Seq<char> },
}

impl View for CopyPlan {
    type V = CopyPlanView;

    open spec fn view(&self) -> CopyPlanView {
        match self {
            CopyPlan::CopyTo { name, replace_empty } => CopyPlanView::CopyTo {
                name: name@,
                replace_empty: *replace_empty,
            },
            CopyPlan::AlreadyPresent { name } => CopyPlanView::AlreadyPresent { name: name@ },
        }
    }
}

/// The plan for placing a file of `size` bytes under `base` among
/// `entries`: walk the candidate names in order past every occupied one;
/// stop at a free name (copy), an empty file (delete it and copy), or a
/// size-identical file (already present).
pub open spec fn plan_model(
    entries: Seq<(Seq<char>, u64)>,
    base: Seq<char>,
    size: u64,
) -> CopyPlanView {
    let k = plan_index(entries, base, size);
    let c = candidate_name(base, k);
    match lookup(entries, c) {
        None => CopyPlanView::CopyTo { name: c, replace_empty: false },
        Some(s) => if s == 0 {
            CopyPlanView::CopyTo { name: c, replace_empty: true }
        } else {
            CopyPlanView::AlreadyPresent { name: c }
        },
    }
}

/// Builds the `k`-th suffixed form of `name`.
pub fn suffixed_string(name: &str, k: u64) -> (r: String)
    requires
        k >= 1,
    ensures
        r@ == suffixed_name(name@, k as int),
{
    proof {
        reveal_strlit("_");
    }
    let len = name.unicode_len();
    let stem_end: usize = match rfind_char(name, '.') {
        Some(i) => {
            proof {
                let w = choose|j: int| is_last_occurrence(name@, '.', j);
                lemma_last_occurrence_unique(name@, '.', w, i as int);
            }
            i
        },
        None => {
            proof {
                assert(forall|i: int| !is_last_occurrence(name@, '.', i));
            }
            len
        },
    };
    let mut r = name.substring_char(0, stem_end).to_owned();
    r.append("_");
    let pad = pad3_or_more_string(k);
    r.append(pad.as_str());
    r.append(name.substring_char(stem_end, len));
    proof {
        if stem_end == len {
            assert(name@.skip(len as int) =~= Seq::<char>::empty());
        }
        assert(r@ =~= suffixed_name(name@, k as int));
    }
    r
}

/// Plans the placement of one source file: the first candidate name not
/// occupied by a different-content file, and what to do there.
pub fn plan_target(existing: &Vec<TargetEntry>, base_name: &str, src_size: u64) -> (r: CopyPlan)
    ensures
        r@ == plan_model(entries_view(existing@), base_name@, src_size),
{
    let ghost vs = entries_view(existing@);
    let n = existing.len();
    let mut k: usize = 0;
    while k <= n
        invariant
            vs == entries_view(existing@),
            vs.len() == existing@.len(),
            n == existing@.len(),
            k <= n + 1,
            forall|j: int| 0 <= j < k ==> blocked_at(vs, base_name@, src_size, j),
        decreases n + 1 - k,
    {
        let cand: String = if k == 0 {
            base_name.to_owned()
        } else {
            suffixed_string(base_name, k as u64)
        };
        let found = lookup_entry(existing, cand.as_str());
        proof {
            if !(found matches Some(s) && s != 0 && s != src_size) {
                assert(is_planned_index(vs, base_name@, src_size, k as int));
                let w = plan_index(vs, base_name@, src_size);
                lemma_plan_index(vs, base_name@, src_size);
                lemma_planned_index_unique(vs, base_name@, src_size, w, k as int);
            }
        }
        match found {
            None => {
                return CopyPlan::CopyTo { name: cand, replace_empty: false };
            },
            Some(s) => {
                if s == 0 {
                    return CopyPlan::CopyTo { name: cand, replace_empty: true };
                }
                if s == src_size {
                    return CopyPlan::AlreadyPresent { name: cand };
                }
            },
        }
        proof {
            assert(blocked_at(vs, base_name@, src_size, k as int));
            if k == n {
                lemma_not_all_blocked(vs, base_name@, src_size);
                assert(false);
            }
        }
        k += 1;
    }
    proof {
        lemma_not_all_blocked(vs, base_name@, src_size);
        assert(false);
    }
    CopyPlan::AlreadyPresent { name: base_name.to_owned() }
}

/// Size filter: a file strictly below the configured minimum size is
/// skipped outright, before anything else is considered.
pub proof fn lemma_size_filter(min_size: u64, name: Seq<char>, size: u64)
    requires
        size < min_size,
    ensures
        classify_spec(min_size, name, size) == Classification::SkipTooSmall,
{
}

/// `<dest-root>/<year>/<year-month-day>`.
pub open spec fn target_dir_seq(dest_root: Seq<char>, ts: Timestamp) -> Seq<char> {
    dest_root + seq!['/'] + pad4(ts.year as int) + seq!['/'] + date_seq(ts)
}

/// Builds the target directory path for a resolved date.
pub fn target_dir_path(dest_root: &str, ts: &Timestamp) -> (r: String)
    requires
        ts.wf(),
    ensures
        r@ == target_dir_seq(dest_root@, *ts),
{
    proof {
        reveal_strlit("/");
    }
    let mut r = dest_root.to_owned();
    r.append("/");
    let y = pad4_string(ts.year);
    r.append(y.as_str());
    r.append("/");
    let d = date_string(ts);
    r.append(d.as_str());
    proof {
        assert(r@ =~= target_dir_seq(dest_root@, *ts));
    }
    r
}

/// The timestamp argument handed to the metadata writer:
/// `-tsYYYY:MM:DD-HH:MM:SS`.
pub open spec fn backfill_arg_seq(ts: Timestamp) -> Seq<char> {
    seq!['-', 't', 's'] + pad4(ts.year as int) + seq![':'] + pad2(ts.month as int) + seq![':']
        + pad2(ts.day as int) + seq!['-'] + pad2(ts.hour as int) + seq![':'] + pad2(
        ts.minute as int,
    ) + seq![':'] + pad2(ts.second as int)
}

/// Builds the metadata writer's timestamp argument.
pub fn backfill_arg(ts: &Timestamp) -> (r: String)
    requires
        ts.wf(),
    ensures
        r@ == backfill_arg_seq(*ts),
{
    proof {
        reveal_strlit("-ts");
        reveal_strlit(":");
        reveal_strlit("-");
    }
    let mut r = "-ts".to_owned();
    let y = pad4_string(ts.year);
    r.append(y.as_str());
    r.append(":");
    let mo = pad2_string(ts.month);
    r.append(mo.as_str());
    r.append(":");
    let d = pad2_string(ts.day);
    r.append(d.as_str());
    r.append("-");
    let h = pad2_string(ts.hour);
    r.append(h.as_str());
    r.append(":");
    let mi = pad2_string(ts.minute);
    r.append(mi.as_str());
    r.append(":");
    let s = pad2_string(ts.second);
    r.append(s.as_str());
    proof {
        assert(r@ =~= backfill_arg_seq(*ts));
    }
    r
}

/// The metadata-writer invocation owed to a copy: its timestamp argument,
/// and whether a fresh tag block must be created (the photo had none).
pub struct Backfill {
    pub timestamp_arg: String,
    pub create_exif: bool,
}

impl View for Backfill {
    type V = (Seq<char>, bool);

    open spec fn view(&self) -> (Seq<char>, bool) {
        (self.timestamp_arg@, self.create_exif)
    }
}

/// Everything the per-file copy needs once the date is resolved: the
/// target directory, the time to stamp on the copy, and the metadata
/// backfill owed for a photo whose date was inferred.
pub struct CopyJob {
    pub target_dir: String,
    pub timestamp: Timestamp,
    pub backfill: Option<Backfill>,
}

/// The spec-level form of `CopyJob`.
pub struct CopyJobView {
    pub target_dir: Seq<char>,
    pub timestamp: Timestamp,
    pub backfill: Option<(Seq<char>, bool)>,
}

impl View for CopyJob {
    type V = CopyJobView;

    open spec fn view(&self) -> CopyJobView {
        CopyJobView {
            target_dir: self.target_dir@,
            timestamp: self.timestamp,
            backfill: match &self.backfill {
                Some(b) => Some(b@),
                None => None,
            },
        }
    }
}

/// The date-time string a resolution carries, whatever its provenance.
pub open spec fn date_result_string(d: DateResultView) -> Seq<char> {
    match d {
        DateResultView::FromMetadata(s) => s,
        DateResultView::Inferred(s) => s,
    }
}

/// A per-file failure the organizer reports to its caller.
#[derive(Debug, PartialEq, Eq, Structural)]
pub enum OrganizeError {
    /// The file has no usable name or extension.
    MalformedName,
    /// The resolved date-time string does not denote a calendar date.
    InvalidTimestamp,
}

/// The job for one file: its resolved date-time string must parse as a
/// well-formed calendar date; the target directory follows from that date;
/// a photo whose date was inferred is owed a metadata backfill, creating a
/// fresh tag block exactly when the photo had no date tag at all.
pub open spec fn prepare_model(
    kind: MediaKind,
    d: DateResultView,
    had_tag: bool,
    dest_root: Seq<char>,
) -> Option<CopyJobView> {
    match parsed_timestamp(date_result_string(d)) {
        None => None,
        Some(ts) => Some(
            CopyJobView {
                target_dir: target_dir_seq(dest_root, ts),
                timestamp: ts,
                backfill: if kind is Photo && d is Inferred {
                    Some((backfill_arg_seq(ts), !had_tag))
                } else {
                    None
                },
            },
        ),
    }
}

impl Copier {
    /// Turns a resolved date into the per-file copy job, rejecting a
    /// date-time string that denotes no calendar date.
    pub fn prepare(
        &self,
        kind: MediaKind,
        date: &DateResult,
        had_exif: bool,
        dest_root: &str,
    ) -> (r: Result<CopyJob, OrganizeError>)
        ensures
            match r {
                Ok(job) => prepare_model(kind, date@, had_exif, dest_root@) == Some(job@),
                Err(e) => {
                    &&& prepare_model(kind, date@, had_exif, dest_root@) is None
                    &&& e == OrganizeError::InvalidTimestamp
                },
            },
    {
        let ts_string: &String = match date {
            DateResult::FromMetadata(s) => s,
            DateResult::Inferred(s) => s,
        };
        let ts = match parse_timestamp(ts_string.as_str()) {
            Some(t) => t,
            None => {
                return Err(OrganizeError::InvalidTimestamp);
            },
        };
        let target_dir = target_dir_path(dest_root, &ts);
        let is_photo = matches!(kind, MediaKind::Photo);
        let inferred = matches!(date, DateResult::Inferred(_));
        let backfill = if is_photo && inferred {
            Some(Backfill { timestamp_arg: backfill_arg(&ts), create_exif: !had_exif })
        } else {
            None
        };
        Ok(CopyJob { target_dir, timestamp: ts, backfill })
    }
}

/// The organizer accepts every date the library itself rendered: a
/// resolution carrying the rendered form of a well-formed date-time always
/// yields a job for that very date-time. The filesystem-time fallback of
/// both resolver chains hands over such strings, so it never fails here.
pub proof fn lemma_prepare_accepts_rendered(
    kind: MediaKind,
    had_tag: bool,
    dest_root: Seq<char>,
    ts: Timestamp,
)
    requires
        ts.wf(),
    ensures
        prepare_model(kind, DateResultView::Inferred(timestamp_seq(ts)), had_tag, dest_root)
            == Some(
            CopyJobView {
                target_dir: target_dir_seq(dest_root, ts),
                timestamp: ts,
                backfill: if kind is Photo {
                    Some((backfill_arg_seq(ts), !had_tag))
                } else {
                    None
                },
            },
        ),
{
    lemma_timestamp_roundtrip(ts);
}

/// `entries` with every entry named `name` removed.
pub open spec fn remove_name(
    entries: Seq<(Seq<char>, u64)>,
    name: Seq<char>,
) -> Seq<(Seq<char>, u64)>
    decreases entries.len(),
{
    if entries.len() == 0 {
        entries
    } else if entries[0].0 == name {
        remove_name(entries.drop_first(), name)
    } else {
        seq![entries[0]] + remove_name(entries.drop_first(), name)
    }
}

/// The directory contents after a plan is carried out on a file of `size`
/// bytes: nothing changes for an already-present file; a copy deletes the
/// stale empty file if the plan says so and records the new name.
pub open spec fn apply_plan(
    entries: Seq<(Seq<char>, u64)>,
    plan: CopyPlanView,
    size: u64,
) -> Seq<(Seq<char>, u64)> {
    match plan {
        CopyPlanView::AlreadyPresent { .. } => entries,
        CopyPlanView::CopyTo { name, replace_empty } => (if replace_empty {
            remove_name(entries, name)
        } else {
            entries
        }).push((name, size)),
    }
}

pub proof fn lemma_lookup_push(
    entries: Seq<(Seq<char>, u64)>,
    name: Seq<char>,
    x: Seq<char>,
    size: u64,
)
    ensures
        lookup(entries.push((x, size)), name) == (match lookup(entries, name) {
            Some(s) => Some(s),
            None => if x == name {
                Some(size)
            } else {
                None
            },
        }),
    decreases entries.len(),
{
    let pushed = entries.push((x, size));
    assert(pushed.len() == entries.len() + 1);
    assert(lookup(pushed, name) == (if pushed[0].0 == name {
        Some(pushed[0].1)
    } else {
        lookup(pushed.drop_first(), name)
    }));
    if entries.len() == 0 {
        assert(pushed[0] == (x, size));
        assert(pushed.drop_first() =~= Seq::<(Seq<char>, u64)>::empty());
        assert(lookup(pushed.drop_first(), name) is None);
    } else {
        assert(pushed[0] == entries[0]);
        lemma_lookup_push(entries.drop_first(), name, x, size);
        assert(pushed.drop_first() =~= entries.drop_first().push((x, size)));
        assert(lookup(entries, name) == (if entries[0].0 == name {
            Some(entries[0].1)
        } else {
            lookup(entries.drop_first(), name)
        }));
    }
}

pub proof fn lemma_lookup_remove(
    entries: Seq<(Seq<char>, u64)>,
    removed: Seq<char>,
    name: Seq<char>,
)
    ensures
        lookup(remove_name(entries, removed), name) == (if name == removed {
            None
        } else {
            lookup(entries, name)
        }),
    decreases entries.len(),
{
    if entries.len() == 0 {
    } else {
        lemma_lookup_remove(entries.drop_first(), removed, name);
        if entries[0].0 == removed {
        } else {
            let rest = remove_name(entries.drop_first(), removed);
            let whole = seq![entries[0]] + rest;
            assert(whole[0] == entries[0]);
            assert(whole.drop_first() =~= rest);
        }
    }
}

/// The name a plan settles on.
pub open spec fn plan_name(p: CopyPlanView) -> Seq<char> {
    match p {
        CopyPlanView::CopyTo { name, .. } => name,
        CopyPlanView::AlreadyPresent { name } => name,
    }
}

/// Stale empty-file replacement: a zero-length file already at the base
/// target name is deleted and replaced by the copy there, not suffixed
/// around.
pub proof fn lemma_stale_empty_replaced(
    entries: Seq<(Seq<char>, u64)>,
    base: Seq<char>,
    size: u64,
)
    requires
        lookup(entries, base) == Some(0u64),
    ensures
        plan_model(entries, base, size) == (CopyPlanView::CopyTo { name: base, replace_empty: true }),
{
    assert(!blocked_at(entries, base, size, 0));
    assert(is_planned_index(entries, base, size, 0));
    lemma_plan_index(entries, base, size);
    lemma_planned_index_unique(entries, base, size, plan_index(entries, base, size), 0);
}

/// Idempotence: once a planned copy of a non-empty file has been carried
/// out, planning the same file again finds it already present under the
/// same name, and carrying that plan out changes nothing.
pub proof fn lemma_plan_idempotent(entries: Seq<(Seq<char>, u64)>, base: Seq<char>, size: u64)
    requires
        size != 0,
    ensures
        ({
            let p1 = plan_model(entries, base, size);
            let after = apply_plan(entries, p1, size);
            let p2 = plan_model(after, base, size);
            &&& p2 == (CopyPlanView::AlreadyPresent { name: plan_name(p1) })
            &&& apply_plan(after, p2, size) == after
        }),
{
    lemma_plan_index(entries, base, size);
    let k = plan_index(entries, base, size);
    let c = candidate_name(base, k);
    let p1 = plan_model(entries, base, size);
    let after = apply_plan(entries, p1, size);
    match lookup(entries, c) {
        Some(s) => {
            if s == 0 {
                lemma_plan_copy_then_present(entries, base, size, true);
            } else {
                // already present: nothing changed, the same plan recurs
                assert(after == entries);
            }
        },
        None => {
            lemma_plan_copy_then_present(entries, base, size, false);
        },
    }
}

proof fn lemma_plan_copy_then_present(
    entries: Seq<(Seq<char>, u64)>,
    base: Seq<char>,
    size: u64,
    replacing: bool,
)
    requires
        size != 0,
        plan_model(entries, base, size) == (CopyPlanView::CopyTo {
            name: candidate_name(base, plan_index(entries, base, size)),
            replace_empty: replacing,
        }),
        is_planned_index(entries, base, size, plan_index(entries, base, size)),
    ensures
        ({
            let p1 = plan_model(entries, base, size);
            let after = apply_plan(entries, p1, size);
            let p2 = plan_model(after, base, size);
            &&& p2 == (CopyPlanView::AlreadyPresent { name: plan_name(p1) })
            &&& apply_plan(after, p2, size) == after
        }),
{
    let k = plan_index(entries, base, size);
    let c = candidate_name(base, k);
    let p1 = plan_model(entries, base, size);
    let after = apply_plan(entries, p1, size);
    let before_push = if replacing {
        remove_name(entries, c)
    } else {
        entries
    };
    assert(after == before_push.push((c, size)));
    // every candidate before `k` is still blocked
    assert forall|j: int| 0 <= j < k implies blocked_at(after, base, size, j) by {
        let cj = candidate_name(base, j);
        lemma_candidate_injective(base, j, k);
        if replacing {
            lemma_lookup_remove(entries, c, cj);
        }
        lemma_lookup_push(before_push, cj, c, size);
        assert(blocked_at(entries, base, size, j));
    }
    // candidate `k` now holds a size-identical file
    if replacing {
        lemma_lookup_remove(entries, c, c);
    }
    lemma_lookup_push(before_push, c, c, size);
    assert(lookup(after, c) == Some(size));
    assert(is_planned_index(after, base, size, k));
    lemma_plan_index(after, base, size);
    lemma_planned_index_unique(after, base, size, plan_index(after, base, size), k);
}

/// The directory contents after one file, reduced to its base target name
/// and size, is organized into it.
pub open spec fn apply_file(
    entries: Seq<(Seq<char>, u64)>,
    base: Seq<char>,
    size: u64,
) -> Seq<(Seq<char>, u64)> {
    apply_plan(entries, plan_model(entries, base, size), size)
}

/// The directory contents after a whole run organizes `files`, in order.
pub open spec fn run_files(
    entries: Seq<(Seq<char>, u64)>,
    files: Seq<(Seq<char>, u64)>,
) -> Seq<(Seq<char>, u64)>
    decreases files.len(),
{
    if files.len() == 0 {
        entries
    } else {
        run_files(apply_file(entries, files[0].0, files[0].1), files.drop_first())
    }
}

/// A copy of the file lies at candidate `k`, and the search stops there.
pub open spec fn settled_at(
    entries: Seq<(Seq<char>, u64)>,
    base: Seq<char>,
    size: u64,
    k: int,
) -> bool {
    &&& is_planned_index(entries, base, size, k)
    &&& lookup(entries, candidate_name(base, k)) == Some(size)
}

/// A settled file stays settled when another file is organized into the
/// directory: the newcomer lands only on a free or empty name, and every
/// name the settled file's search reads holds a non-empty file.
proof fn lemma_settled_stable(
    entries: Seq<(Seq<char>, u64)>,
    base: Seq<char>,
    size: u64,
    k: int,
    base2: Seq<char>,
    size2: u64,
)
    requires
        settled_at(entries, base, size, k),
        size != 0,
    ensures
        settled_at(apply_file(entries, base2, size2), base, size, k),
{
    lemma_plan_index(entries, base2, size2);
    let k2 = plan_index(entries, base2, size2);
    let c2 = candidate_name(base2, k2);
    let p = plan_model(entries, base2, size2);
    let after = apply_file(entries, base2, size2);
    match p {
        CopyPlanView::AlreadyPresent { .. } => {
            assert(after == entries);
        },
        CopyPlanView::CopyTo { name, replace_empty } => {
            assert(name == c2);
            assert(lookup(entries, c2) is None || lookup(entries, c2) == Some(0u64));
            let before_push = if replace_empty {
                remove_name(entries, c2)
            } else {
                entries
            };
            assert(after == before_push.push((c2, size2)));
            assert forall|j: int| 0 <= j <= k implies lookup(after, candidate_name(base, j))
                == lookup(entries, candidate_name(base, j)) by {
                let cj = candidate_name(base, j);
                // the settled file's search reads only names holding
                // non-empty files, so none of them is where the newcomer
                // lands
                if j < k {
                    assert(blocked_at(entries, base, size, j));
                } else {
                    assert(lookup(entries, cj) == Some(size));
                }
                assert(cj != c2);
                if replace_empty {
                    lemma_lookup_remove(entries, c2, cj);
                }
                lemma_lookup_push(before_push, cj, c2, size2);
            }
            assert forall|j: int| 0 <= j < k implies blocked_at(after, base, size, j) by {
                assert(lookup(after, candidate_name(base, j)) == lookup(
                    entries,
                    candidate_name(base, j),
                ));
                assert(blocked_at(entries, base, size, j));
            }
            assert(lookup(after, candidate_name(base, k)) == lookup(
                entries,
                candidate_name(base, k),
            ));
            assert(lookup(after, candidate_name(base, k)) == Some(size));
            assert(!blocked_at(after, base, size, k));
            assert(is_planned_index(after, base, size, k));
        },
    }
}

/// A settled file stays settled through a whole further run.
proof fn lemma_settled_stable_run(
    entries: Seq<(Seq<char>, u64)>,
    base: Seq<char>,
    size: u64,
    k: int,
    files: Seq<(Seq<char>, u64)>,
)
    requires
        settled_at(entries, base, size, k),
        size != 0,
    ensures
        settled_at(run_files(entries, files), base, size, k),
    decreases files.len(),
{
    if files.len() > 0 {
        lemma_settled_stable(entries, base, size, k, files[0].0, files[0].1);
        lemma_settled_stable_run(
            apply_file(entries, files[0].0, files[0].1),
            base,
            size,
            k,
            files.drop_first(),
        );
    }
}

/// Organizing a settled file is a no-op.
proof fn lemma_settled_noop(entries: Seq<(Seq<char>, u64)>, base: Seq<char>, size: u64, k: int)
    requires
        settled_at(entries, base, size, k),
        size != 0,
    ensures
        apply_file(entries, base, size) == entries,
{
    lemma_plan_index(entries, base, size);
    lemma_planned_index_unique(entries, base, size, plan_index(entries, base, size), k);
}

/// Once a file is organized, it is settled.
proof fn lemma_apply_file_settles(entries: Seq<(Seq<char>, u64)>, base: Seq<char>, size: u64)
    requires
        size != 0,
    ensures
        exists|k: int| settled_at(apply_file(entries, base, size), base, size, k),
{
    lemma_plan_idempotent(entries, base, size);
    let after = apply_file(entries, base, size);
    lemma_plan_index(after, base, size);
    let k = plan_index(after, base, size);
    assert(plan_model(after, base, size) is AlreadyPresent);
    assert(lookup(after, candidate_name(base, k)) matches Some(s) && s != 0);
    assert(settled_at(after, base, size, k));
}

/// Idempotence of a whole run: organizing the same list of non-empty files
/// a second time changes the destination in nothing — no file is copied
/// again, no duplicate appears, every name keeps its size.
pub proof fn lemma_run_idempotent(entries: Seq<(Seq<char>, u64)>, files: Seq<(Seq<char>, u64)>)
    requires
        forall|i: int| 0 <= i < files.len() ==> (#[trigger] files[i]).1 != 0,
    ensures
        run_files(run_files(entries, files), files) == run_files(entries, files),
    decreases files.len(),
{
    if files.len() > 0 {
        let f = files[0];
        let rest = files.drop_first();
        let e1 = apply_file(entries, f.0, f.1);
        let big = run_files(entries, files);
        assert(forall|i: int| 0 <= i < rest.len() ==> (#[trigger] rest[i]).1 != 0) by {
            assert(forall|i: int| 0 <= i < rest.len() ==> rest[i] == files[i + 1]);
        }
        lemma_run_idempotent(e1, rest);
        assert(run_files(big, rest) == big);
        lemma_apply_file_settles(entries, f.0, f.1);
        let k = choose|k: int| settled_at(e1, f.0, f.1, k);
        lemma_settled_stable_run(e1, f.0, f.1, k, rest);
        lemma_settled_noop(big, f.0, f.1, k);
        assert(run_files(big, files) == run_files(apply_file(big, f.0, f.1), rest));
    }
}

/// Collision correctness: three files of pairwise different non-zero
/// sizes, organized one after the other under the same base name into the
/// same (initially empty) directory, land at the bare name and the `_001`
/// and `_002` suffixes, each earlier copy preserved with its size.
pub proof fn lemma_collision_suffixes(base: Seq<char>, a: u64, b: u64, c: u64)
    requires
        a != 0,
        b != 0,
        c != 0,
        a != b,
        a != c,
        b != c,
    ensures
        ({
            let e0 = Seq::<(Seq<char>, u64)>::empty();
            let p1 = plan_model(e0, base, a);
            let e1 = apply_plan(e0, p1, a);
            let p2 = plan_model(e1, base, b);
            let e2 = apply_plan(e1, p2, b);
            let p3 = plan_model(e2, base, c);
            let e3 = apply_plan(e2, p3, c);
            &&& p1 == (CopyPlanView::CopyTo { name: base, replace_empty: false })
            &&& p2 == (CopyPlanView::CopyTo { name: suffixed_name(base, 1), replace_empty: false })
            &&& p3 == (CopyPlanView::CopyTo { name: suffixed_name(base, 2), replace_empty: false })
            &&& lookup(e3, base) == Some(a)
            &&& lookup(e3, suffixed_name(base, 1)) == Some(b)
            &&& lookup(e3, suffixed_name(base, 2)) == Some(c)
        }),
{
    let e0 = Seq::<(Seq<char>, u64)>::empty();
    let c0 = candidate_name(base, 0);
    let c1 = candidate_name(base, 1);
    let c2 = candidate_name(base, 2);
    lemma_candidate_injective(base, 0, 1);
    lemma_candidate_injective(base, 0, 2);
    lemma_candidate_injective(base, 1, 2);

    // first file: the directory is empty, the bare name is free
    assert(lookup(e0, c0) is None);
    assert(is_planned_index(e0, base, a, 0));
    lemma_plan_index(e0, base, a);
    lemma_planned_index_unique(e0, base, a, plan_index(e0, base, a), 0);
    let p1 = plan_model(e0, base, a);
    assert(p1 == (CopyPlanView::CopyTo { name: base, replace_empty: false }));
    let e1 = apply_plan(e0, p1, a);
    assert(e1 == e0.push((c0, a)));

    // second file: the bare name is occupied by a different size
    lemma_lookup_push(e0, c0, c0, a);
    assert(lookup(e1, c0) == Some(a));
    lemma_lookup_push(e0, c1, c0, a);
    assert(lookup(e1, c1) is None);
    assert(blocked_at(e1, base, b, 0));
    assert(is_planned_index(e1, base, b, 1));
    lemma_plan_index(e1, base, b);
    lemma_planned_index_unique(e1, base, b, plan_index(e1, base, b), 1);
    let p2 = plan_model(e1, base, b);
    assert(p2 == (CopyPlanView::CopyTo { name: c1, replace_empty: false }));
    let e2 = apply_plan(e1, p2, b);
    assert(e2 == e1.push((c1, b)));

    // third file: both earlier names are occupied by different sizes
    lemma_lookup_push(e1, c0, c1, b);
    assert(lookup(e2, c0) == Some(a));
    lemma_lookup_push(e1, c1, c1, b);
    assert(lookup(e2, c1) == Some(b));
    lemma_lookup_push(e1, c2, c1, b);
    lemma_lookup_push(e0, c2, c0, a);
    assert(lookup(e2, c2) is None);
    assert(blocked_at(e2, base, c, 0));
    assert(blocked_at(e2, base, c, 1));
    assert(is_planned_index(e2, base, c, 2));
    lemma_plan_index(e2, base, c);
    lemma_planned_index_unique(e2, base, c, plan_index(e2, base, c), 2);
    let p3 = plan_model(e2, base, c);
    assert(p3 == (CopyPlanView::CopyTo { name: c2, replace_empty: false }));
    let e3 = apply_plan(e2, p3, c);
    assert(e3 == e2.push((c2, c)));

    // all three copies stand, each with its own size
    lemma_lookup_push(e2, c0, c2, c);
    lemma_lookup_push(e2, c1, c2, c);
    lemma_lookup_push(e2, c2, c2, c);
}

} // verus!
