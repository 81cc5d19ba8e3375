//! The photo timestamp resolver: an ordered fallback chain over the date
//! tags a photo carries, its filename, and its filesystem time.

use vstd::prelude::*;
use crate::copier::{DateResult, DateResultView};
use crate::filename::{convention_date, convention_date_seq, convention_first_at, photo_convention_date};
use crate::filetools::{unix_time_string, get_time_from_unix};
use crate::strings::{truncated_at, opt_seq, Strings};

verus! {

pub struct PhotoHandler {}

/// The date tags of a photo, each present or absent, as the metadata reader
/// displays them.
pub struct PhotoTags {
    pub gps_time: Option<String>,
    pub gps_date: Option<String>,
    pub date_time_original: Option<String>,
    pub date_time: Option<String>,
}

impl View for PhotoTags {
    type V = (Option<Seq<char>>, Option<Seq<char>>, Option<Seq<char>>, Option<Seq<char>>);

    open spec fn view(&self) -> (Option<Seq<char>>, Option<Seq<char>>, Option<Seq<char>>, Option<
        Seq<char>,
    >) {
        (
            opt_seq(self.gps_time),
            opt_seq(self.gps_date),
            opt_seq(self.date_time_original),
            opt_seq(self.date_time),
        )
    }
}

/// Whether the photo carried any date tag at all. The backfill decision
/// needs this: a copy of a photo that had no tag block gets a fresh one,
/// one that had tags gets its block updated.
pub open spec fn has_any_date_tag(
    tags: (Option<Seq<char>>, Option<Seq<char>>, Option<Seq<char>>, Option<Seq<char>>),
) -> bool {
    tags.0 is Some || tags.1 is Some || tags.2 is Some || tags.3 is Some
}

/// The GPS-derived date-time: date and time concatenated, any sub-second
/// fraction discarded.
pub open spec fn gps_date_time(gps_date: Seq<char>, gps_time: Seq<char>) -> Seq<char> {
    truncated_at('.', gps_date + seq![' '] + gps_time)
}

/// The photo fallback chain, first success winning: both GPS tags; the
/// original-date tag; the generic date tag; the messaging-app filename
/// convention; the filesystem time. Nothing only when the chain reaches the
/// filesystem time and that time has no calendar form.
pub open spec fn photo_resolution(
    tags: (Option<Seq<char>>, Option<Seq<char>>, Option<Seq<char>>, Option<Seq<char>>),
    name: Seq<char>,
    fs_secs: i64,
) -> Option<DateResultView> {
    if tags.0 is Some && tags.1 is Some {
        Some(DateResultView::FromMetadata(gps_date_time(tags.1->0, tags.0->0)))
    } else if tags.2 is Some {
        Some(DateResultView::FromMetadata(tags.2->0))
    } else if tags.3 is Some {
        Some(DateResultView::FromMetadata(tags.3->0))
    } else if convention_date(name, 'I', 'M', 'G', 'j', 'p', 'g') is Some {
        Some(DateResultView::Inferred(convention_date(name, 'I', 'M', 'G', 'j', 'p', 'g')->0))
    } else {
        match unix_time_string(fs_secs) {
            Some(s) => Some(DateResultView::Inferred(s)),
            None => None,
        }
    }
}

impl PhotoHandler {
    /// Resolves a photo's date-time from its tags, its name and its
    /// filesystem time, and reports whether it carried any date tag.
    pub fn get_date_time(tags: &PhotoTags, file_name: &str, fs_secs: i64) -> (r: Option<(
        DateResult,
        bool,
    )>)
        ensures
            match r {
                Some(p) => {
                    &&& photo_resolution(tags@, file_name@, fs_secs) == Some(p.0@)
                    &&& p.1 == has_any_date_tag(tags@)
                },
                None => photo_resolution(tags@, file_name@, fs_secs) is None,
            },
    {
        let had_tag = tags.gps_time.is_some() || tags.gps_date.is_some()
            || tags.date_time_original.is_some() || tags.date_time.is_some();
        match (&tags.gps_time, &tags.gps_date) {
            (Some(t), Some(d)) => {
                proof {
                    reveal_strlit(" ");
                }
                let mut joined = d.clone();
                joined.append(" ");
                joined.append(t.as_str());
                proof {
                    assert(joined@ =~= tags@.1->0 + seq![' '] + tags@.0->0);
                }
                let value = Strings::truncate_at('.', joined);
                return Some((DateResult::FromMetadata(value), had_tag));
            },
            _ => {},
        }
        if let Some(v) = &tags.date_time_original {
            return Some((DateResult::FromMetadata(v.clone()), had_tag));
        }
        if let Some(v) = &tags.date_time {
            return Some((DateResult::FromMetadata(v.clone()), had_tag));
        }
        if let Some(d) = photo_convention_date(file_name) {
            return Some((DateResult::Inferred(d), had_tag));
        }
        match get_time_from_unix(fs_secs) {
            Some(s) => Some((DateResult::Inferred(s), had_tag)),
            None => None,
        }
    }
}

/// Provenance ordering: a photo carrying both GPS tags resolves to the
/// GPS-derived date-time, never to the original-date or generic date tags,
/// whatever they hold.
pub proof fn lemma_gps_takes_precedence(
    gps_time: Seq<char>,
    gps_date: Seq<char>,
    date_time_original: Option<Seq<char>>,
    date_time: Option<Seq<char>>,
    name: Seq<char>,
    fs_secs: i64,
)
    ensures
        photo_resolution((Some(gps_time), Some(gps_date), date_time_original, date_time), name, fs_secs)
            == Some(DateResultView::FromMetadata(gps_date_time(gps_date, gps_time))),
{
}

/// Filename-convention fallback: a photo with no date tags whose name
/// matches the messaging-app convention resolves, with provenance
/// `Inferred`, to the date the name encodes followed by the placeholder
/// time ` 13:00:00`.
pub proof fn lemma_photo_convention_fallback(name: Seq<char>, fs_secs: i64, i: int)
    requires
        convention_first_at(name, 'I', 'M', 'G', 'j', 'p', 'g', i),
    ensures
        photo_resolution((None, None, None, None), name, fs_secs) == Some(
            DateResultView::Inferred(convention_date_seq(name, i)),
        ),
        convention_date_seq(name, i).skip(10) == seq![' ', '1', '3', ':', '0', '0', ':', '0', '0'],
{
    let w = choose|k: int| crate::filename::convention_first_at(name, 'I', 'M', 'G', 'j', 'p', 'g', k);
    crate::filename::lemma_convention_first_unique(name, 'I', 'M', 'G', 'j', 'p', 'g', w, i);
    assert(convention_date_seq(name, i).skip(10) =~= seq![' ', '1', '3', ':', '0', '0', ':', '0', '0']);
}

} // verus!
