use phototools::copier::{
    Backfill, Classification, Copier, CopyJob, CopyPlan, DateResult, MediaKind, OrganizeError,
    TargetEntry, plan_target, suffixed_string,
};
use phototools::image::{PhotoHandler, PhotoTags};
use phototools::video::VideoHandler;

fn entry(name: &str, size: u64) -> TargetEntry {
    TargetEntry { name: name.to_string(), size }
}

fn copy_to(name: &str, replace_empty: bool) -> CopyPlan {
    CopyPlan::CopyTo { name: name.to_string(), replace_empty }
}

fn present(name: &str) -> CopyPlan {
    CopyPlan::AlreadyPresent { name: name.to_string() }
}

#[test]
fn classify_applies_size_filter_first() {
    let copier = Copier::new(100_000, false);
    assert_eq!(Classification::SkipTooSmall, copier.classify("big.jpg", 99_999));
    assert_eq!(Classification::Photo, copier.classify("big.jpg", 100_000));
    // the size filter runs before everything, the hidden check included
    assert_eq!(Classification::SkipTooSmall, copier.classify(".hidden.jpg", 1));
}

#[test]
fn classify_skips_hidden_and_unsupported() {
    let copier = Copier::new(0, false);
    assert_eq!(Classification::SkipHidden, copier.classify(".DS_Store.jpg", 10));
    assert_eq!(Classification::SkipUnsupported, copier.classify("notes.txt", 10));
    assert_eq!(Classification::MalformedName, copier.classify("README", 10));
    assert_eq!(Classification::MalformedName, copier.classify("", 10));
}

#[test]
fn classify_recognizes_kinds_case_insensitively() {
    let copier = Copier::new(0, false);
    assert_eq!(Classification::Photo, copier.classify("a.JPEG", 1));
    assert_eq!(Classification::Photo, copier.classify("b.heic", 1));
    assert_eq!(Classification::Photo, copier.classify("c.DNG", 1));
    assert_eq!(Classification::Video, copier.classify("d.mp4", 1));
    assert_eq!(Classification::Video, copier.classify("e.M4V", 1));
    assert_eq!(Classification::Video, copier.classify("f.MoV", 1));
}

#[test]
fn plan_copies_into_free_name() {
    let plan = plan_target(&vec![], "myimg.jpg", 204_636);
    assert_eq!(copy_to("myimg.jpg", false), plan);
}

#[test]
fn test_dont_replace_same_file() {
    // an empty file at the target name is replaced by the real copy
    let stale = vec![entry("myimg.jpg", 0)];
    assert_eq!(copy_to("myimg.jpg", true), plan_target(&stale, "myimg.jpg", 204_636));
    // a second run over the same source finds the copy and does nothing
    let done = vec![entry("myimg.jpg", 204_636)];
    assert_eq!(present("myimg.jpg"), plan_target(&done, "myimg.jpg", 204_636));
}

#[test]
fn test_dont_replace_same_file2() {
    // same name, different content: a separate suffixed file
    let mut dir = vec![entry("myimg.jpg", 204_636)];
    assert_eq!(copy_to("myimg_001.jpg", false), plan_target(&dir, "myimg.jpg", 204_717));
    dir.push(entry("myimg_001.jpg", 204_717));
    // an empty file at the next suffix is replaced, not suffixed around
    dir.push(entry("myimg_002.jpg", 0));
    assert_eq!(copy_to("myimg_002.jpg", true), plan_target(&dir, "myimg.jpg", 96_593));
    dir.pop();
    dir.push(entry("myimg_002.jpg", 96_593));
    // the file that ended up as _001 is not copied again
    assert_eq!(present("myimg_001.jpg"), plan_target(&dir, "myimg.jpg", 204_717));
    assert_eq!(204_636, dir[0].size);
    assert_eq!(204_717, dir[1].size);
    assert_eq!(96_593, dir[2].size);
}

#[test]
fn plan_walks_past_occupied_suffixes() {
    let dir = vec![
        entry("a.jpg", 10),
        entry("a_001.jpg", 20),
        entry("a_002.jpg", 30),
    ];
    assert_eq!(copy_to("a_003.jpg", false), plan_target(&dir, "a.jpg", 40));
    assert_eq!(present("a_001.jpg"), plan_target(&dir, "a.jpg", 20));
}

#[test]
fn suffix_insertion_and_width() {
    assert_eq!("a_001.jpg", suffixed_string("a.jpg", 1));
    assert_eq!("a_042.jpg", suffixed_string("a.jpg", 42));
    assert_eq!("a_999.jpg", suffixed_string("a.jpg", 999));
    assert_eq!("a_1000.jpg", suffixed_string("a.jpg", 1000));
    assert_eq!("gps-date copy_001.jpg", suffixed_string("gps-date copy.jpg", 1));
    assert_eq!("a.b_007.jpg", suffixed_string("a.b.jpg", 7));
    assert_eq!("noext_001", suffixed_string("noext", 1));
}

fn prepared(kind: MediaKind, date: DateResult, had_exif: bool) -> Result<CopyJob, OrganizeError> {
    Copier::new(0, false).prepare(kind, &date, had_exif, "dest")
}

#[test]
fn example_creation_time_video() {
    // container metadata `creation_time : 2019-05-01T17:40:16.000000Z`
    let dump = " creation_time : 2019-05-01T17:40:16.000000Z\n".to_string();
    let handler = VideoHandler::new();
    let date = handler.get_date_time(Some(dump.as_str()), "creation-time.mp4", 0).unwrap();
    assert_eq!(DateResult::FromMetadata("2019-05-01 17:40:16".to_string()), date);
    let job = prepared(MediaKind::Video, date, false).unwrap();
    assert_eq!("dest/2019/2019-05-01", job.target_dir);
    assert_eq!(Some(parse("2019-05-01 17:40:16")), Some(job.timestamp));
    assert!(job.backfill.is_none());
    assert_eq!(copy_to("creation-time.mp4", false), plan_target(&vec![], "creation-time.mp4", 1000));
}

#[test]
fn example_gps_date_photo() {
    let tags = PhotoTags {
        gps_time: Some("14:08:01.00".to_string()),
        gps_date: Some("2019-04-27".to_string()),
        date_time_original: None,
        date_time: None,
    };
    let (date, had) = PhotoHandler::get_date_time(&tags, "gps-date.jpg", 0).unwrap();
    let job = prepared(MediaKind::Photo, date, had).unwrap();
    assert_eq!("dest/2019/2019-04-27", job.target_dir);
    assert!(job.backfill.is_none());
    assert_eq!(copy_to("gps-date.jpg", false), plan_target(&vec![], "gps-date.jpg", 1000));
}

#[test]
fn example_whatsapp_photo_backfill() {
    let tags = PhotoTags { gps_time: None, gps_date: None, date_time_original: None, date_time: None };
    let (date, had) = PhotoHandler::get_date_time(&tags, "IMG-20170701-WA0002.jpg", 0).unwrap();
    assert_eq!(DateResult::Inferred("2017-07-01 13:00:00".to_string()), date);
    assert!(!had);
    let job = prepared(MediaKind::Photo, date, had).unwrap();
    assert_eq!("dest/2017/2017-07-01", job.target_dir);
    let Backfill { timestamp_arg, create_exif } = job.backfill.unwrap();
    assert_eq!("-ts2017:07:01-13:00:00", timestamp_arg);
    assert!(create_exif);
    assert_eq!(
        copy_to("IMG-20170701-WA0002.jpg", false),
        plan_target(&vec![], "IMG-20170701-WA0002.jpg", 1000)
    );
}

#[test]
fn backfill_updates_existing_tag_block() {
    // inferred date, but the photo had some date tag: patch, do not create
    let date = DateResult::Inferred("2017-07-01 13:00:00".to_string());
    let job = prepared(MediaKind::Photo, date, true).unwrap();
    assert!(!job.backfill.unwrap().create_exif);
}

#[test]
fn metadata_provenance_needs_no_backfill() {
    let date = DateResult::FromMetadata("2019-04-27 14:08:01".to_string());
    let job = prepared(MediaKind::Photo, date, true).unwrap();
    assert!(job.backfill.is_none());
}

#[test]
fn invalid_timestamp_is_an_error() {
    for bad in ["", "2019-02-31 10:00:00", "not a date", "2019:04:27 14:08:01"] {
        let date = DateResult::FromMetadata(bad.to_string());
        assert_eq!(
            Err(OrganizeError::InvalidTimestamp),
            prepared(MediaKind::Photo, date, true).map(|_| ()),
            "{}",
            bad
        );
    }
}

fn parse(s: &str) -> phototools::date::Timestamp {
    phototools::date::parse_timestamp(s).unwrap()
}

fn apply(dir: &mut Vec<TargetEntry>, base: &str, size: u64) -> CopyPlan {
    let plan = plan_target(dir, base, size);
    match &plan {
        CopyPlan::AlreadyPresent { .. } => {}
        CopyPlan::CopyTo { name, replace_empty } => {
            if *replace_empty {
                dir.retain(|e| e.name != *name);
            }
            dir.push(TargetEntry { name: name.clone(), size });
        }
    }
    plan
}

#[test]
fn second_run_changes_nothing() {
    let files = [("a.jpg", 10u64), ("a.jpg", 20), ("b.mov", 30), ("a.jpg", 10)];
    let mut dir: Vec<TargetEntry> = vec![entry("a_002.jpg", 0)];
    for (n, s) in files {
        apply(&mut dir, n, s);
    }
    let first: Vec<(String, u64)> = dir.iter().map(|e| (e.name.clone(), e.size)).collect();
    for (n, s) in files {
        let p = apply(&mut dir, n, s);
        assert!(matches!(p, CopyPlan::AlreadyPresent { .. }), "{} {}", n, s);
    }
    let second: Vec<(String, u64)> = dir.iter().map(|e| (e.name.clone(), e.size)).collect();
    assert_eq!(first, second);
}
