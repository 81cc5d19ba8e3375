use phototools::copier::DateResult;
use phototools::image::{PhotoHandler, PhotoTags};
use phototools::video::VideoHandler;

fn no_tags() -> PhotoTags {
    PhotoTags { gps_time: None, gps_date: None, date_time_original: None, date_time: None }
}

#[test]
fn test_photo_gps_date_time() {
    let tags = PhotoTags {
        gps_time: Some("14:08:01.00".to_string()),
        gps_date: Some("2019-04-27".to_string()),
        date_time_original: None,
        date_time: None,
    };
    assert_eq!(
        Some((DateResult::FromMetadata("2019-04-27 14:08:01".to_string()), true)),
        PhotoHandler::get_date_time(&tags, "gps-date.jpg", 0)
    );
}

#[test]
fn test_photo_date_time() {
    // no tags, no convention in the name: the filesystem time decides
    let secs: i64 = 1_600_000_000;
    let expected = format!(
        "{}",
        chrono::DateTime::<chrono::Utc>::from_timestamp(secs, 0).unwrap().format("%Y-%m-%d %T")
    );
    assert_eq!(
        Some((DateResult::Inferred(expected), false)),
        PhotoHandler::get_date_time(&no_tags(), "NO_METADATA.JPEG", secs)
    );
}

#[test]
fn gps_wins_over_date_time_original() {
    let tags = PhotoTags {
        gps_time: Some("14:08:01.00".to_string()),
        gps_date: Some("2019-04-27".to_string()),
        date_time_original: Some("2011-01-01 00:00:00".to_string()),
        date_time: Some("2012-02-02 00:00:00".to_string()),
    };
    assert_eq!(
        Some((DateResult::FromMetadata("2019-04-27 14:08:01".to_string()), true)),
        PhotoHandler::get_date_time(&tags, "x.jpg", 0)
    );
}

#[test]
fn date_time_original_wins_over_date_time() {
    let tags = PhotoTags {
        gps_time: Some("14:08:01.00".to_string()),  // time alone is not enough
        gps_date: None,
        date_time_original: Some("2011-01-01 00:00:00".to_string()),
        date_time: Some("2012-02-02 00:00:00".to_string()),
    };
    assert_eq!(
        Some((DateResult::FromMetadata("2011-01-01 00:00:00".to_string()), true)),
        PhotoHandler::get_date_time(&tags, "x.jpg", 0)
    );
}

#[test]
fn photo_convention_beats_file_time() {
    let r = PhotoHandler::get_date_time(&no_tags(), "IMG-20170701-WA0002.jpg", 1_600_000_000);
    assert_eq!(Some((DateResult::Inferred("2017-07-01 13:00:00".to_string()), false)), r);
}

#[test]
fn photo_convention_needs_exact_shape() {
    let secs: i64 = 0;
    // wrong tag letters, wrong extension case: the filesystem time decides
    for name in ["IMG-2017071-WA0002.jpg", "IMG-20170701-WA0002.JPG", "VID-20170701-WA0002.jpg"] {
        let r = PhotoHandler::get_date_time(&no_tags(), name, secs).unwrap();
        assert_eq!(DateResult::Inferred("1970-01-01 00:00:00".to_string()), r.0, "{}", name);
    }
}

#[test]
fn test_video_date_time_metadata() {
    let dump = "Metadata:\n    major_brand     : isom\n    creation_time   : 2019-05-01T17:40:16.000000Z\nDuration: 00:00:10\n".to_string();
    let handler = VideoHandler::new();
    let r = handler.get_date_time(Some(dump.as_str()), "creation-time.mp4", 0);
    assert_eq!(Some(DateResult::FromMetadata("2019-05-01 17:40:16".to_string())), r);
}

#[test]
fn test_video_date_time_file() {
    let secs: i64 = 1_555_555_555;
    let expected = format!(
        "{}",
        chrono::DateTime::<chrono::Utc>::from_timestamp(secs, 0).unwrap().format("%Y-%m-%d %T")
    );
    let handler = VideoHandler::new();
    let r = handler.get_date_time(None, "NO_METADATA.M4V", secs);
    assert_eq!(Some(DateResult::Inferred(expected)), r);
}

#[test]
fn quicktime_tag_preferred_over_creation_time() {
    let dump = "    creation_time   : 2019-05-01T17:40:16.000000Z\n    com.apple.quicktime.creationdate: 2018-06-02T19:00:17+0200\n".to_string();
    let handler = VideoHandler::new();
    let r = handler.get_date_time(Some(dump.as_str()), "FROM_IPHONE.MOV", 0);
    assert_eq!(Some(DateResult::FromMetadata("2018-06-02 19:00:17".to_string())), r);
}

#[test]
fn malformed_quicktime_line_falls_through() {
    // the vendor line carries no parseable date: the generic tag decides
    let dump = "    com.apple.quicktime.creationdate: soon\n    creation_time   : 2019-05-01T17:40:16.000000Z\n".to_string();
    let handler = VideoHandler::new();
    let r = handler.get_date_time(Some(dump.as_str()), "x.mp4", 0);
    assert_eq!(Some(DateResult::FromMetadata("2019-05-01 17:40:16".to_string())), r);
}

#[test]
fn creation_time_needs_fraction_and_zone() {
    // without `.fraction` and `Z` the generic line is malformed; the
    // filename convention is next
    let dump = "    creation_time   : 2019-05-01T17:40:16\n".to_string();
    let handler = VideoHandler::new();
    let r = handler.get_date_time(Some(dump.as_str()), "VID-20181129-WA9876.mp4", 0);
    assert_eq!(Some(DateResult::Inferred("2018-11-29 13:00:00".to_string())), r);
}

#[test]
fn video_convention_fallback() {
    let handler = VideoHandler::new();
    let r = handler.get_date_time(None, "VID-20181129-WA9876.mp4", 1_600_000_000);
    assert_eq!(Some(DateResult::Inferred("2018-11-29 13:00:00".to_string())), r);
}

#[test]
fn file_time_formatting_matches_chrono() {
    assert_eq!(
        Some("1970-01-01 00:00:00".to_string()),
        phototools::filetools::get_time_from_unix(0)
    );
    for secs in [1_556_732_416i64, 1_499_000_000, 86_399, 951_827_696, -1] {
        let expected = format!(
            "{}",
            chrono::DateTime::<chrono::Utc>::from_timestamp(secs, 0).unwrap().format("%Y-%m-%d %T")
        );
        assert_eq!(Some(expected), phototools::filetools::get_time_from_unix(secs), "{}", secs);
    }
}
