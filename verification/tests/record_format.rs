use fast_hashdeep::records::{ContentDescription, FileDescription, ParseErrorKind};
use fast_hashdeep::timestamp::{format_timestamp, parse_timestamp, Timestamp};

fn sample_timestamp() -> Timestamp {
    Timestamp { year: 2021, month: 3, day: 14, hour: 15, minute: 9, second: 26, micro: 535897 }
}

fn sample_record() -> FileDescription {
    FileDescription {
        modified: sample_timestamp(),
        content: ContentDescription { size: 42, hash: String::from("abc123") },
        path: String::from("/tmp/x.txt"),
    }
}

#[test]
fn format_line_is_four_fields() {
    let line = sample_record().to_line();
    assert_eq!(line, "2021-03-14 15:09:26.535897,42,abc123,/tmp/x.txt");
}

#[test]
fn round_trip_line() {
    let record = sample_record();
    let line = record.to_line();
    let parsed = FileDescription::parse(&line, "/anywhere").unwrap();
    assert_eq!(parsed, record);
}

#[test]
fn round_trip_relative_with_matching_base() {
    let record = FileDescription {
        modified: sample_timestamp(),
        content: ContentDescription { size: 7, hash: String::from("beef") },
        path: String::from("notes/todo.txt"),
    };
    let line = record.to_line();
    let parsed = FileDescription::parse(&line, "").unwrap();
    assert_eq!(parsed, record);
}

#[test]
fn comma_in_path_is_kept() {
    let line = "2020-01-02 03:04:05.000001,7,beef,/a/with, comma.txt";
    let parsed = FileDescription::parse(line, "/base").unwrap();
    assert_eq!(parsed.path, "/a/with, comma.txt");
    assert_eq!(parsed.content.size, 7);
    assert_eq!(parsed.content.hash, "beef");
}

#[test]
fn relative_path_resolves_against_base() {
    let line = "2020-01-02 03:04:05.000001,7,beef,x/y.txt";
    let parsed = FileDescription::parse(line, "/base").unwrap();
    assert_eq!(parsed.path, "/base/x/y.txt");
}

#[test]
fn surrounding_whitespace_is_trimmed() {
    let line = "  2020-01-02 03:04:05.000001,7,beef,/a.txt \n";
    let parsed = FileDescription::parse(line, "/base").unwrap();
    assert_eq!(parsed.path, "/a.txt");
}

#[test]
fn bad_timestamp_is_rejected() {
    let line = "2020-13-01 00:00:00.000000,7,beef,/a.txt";
    let err = FileDescription::parse(line, "").unwrap_err();
    assert_eq!(err.kind, ParseErrorKind::BadTimestamp);
    assert_eq!(err.line, line);
}

#[test]
fn invalid_calendar_day_is_rejected() {
    let line = "2023-02-29 00:00:00.000000,7,beef,/a.txt";
    let err = FileDescription::parse(line, "").unwrap_err();
    assert_eq!(err.kind, ParseErrorKind::BadTimestamp);
}

#[test]
fn bad_size_is_rejected() {
    let line = "2020-01-02 03:04:05.000001,12x,beef,/a.txt";
    let err = FileDescription::parse(line, "").unwrap_err();
    assert_eq!(err.kind, ParseErrorKind::BadSize);
}

#[test]
fn oversized_size_is_rejected() {
    let line = "2020-01-02 03:04:05.000001,99999999999999999999999,beef,/a.txt";
    let err = FileDescription::parse(line, "").unwrap_err();
    assert_eq!(err.kind, ParseErrorKind::BadSize);
}

#[test]
fn largest_size_round_trips() {
    let line = "2020-01-02 03:04:05.000001,18446744073709551615,beef,/a.txt";
    let parsed = FileDescription::parse(line, "").unwrap();
    assert_eq!(parsed.content.size, u64::MAX);
    assert_eq!(parsed.to_line(), line);
}

#[test]
fn too_few_fields_is_rejected() {
    let err = FileDescription::parse("a,b", "").unwrap_err();
    assert_eq!(err.kind, ParseErrorKind::MissingFields);
}

#[test]
fn blank_line_is_rejected() {
    let err = FileDescription::parse("", "").unwrap_err();
    assert_eq!(err.kind, ParseErrorKind::MissingFields);
}

#[test]
fn timestamp_zero_pads_every_field() {
    let t = Timestamp { year: 1, month: 2, day: 3, hour: 4, minute: 5, second: 6, micro: 7 };
    assert_eq!(format_timestamp(&t), "0001-02-03 04:05:06.000007");
}

#[test]
fn timestamp_round_trips() {
    let t = sample_timestamp();
    assert_eq!(parse_timestamp(&format_timestamp(&t)), Some(t));
}

#[test]
fn leap_day_parses_in_leap_year_only() {
    assert!(parse_timestamp("2024-02-29 00:00:00.000000").is_some());
    assert!(parse_timestamp("2023-02-29 00:00:00.000000").is_none());
    assert!(parse_timestamp("2000-02-29 00:00:00.000000").is_some());
    assert!(parse_timestamp("1900-02-29 00:00:00.000000").is_none());
}

#[test]
fn timestamp_rejects_wrong_width() {
    assert!(parse_timestamp("2024-2-29 00:00:00.000000").is_none());
    assert!(parse_timestamp("2024-02-29 00:00:00.0000000").is_none());
    assert!(parse_timestamp("2024-02-29 00:00:00.00000").is_none());
}

#[test]
fn getters_expose_fingerprint() {
    let c = ContentDescription { size: 9, hash: String::from("ff00") };
    assert_eq!(c.size(), 9);
    assert_eq!(c.hash(), "ff00");
    let r = sample_record();
    assert_eq!(r.content_ref(), &r.content);
}

#[test]
fn empty_digest_field_parses() {
    let line = "2020-01-02 03:04:05.000001,7,,/a.txt";
    let parsed = FileDescription::parse(line, "").unwrap();
    assert_eq!(parsed.content.hash, "");
    assert_eq!(parsed.to_line(), line);
}
