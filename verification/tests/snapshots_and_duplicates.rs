use fast_hashdeep::duplicates::find_duplicates;
use fast_hashdeep::hashing::HASH_PREFIX_SIZE;
use fast_hashdeep::records::{ContentDescription, FileDescription, ParseErrorKind};
use fast_hashdeep::snapshot::{load_descriptions, SnapshotSource};
use fast_hashdeep::timestamp::Timestamp;

fn ts() -> Timestamp {
    Timestamp { year: 2020, month: 1, day: 2, hour: 3, minute: 4, second: 5, micro: 6 }
}

fn record(path: &str, hash: &str) -> FileDescription {
    FileDescription {
        modified: ts(),
        content: ContentDescription { size: 1, hash: String::from(hash) },
        path: String::from(path),
    }
}

fn source(base: &str, lines: &[&str]) -> SnapshotSource {
    SnapshotSource {
        base_dir: String::from(base),
        lines: lines.iter().map(|l| String::from(*l)).collect(),
    }
}

#[test]
fn load_keeps_each_line() {
    let src = source("", &[
        "2020-01-02 03:04:05.000006,1,f1,/d/a",
        "2020-01-02 03:04:05.000006,1,f2,/d/b",
    ]);
    let loaded = load_descriptions(&vec![src]).unwrap();
    assert_eq!(loaded, vec![record("/d/a", "f1"), record("/d/b", "f2")]);
}

#[test]
fn later_snapshot_overrides_earlier() {
    let snap_a = source("", &["2020-01-02 03:04:05.000006,1,f1,/d/x"]);
    let snap_b = source("", &["2020-01-02 03:04:05.000006,1,f2,/d/x"]);
    let loaded = load_descriptions(&vec![snap_a, snap_b]).unwrap();
    assert_eq!(loaded, vec![record("/d/x", "f2")]);
}

#[test]
fn later_line_overrides_earlier_in_one_file() {
    let src = source("", &[
        "2020-01-02 03:04:05.000006,1,f1,/d/x",
        "2020-01-02 03:04:05.000006,1,f2,/d/x",
    ]);
    let loaded = load_descriptions(&vec![src]).unwrap();
    assert_eq!(loaded, vec![record("/d/x", "f2")]);
}

#[test]
fn load_resolves_against_each_base() {
    let snap_a = source("/one", &["2020-01-02 03:04:05.000006,1,f1,a.txt"]);
    let snap_b = source("/two", &["2020-01-02 03:04:05.000006,1,f2,b.txt"]);
    let loaded = load_descriptions(&vec![snap_a, snap_b]).unwrap();
    assert_eq!(loaded, vec![record("/one/a.txt", "f1"), record("/two/b.txt", "f2")]);
}

#[test]
fn first_bad_line_fails_the_load() {
    let src = source("", &[
        "2020-01-02 03:04:05.000006,1,f1,/d/a",
        "not a record",
    ]);
    let err = load_descriptions(&vec![src]).unwrap_err();
    assert_eq!(err.kind, ParseErrorKind::MissingFields);
    assert_eq!(err.line, "not a record");
}

#[test]
fn blank_line_fails_the_load() {
    let src = source("", &["", "2020-01-02 03:04:05.000006,1,f1,/d/a"]);
    let err = load_descriptions(&vec![src]).unwrap_err();
    assert_eq!(err.kind, ParseErrorKind::MissingFields);
}

#[test]
fn duplicates_group_shared_content_only() {
    let records = vec![record("/p2", "f"), record("/p1", "f"), record("/p3", "g")];
    let groups = find_duplicates(&records);
    assert_eq!(groups.len(), 1);
    assert_eq!(groups[0].content, ContentDescription { size: 1, hash: String::from("f") });
    assert_eq!(groups[0].paths, vec!["/p1", "/p2"]);
}

#[test]
fn duplicates_keep_first_occurrence_order() {
    let records = vec![
        record("/a", "g"),
        record("/b", "f"),
        record("/c", "g"),
        record("/d", "f"),
    ];
    let groups = find_duplicates(&records);
    assert_eq!(groups.len(), 2);
    assert_eq!(groups[0].content.hash, "g");
    assert_eq!(groups[0].paths, vec!["/a", "/c"]);
    assert_eq!(groups[1].content.hash, "f");
    assert_eq!(groups[1].paths, vec!["/b", "/d"]);
}

#[test]
fn duplicates_count_same_path_twice_across_snapshots() {
    // Records aggregated from two snapshots are not deduplicated by path.
    let records = vec![record("/same", "f"), record("/same", "f")];
    let groups = find_duplicates(&records);
    assert_eq!(groups.len(), 1);
    assert_eq!(groups[0].paths, vec!["/same", "/same"]);
}

#[test]
fn no_duplicates_no_groups() {
    let records = vec![record("/a", "f"), record("/b", "g")];
    assert!(find_duplicates(&records).is_empty());
}

#[test]
fn fingerprint_matches_md5_of_content() {
    let fp = ContentDescription::of_content(3, b"abc");
    assert_eq!(fp.size, 3);
    assert_eq!(fp.hash, "900150983cd24fb0d6963f7d28e17f72");
    let empty = ContentDescription::of_content(0, b"");
    assert_eq!(empty.hash, "d41d8cd98f00b204e9800998ecf8427e");
}

#[test]
fn fingerprint_covers_only_the_first_megabyte() {
    let mut data = vec![7u8; HASH_PREFIX_SIZE + 3];
    data[HASH_PREFIX_SIZE] = 9;
    let full = ContentDescription::of_content(data.len() as u64, &data);
    let prefix_only = ContentDescription::of_content(data.len() as u64, &data[..HASH_PREFIX_SIZE]);
    assert_eq!(full.hash, prefix_only.hash);
    assert_eq!(full.hash, format!("{:x}", md5::compute(&data[..HASH_PREFIX_SIZE])));
    assert_ne!(full.hash, format!("{:x}", md5::compute(&data)));
}
