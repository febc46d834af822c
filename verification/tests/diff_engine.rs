use fast_hashdeep::diff::{compare, describe_differences, path_by_content, paths_to_probe};
use fast_hashdeep::records::{
    ChangedFile, ContentDescription, CopiedFile, FileDescription, MaybeFileDescription,
    MissingFile, MovedFile,
};
use fast_hashdeep::timestamp::Timestamp;

fn ts() -> Timestamp {
    Timestamp { year: 2020, month: 1, day: 2, hour: 3, minute: 4, second: 5, micro: 6 }
}

fn record(path: &str, hash: &str) -> FileDescription {
    FileDescription {
        modified: ts(),
        content: ContentDescription { size: 1, hash: String::from(hash) },
        path: String::from(path),
    }
}

fn present(path: &str, hash: &str) -> MaybeFileDescription {
    MaybeFileDescription::FileDescription(record(path, hash))
}

fn absent(path: &str) -> MaybeFileDescription {
    MaybeFileDescription::MissingFile(MissingFile { path: String::from(path) })
}

#[test]
fn no_op_audit_is_empty() {
    let expected = vec![record("/d/a", "f1"), record("/d/b", "f2")];
    let current = vec![present("/d/a", "f1"), present("/d/b", "f2")];
    let summary = describe_differences(&expected, &current);
    assert!(!summary.has_changes());
    assert_eq!(summary.describe(), "");
}

#[test]
fn pure_rename_is_one_move() {
    let expected = vec![record("/d/a", "f")];
    let current = vec![present("/d/b", "f"), absent("/d/a")];
    let summary = describe_differences(&expected, &current);
    assert_eq!(
        summary.moved,
        vec![MovedFile { old: String::from("/d/a"), new: String::from("/d/b") }],
    );
    assert!(summary.changed.is_empty());
    assert!(summary.copied.is_empty());
    assert!(summary.deleted.is_empty());
    assert!(summary.added.is_empty());
}

#[test]
fn copy_is_detected_when_source_stays() {
    let expected = vec![record("/d/a", "f")];
    let current = vec![present("/d/a", "f"), present("/d/b", "f")];
    let summary = describe_differences(&expected, &current);
    assert_eq!(
        summary.copied,
        vec![CopiedFile { old: String::from("/d/a"), new: String::from("/d/b") }],
    );
    assert!(summary.changed.is_empty());
    assert!(summary.moved.is_empty());
    assert!(summary.deleted.is_empty());
    assert!(summary.added.is_empty());
}

#[test]
fn genuine_delete_and_unrelated_add() {
    let expected = vec![record("/d/a", "f1")];
    let current = vec![absent("/d/a"), present("/d/c", "f2")];
    let summary = describe_differences(&expected, &current);
    assert_eq!(summary.deleted, vec![MissingFile { path: String::from("/d/a") }]);
    assert_eq!(summary.added, vec![record("/d/c", "f2")]);
    assert!(summary.changed.is_empty());
    assert!(summary.copied.is_empty());
    assert!(summary.moved.is_empty());
}

#[test]
fn content_change_in_place() {
    let expected = vec![record("/d/a", "f1")];
    let current = vec![present("/d/a", "f2")];
    let summary = describe_differences(&expected, &current);
    assert_eq!(
        summary.changed,
        vec![ChangedFile {
            path: String::from("/d/a"),
            old_content: ContentDescription { size: 1, hash: String::from("f1") },
            new_content: ContentDescription { size: 1, hash: String::from("f2") },
        }],
    );
    assert!(summary.copied.is_empty());
    assert!(summary.moved.is_empty());
    assert!(summary.deleted.is_empty());
    assert!(summary.added.is_empty());
}

#[test]
fn timestamp_alone_is_not_a_change() {
    let expected = vec![record("/d/a", "f1")];
    let mut newer = record("/d/a", "f1");
    newer.modified = Timestamp { year: 2024, month: 6, day: 7, hour: 8, minute: 9, second: 10, micro: 11 };
    let current = vec![MaybeFileDescription::FileDescription(newer)];
    let summary = describe_differences(&expected, &current);
    assert!(!summary.has_changes());
}

#[test]
fn move_target_is_not_also_added() {
    // Two new paths share the vanished content: the lexicographically
    // smallest becomes the move target, the other is a surplus addition.
    let expected = vec![record("/d/a", "f")];
    let current = vec![absent("/d/a"), present("/d/x", "f"), present("/d/y", "f")];
    let summary = describe_differences(&expected, &current);
    assert_eq!(
        summary.moved,
        vec![MovedFile { old: String::from("/d/a"), new: String::from("/d/x") }],
    );
    assert_eq!(summary.added, vec![record("/d/y", "f")]);
    assert!(summary.deleted.is_empty());
    assert!(summary.copied.is_empty());
}

#[test]
fn copy_source_is_lexicographically_smallest() {
    let expected = vec![record("/d/b", "f"), record("/d/a", "f")];
    let current = vec![present("/d/a", "f"), present("/d/b", "f"), present("/d/c", "f")];
    let summary = describe_differences(&expected, &current);
    assert_eq!(
        summary.copied,
        vec![CopiedFile { old: String::from("/d/a"), new: String::from("/d/c") }],
    );
}

#[test]
fn collections_sort_by_destination_path() {
    let expected = vec![];
    let current = vec![present("/d/z", "f3"), present("/d/m", "f2"), present("/d/a", "f1")];
    let summary = describe_differences(&expected, &current);
    let paths: Vec<&str> = summary.added.iter().map(|d| d.path.as_str()).collect();
    assert_eq!(paths, vec!["/d/a", "/d/m", "/d/z"]);
}

#[test]
fn path_order_is_by_component() {
    // The separator ranks below any other character, so "a/b" sorts before
    // "a.txt" even though '.' precedes '/' in character order.
    let expected = vec![];
    let current = vec![present("/d/a.txt", "f1"), present("/d/a/b", "f2")];
    let summary = describe_differences(&expected, &current);
    let paths: Vec<&str> = summary.added.iter().map(|d| d.path.as_str()).collect();
    assert_eq!(paths, vec!["/d/a/b", "/d/a.txt"]);
}

#[test]
fn describe_renders_sections_in_order() {
    let expected = vec![record("/d/a", "f1"), record("/d/gone", "f9")];
    let current = vec![
        present("/d/a", "f2"),
        absent("/d/gone"),
        present("/d/new", "f7"),
    ];
    let summary = describe_differences(&expected, &current);
    let added_line = record("/d/new", "f7").to_line();
    let report = summary.describe();
    let expected_report = format!(
        "# Changed files:\n/d/a\n# Deleted files:\n/d/gone\n# Added files:\n{}",
        added_line,
    );
    assert_eq!(report, expected_report);
}

#[test]
fn describe_renders_moves_with_source() {
    let expected = vec![record("/d/a", "f")];
    let current = vec![present("/d/b", "f"), absent("/d/a")];
    let summary = describe_differences(&expected, &current);
    assert_eq!(summary.describe(), "# Moved files:\n/d/b (from /d/a)");
}

#[test]
fn path_by_content_picks_smallest_match() {
    let records = vec![record("/d/b", "f"), record("/d/a", "f"), record("/d/c", "g")];
    let wanted = ContentDescription { size: 1, hash: String::from("f") };
    assert_eq!(path_by_content(&records, &wanted), Some(String::from("/d/a")));
    let missing = ContentDescription { size: 2, hash: String::from("f") };
    assert_eq!(path_by_content(&records, &missing), None);
}

#[test]
fn compare_marks_baseline_only_paths_missing() {
    let baseline = vec![record("/d/a", "f1"), record("/d/b", "f2")];
    let target = vec![record("/d/a", "f1")];
    let summary = compare(&baseline, &target);
    assert_eq!(summary.deleted, vec![MissingFile { path: String::from("/d/b") }]);
    assert!(summary.changed.is_empty());
    assert!(summary.added.is_empty());
}

#[test]
fn compare_equal_snapshots_is_silent() {
    let baseline = vec![record("/d/a", "f1")];
    let target = vec![record("/d/a", "f1")];
    let summary = compare(&baseline, &target);
    assert!(!summary.has_changes());
}

#[test]
fn paths_to_probe_dedupes_union() {
    let expected = vec![record("/d/a", "f1"), record("/d/b", "f2")];
    let walked = vec![
        String::from("/d/b"),
        String::from("/d/c"),
        String::from("/d/c"),
        String::from("/d/a"),
    ];
    let probe = paths_to_probe(&expected, &walked);
    assert_eq!(probe, vec!["/d/a", "/d/b", "/d/c"]);
}
