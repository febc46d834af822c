//! Laws of the reconciliation: what the change set looks like in the
//! canonical situations — an unchanged tree, a pure rename, a copy, a
//! genuine deletion beside an unrelated addition, and an in-place content
//! change. Each law holds of any change set satisfying the reconciliation
//! contract, so it holds of what the diff engine returns.

use vstd::prelude::*;

use crate::diff::{
    cur_absent, cur_at, cur_contains, cur_present, cur_record, exists_expected_with,
    exists_present_with,
    expected_with_content, is_added_entry, is_changed_entry, is_copied_entry, is_deleted_entry,
    is_min_expected_with, is_min_present_with, is_moved_entry, is_reconciliation, lemma_cur_at,
    lemma_snap_at, present_with_content, snap_at, snap_contains, unique_keys, unique_paths,
    wf_inputs,
};
use crate::paths::lemma_path_le_total;
use crate::records::{
    ChangedFileView, CopiedFileView, FileDescriptionView, MaybeFileDescriptionView,
    MissingFileView, MovedFileView,
};
use crate::summary::ChangeSummaryView;

verus! {

/// A sequence no value belongs to is empty.
proof fn lemma_seq_empty<A>(s: Seq<A>)
    requires
        forall|x: A| !s.contains(x),
    ensures
        s.len() == 0,
{
    if s.len() > 0 {
        assert(s.contains(s[0]));
    }
}

/// Reconciliation is deterministic: any two change sets satisfying the
/// reconciliation contract for the same expected snapshot and current state
/// are equal — the content-to-path resolution policy leaves no ambiguity.
pub proof fn lemma_reconciliation_deterministic(
    e: Seq<FileDescriptionView>,
    c: Seq<MaybeFileDescriptionView>,
    r1: ChangeSummaryView,
    r2: ChangeSummaryView,
)
    requires
        is_reconciliation(e, c, r1),
        is_reconciliation(e, c, r2),
    ensures
        r1 == r2,
{
    crate::sorting::lemma_sorted_distinct_unique(
        r1.changed,
        r2.changed,
        |x: ChangedFileView| crate::diff::changed_key(x),
    );
    crate::sorting::lemma_sorted_distinct_unique(
        r1.copied,
        r2.copied,
        |x: CopiedFileView| crate::diff::copied_key(x),
    );
    crate::sorting::lemma_sorted_distinct_unique(
        r1.moved,
        r2.moved,
        |x: MovedFileView| crate::diff::moved_key(x),
    );
    crate::sorting::lemma_sorted_distinct_unique(
        r1.deleted,
        r2.deleted,
        |x: MissingFileView| crate::diff::deleted_key(x),
    );
    crate::sorting::lemma_sorted_distinct_unique(
        r1.added,
        r2.added,
        |x: FileDescriptionView| crate::diff::added_key(x),
    );
    assert(r1 == ChangeSummaryView {
        changed: r1.changed,
        copied: r1.copied,
        moved: r1.moved,
        deleted: r1.deleted,
        added: r1.added,
    });
}

/// No-op audit: when every probed path is present with exactly its expected
/// fingerprint, the reconciliation is empty and reports no changes.
pub proof fn lemma_no_op_audit(
    e: Seq<FileDescriptionView>,
    c: Seq<MaybeFileDescriptionView>,
    r: ChangeSummaryView,
)
    requires
        wf_inputs(e, c),
        is_reconciliation(e, c, r),
        forall|j: int| 0 <= j < c.len() ==> (#[trigger] c[j]) is FileDescription,
        forall|j: int|
            0 <= j < c.len() ==> snap_contains(e, (#[trigger] c[j]).key()) && snap_at(
                e,
                c[j].key(),
            ).content == c[j]->FileDescription_0.content,
    ensures
        r.changed.len() == 0,
        r.copied.len() == 0,
        r.moved.len() == 0,
        r.deleted.len() == 0,
        r.added.len() == 0,
        !r.spec_has_changes(),
{
    assert forall|x: ChangedFileView| !r.changed.contains(x) by {
        if is_changed_entry(e, c, x) {
            let j = choose|j: int| 0 <= j < c.len() && (#[trigger] c[j]).key() == x.path;
            lemma_cur_at(c, j);
        }
    }
    assert forall|x: CopiedFileView| !r.copied.contains(x) by {
        if is_copied_entry(e, c, x) {
            let j = choose|j: int| 0 <= j < c.len() && (#[trigger] c[j]).key() == x.new;
            lemma_cur_at(c, j);
        }
    }
    assert forall|x: MovedFileView| !r.moved.contains(x) by {
        if is_moved_entry(e, c, x) {
            let j = choose|j: int| 0 <= j < c.len() && (#[trigger] c[j]).key() == x.old;
            lemma_cur_at(c, j);
        }
    }
    assert forall|x: MissingFileView| !r.deleted.contains(x) by {
        if is_deleted_entry(e, c, x) {
            let j = choose|j: int| 0 <= j < c.len() && (#[trigger] c[j]).key() == x.path;
            lemma_cur_at(c, j);
        }
    }
    assert forall|x: FileDescriptionView| !r.added.contains(x) by {
        if is_added_entry(e, c, x) {
            let j = choose|j: int| 0 <= j < c.len() && (#[trigger] c[j]).key() == x.path;
            lemma_cur_at(c, j);
        }
    }
    lemma_seq_empty(r.changed);
    lemma_seq_empty(r.copied);
    lemma_seq_empty(r.moved);
    lemma_seq_empty(r.deleted);
    lemma_seq_empty(r.added);
}

/// Pure rename: one expected record whose path vanished while its content
/// reappeared at exactly one other path reconciles to a single move, with
/// nothing deleted, added, copied, or changed.
pub proof fn lemma_pure_rename(
    ra: FileDescriptionView,
    rb: FileDescriptionView,
    r: ChangeSummaryView,
)
    requires
        rb.content == ra.content,
        rb.path != ra.path,
        is_reconciliation(
            seq![ra],
            seq![
                MaybeFileDescriptionView::FileDescription(rb),
                MaybeFileDescriptionView::MissingFile(ra.path),
            ],
            r,
        ),
    ensures
        r.moved =~= seq![MovedFileView { old: ra.path, new: rb.path }],
        r.changed.len() == 0,
        r.copied.len() == 0,
        r.deleted.len() == 0,
        r.added.len() == 0,
{
    let e = seq![ra];
    let c = seq![
        MaybeFileDescriptionView::FileDescription(rb),
        MaybeFileDescriptionView::MissingFile(ra.path),
    ];
    let m = MovedFileView { old: ra.path, new: rb.path };
    assert(unique_paths(e));
    assert(unique_keys(c)) by {
        assert(c[0].key() == rb.path && c[1].key() == ra.path);
    }
    lemma_snap_at(e, 0);
    lemma_cur_at(c, 0);
    lemma_cur_at(c, 1);
    assert forall|p: Seq<char>| #[trigger] cur_contains(c, p) implies p == rb.path || p
        == ra.path by {
        let j = choose|j: int| 0 <= j < c.len() && (#[trigger] c[j]).key() == p;
    }
    assert forall|p: Seq<char>| #[trigger] snap_contains(e, p) implies p == ra.path by {
        let j = choose|j: int| 0 <= j < e.len() && (#[trigger] e[j]).path == p;
    }
    assert(is_moved_entry(e, c, m)) by {
        assert(cur_absent(c, ra.path));
        assert(snap_at(e, ra.path) == ra);
        assert(present_with_content(c, ra.content, rb.path));
        assert forall|p: Seq<char>| #[trigger] present_with_content(c, ra.content, p) implies
            crate::paths::path_le(rb.path, p) by {
            assert(p == rb.path || p == ra.path);
            assert(p == rb.path);
            lemma_path_le_total(rb.path, rb.path);
        }
    }
    assert(r.moved.contains(m));
    assert forall|x: MovedFileView| #[trigger] r.moved.contains(x) implies x == m by {
        assert(is_moved_entry(e, c, x));
        assert(x.old == rb.path || x.old == ra.path);
        assert(cur_at(c, rb.path) is FileDescription) by {
            assert(cur_at(c, rb.path) == c[0]);
        }
        assert(x.old == ra.path);
        assert(present_with_content(c, snap_at(e, x.old).content, x.new));
        assert(x.new == rb.path);
    }
    assert(r.moved.len() == 1) by {
        if r.moved.len() >= 2 {
            assert(r.moved.contains(r.moved[0]));
            assert(r.moved.contains(r.moved[1]));
            assert(crate::diff::moved_key(r.moved[0]) != crate::diff::moved_key(r.moved[1]));
        }
        if r.moved.len() == 0 {
            assert(!r.moved.contains(m));
        }
    }
    assert(r.moved =~= seq![m]) by {
        assert(r.moved.contains(r.moved[0]));
    }
    assert forall|x: ChangedFileView| !r.changed.contains(x) by {
        if is_changed_entry(e, c, x) {
            assert(snap_contains(e, x.path));
            assert(x.path == ra.path);
            assert(cur_present(c, ra.path));
        }
    }
    assert forall|x: CopiedFileView| !r.copied.contains(x) by {
        if is_copied_entry(e, c, x) {
            assert(expected_with_content(e, cur_record(c, x.new).content, x.old));
            assert(x.old == ra.path);
            assert(cur_present(c, ra.path));
        }
    }
    assert forall|x: MissingFileView| !r.deleted.contains(x) by {
        if is_deleted_entry(e, c, x) {
            assert(x.path == ra.path);
            assert(snap_at(e, ra.path) == ra);
            assert(present_with_content(c, ra.content, rb.path));
        }
    }
    assert forall|x: FileDescriptionView| !r.added.contains(x) by {
        if is_added_entry(e, c, x) {
            assert(cur_present(c, x.path));
            assert(x.path == rb.path);
            assert(x == rb) by {
                assert(cur_record(c, rb.path) == rb);
            }
            assert(expected_with_content(e, rb.content, ra.path));
            assert(exists_expected_with(e, rb.content));
            assert(!is_min_present_with(c, rb.content, rb.path));
            assert(present_with_content(c, rb.content, rb.path));
            assert forall|p: Seq<char>| #[trigger] present_with_content(
                c,
                rb.content,
                p,
            ) implies crate::paths::path_le(rb.path, p) by {
                assert(p == rb.path);
                lemma_path_le_total(rb.path, rb.path);
            }
        }
    }
    lemma_seq_empty(r.changed);
    lemma_seq_empty(r.copied);
    lemma_seq_empty(r.deleted);
    lemma_seq_empty(r.added);
}

/// Copy detection: when the expected path still carries its content and a
/// second path carries the same content, the reconciliation is a single
/// copy from the expected path to the new one.
pub proof fn lemma_copy_detection(
    ra: FileDescriptionView,
    ca: FileDescriptionView,
    cb: FileDescriptionView,
    r: ChangeSummaryView,
)
    requires
        ca.path == ra.path,
        ca.content == ra.content,
        cb.content == ra.content,
        cb.path != ra.path,
        is_reconciliation(
            seq![ra],
            seq![
                MaybeFileDescriptionView::FileDescription(ca),
                MaybeFileDescriptionView::FileDescription(cb),
            ],
            r,
        ),
    ensures
        r.copied =~= seq![CopiedFileView { old: ra.path, new: cb.path }],
        r.changed.len() == 0,
        r.moved.len() == 0,
        r.deleted.len() == 0,
        r.added.len() == 0,
{
    let e = seq![ra];
    let c = seq![
        MaybeFileDescriptionView::FileDescription(ca),
        MaybeFileDescriptionView::FileDescription(cb),
    ];
    let m = CopiedFileView { old: ra.path, new: cb.path };
    assert(unique_paths(e));
    assert(unique_keys(c)) by {
        assert(c[0].key() == ra.path && c[1].key() == cb.path);
    }
    lemma_snap_at(e, 0);
    lemma_cur_at(c, 0);
    lemma_cur_at(c, 1);
    assert forall|p: Seq<char>| #[trigger] cur_contains(c, p) implies p == ra.path || p
        == cb.path by {
        let j = choose|j: int| 0 <= j < c.len() && (#[trigger] c[j]).key() == p;
    }
    assert forall|p: Seq<char>| #[trigger] snap_contains(e, p) implies p == ra.path by {
        let j = choose|j: int| 0 <= j < e.len() && (#[trigger] e[j]).path == p;
    }
    assert(is_copied_entry(e, c, m)) by {
        assert(cur_present(c, cb.path));
        assert(cur_record(c, cb.path) == cb);
        assert(expected_with_content(e, cb.content, ra.path));
        assert forall|p: Seq<char>| #[trigger] expected_with_content(
            e,
            cb.content,
            p,
        ) implies crate::paths::path_le(ra.path, p) by {
            assert(p == ra.path);
            lemma_path_le_total(ra.path, ra.path);
        }
        assert(cur_present(c, ra.path));
    }
    assert(r.copied.contains(m));
    assert forall|x: CopiedFileView| #[trigger] r.copied.contains(x) implies x == m by {
        assert(is_copied_entry(e, c, x));
        assert(!snap_contains(e, x.new));
        assert(x.new == cb.path);
        assert(expected_with_content(e, cur_record(c, x.new).content, x.old));
        assert(x.old == ra.path);
    }
    assert(r.copied.len() == 1) by {
        if r.copied.len() >= 2 {
            assert(r.copied.contains(r.copied[0]));
            assert(r.copied.contains(r.copied[1]));
            assert(crate::diff::copied_key(r.copied[0]) != crate::diff::copied_key(r.copied[1]));
        }
        if r.copied.len() == 0 {
            assert(!r.copied.contains(m));
        }
    }
    assert(r.copied =~= seq![m]) by {
        assert(r.copied.contains(r.copied[0]));
    }
    assert forall|x: ChangedFileView| !r.changed.contains(x) by {
        if is_changed_entry(e, c, x) {
            assert(x.path == ra.path);
            assert(cur_record(c, ra.path) == ca);
        }
    }
    assert forall|x: MovedFileView| !r.moved.contains(x) by {
        if is_moved_entry(e, c, x) {
            assert(cur_absent(c, x.old));
            assert(x.old == ra.path || x.old == cb.path);
        }
    }
    assert forall|x: MissingFileView| !r.deleted.contains(x) by {
        if is_deleted_entry(e, c, x) {
            assert(cur_absent(c, x.path));
            assert(x.path == ra.path || x.path == cb.path);
        }
    }
    assert forall|x: FileDescriptionView| !r.added.contains(x) by {
        if is_added_entry(e, c, x) {
            assert(cur_present(c, x.path));
            assert(!snap_contains(e, x.path));
            assert(x.path == cb.path);
            assert(cur_record(c, cb.path) == cb);
            assert(expected_with_content(e, cb.content, ra.path));
            assert(exists_expected_with(e, cb.content));
            let q = choose|q: Seq<char>|
                is_min_expected_with(e, cb.content, q) && !cur_present(c, q);
            assert(expected_with_content(e, cb.content, q));
            assert(q == ra.path);
            assert(cur_present(c, ra.path));
        }
    }
    lemma_seq_empty(r.changed);
    lemma_seq_empty(r.moved);
    lemma_seq_empty(r.deleted);
    lemma_seq_empty(r.added);
}

/// Genuine delete beside an unrelated add: a vanished path whose content is
/// gone reconciles to one deletion, and an unexpected path with unrelated
/// content to one addition — nothing is moved, copied, or changed.
pub proof fn lemma_delete_and_add(
    ra: FileDescriptionView,
    rc: FileDescriptionView,
    r: ChangeSummaryView,
)
    requires
        rc.path != ra.path,
        rc.content != ra.content,
        is_reconciliation(
            seq![ra],
            seq![
                MaybeFileDescriptionView::MissingFile(ra.path),
                MaybeFileDescriptionView::FileDescription(rc),
            ],
            r,
        ),
    ensures
        r.deleted =~= seq![MissingFileView { path: ra.path }],
        r.added =~= seq![rc],
        r.changed.len() == 0,
        r.copied.len() == 0,
        r.moved.len() == 0,
{
    let e = seq![ra];
    let c = seq![
        MaybeFileDescriptionView::MissingFile(ra.path),
        MaybeFileDescriptionView::FileDescription(rc),
    ];
    let del = MissingFileView { path: ra.path };
    assert(unique_paths(e));
    assert(unique_keys(c)) by {
        assert(c[0].key() == ra.path && c[1].key() == rc.path);
    }
    lemma_snap_at(e, 0);
    lemma_cur_at(c, 0);
    lemma_cur_at(c, 1);
    assert forall|p: Seq<char>| #[trigger] cur_contains(c, p) implies p == ra.path || p
        == rc.path by {
        let j = choose|j: int| 0 <= j < c.len() && (#[trigger] c[j]).key() == p;
    }
    assert forall|p: Seq<char>| #[trigger] snap_contains(e, p) implies p == ra.path by {
        let j = choose|j: int| 0 <= j < e.len() && (#[trigger] e[j]).path == p;
    }
    assert(is_deleted_entry(e, c, del)) by {
        assert(cur_absent(c, ra.path));
        assert(snap_at(e, ra.path) == ra);
        if exists_present_with(c, ra.content) {
            let q = choose|q: Seq<char>| #[trigger] present_with_content(c, ra.content, q);
            assert(q == rc.path);
            assert(cur_record(c, rc.path) == rc);
        }
    }
    assert(is_added_entry(e, c, rc)) by {
        assert(cur_present(c, rc.path));
        assert(cur_record(c, rc.path) == rc);
        if exists_expected_with(e, rc.content) {
            let q = choose|q: Seq<char>| #[trigger] expected_with_content(e, rc.content, q);
            assert(q == ra.path);
        }
    }
    assert(r.deleted.contains(del));
    assert(r.added.contains(rc));
    assert forall|x: MissingFileView| #[trigger] r.deleted.contains(x) implies x == del by {
        assert(is_deleted_entry(e, c, x));
        assert(cur_absent(c, x.path));
        assert(x.path == ra.path);
    }
    assert forall|x: FileDescriptionView| #[trigger] r.added.contains(x) implies x == rc by {
        assert(is_added_entry(e, c, x));
        assert(cur_present(c, x.path));
        assert(!snap_contains(e, x.path));
        assert(x.path == rc.path);
        assert(cur_record(c, rc.path) == rc);
    }
    assert(r.deleted.len() == 1) by {
        if r.deleted.len() >= 2 {
            assert(r.deleted.contains(r.deleted[0]));
            assert(r.deleted.contains(r.deleted[1]));
            assert(crate::diff::deleted_key(r.deleted[0]) != crate::diff::deleted_key(
                r.deleted[1],
            ));
        }
        if r.deleted.len() == 0 {
            assert(!r.deleted.contains(del));
        }
    }
    assert(r.added.len() == 1) by {
        if r.added.len() >= 2 {
            assert(r.added.contains(r.added[0]));
            assert(r.added.contains(r.added[1]));
            assert(crate::diff::added_key(r.added[0]) != crate::diff::added_key(r.added[1]));
        }
        if r.added.len() == 0 {
            assert(!r.added.contains(rc));
        }
    }
    assert(r.deleted =~= seq![del]) by {
        assert(r.deleted.contains(r.deleted[0]));
    }
    assert(r.added =~= seq![rc]) by {
        assert(r.added.contains(r.added[0]));
    }
    assert forall|x: ChangedFileView| !r.changed.contains(x) by {
        if is_changed_entry(e, c, x) {
            assert(snap_contains(e, x.path));
            assert(x.path == ra.path);
            assert(cur_present(c, ra.path));
        }
    }
    assert forall|x: CopiedFileView| !r.copied.contains(x) by {
        if is_copied_entry(e, c, x) {
            assert(!snap_contains(e, x.new));
            assert(cur_present(c, x.new));
            assert(x.new == rc.path);
            assert(cur_record(c, rc.path) == rc);
            assert(expected_with_content(e, rc.content, x.old));
            assert(x.old == ra.path);
            assert(snap_at(e, ra.path) == ra);
        }
    }
    assert forall|x: MovedFileView| !r.moved.contains(x) by {
        if is_moved_entry(e, c, x) {
            assert(cur_absent(c, x.old));
            assert(x.old == ra.path);
            assert(snap_at(e, ra.path) == ra);
            assert(present_with_content(c, ra.content, x.new));
            assert(x.new == ra.path || x.new == rc.path);
            assert(cur_record(c, rc.path) == rc);
        }
    }
    lemma_seq_empty(r.changed);
    lemma_seq_empty(r.copied);
    lemma_seq_empty(r.moved);
}

/// Content change: a path present on both sides with differing fingerprints
/// reconciles to a single changed entry carrying the old and new
/// fingerprints, and nothing else.
pub proof fn lemma_content_change(
    ra: FileDescriptionView,
    ca: FileDescriptionView,
    r: ChangeSummaryView,
)
    requires
        ca.path == ra.path,
        ca.content != ra.content,
        is_reconciliation(
            seq![ra],
            seq![MaybeFileDescriptionView::FileDescription(ca)],
            r,
        ),
    ensures
        r.changed =~= seq![
            ChangedFileView { path: ra.path, old_content: ra.content, new_content: ca.content },
        ],
        r.copied.len() == 0,
        r.moved.len() == 0,
        r.deleted.len() == 0,
        r.added.len() == 0,
{
    let e = seq![ra];
    let c = seq![MaybeFileDescriptionView::FileDescription(ca)];
    let ch = ChangedFileView { path: ra.path, old_content: ra.content, new_content: ca.content };
    assert(unique_paths(e));
    assert(unique_keys(c));
    lemma_snap_at(e, 0);
    lemma_cur_at(c, 0);
    assert(c[0].key() == ra.path);
    assert forall|p: Seq<char>| #[trigger] cur_contains(c, p) implies p == ra.path by {
        let j = choose|j: int| 0 <= j < c.len() && (#[trigger] c[j]).key() == p;
    }
    assert forall|p: Seq<char>| #[trigger] snap_contains(e, p) implies p == ra.path by {
        let j = choose|j: int| 0 <= j < e.len() && (#[trigger] e[j]).path == p;
    }
    assert(is_changed_entry(e, c, ch)) by {
        assert(cur_present(c, ra.path));
        assert(cur_record(c, ra.path) == ca);
        assert(snap_at(e, ra.path) == ra);
    }
    assert(r.changed.contains(ch));
    assert forall|x: ChangedFileView| #[trigger] r.changed.contains(x) implies x == ch by {
        assert(is_changed_entry(e, c, x));
        assert(cur_present(c, x.path));
        assert(x.path == ra.path);
        assert(cur_record(c, ra.path) == ca);
        assert(snap_at(e, ra.path) == ra);
    }
    assert(r.changed.len() == 1) by {
        if r.changed.len() >= 2 {
            assert(r.changed.contains(r.changed[0]));
            assert(r.changed.contains(r.changed[1]));
            assert(crate::diff::changed_key(r.changed[0]) != crate::diff::changed_key(
                r.changed[1],
            ));
        }
        if r.changed.len() == 0 {
            assert(!r.changed.contains(ch));
        }
    }
    assert(r.changed =~= seq![ch]) by {
        assert(r.changed.contains(r.changed[0]));
    }
    assert forall|x: CopiedFileView| !r.copied.contains(x) by {
        if is_copied_entry(e, c, x) {
            assert(cur_present(c, x.new));
            assert(x.new == ra.path);
            assert(snap_contains(e, ra.path));
        }
    }
    assert forall|x: MovedFileView| !r.moved.contains(x) by {
        if is_moved_entry(e, c, x) {
            assert(cur_absent(c, x.old));
            assert(x.old == ra.path);
            assert(cur_at(c, ra.path) == c[0]);
        }
    }
    assert forall|x: MissingFileView| !r.deleted.contains(x) by {
        if is_deleted_entry(e, c, x) {
            assert(cur_absent(c, x.path));
            assert(x.path == ra.path);
            assert(cur_at(c, ra.path) == c[0]);
        }
    }
    assert forall|x: FileDescriptionView| !r.added.contains(x) by {
        if is_added_entry(e, c, x) {
            assert(cur_present(c, x.path));
            assert(x.path == ra.path);
            assert(snap_contains(e, ra.path));
        }
    }
    lemma_seq_empty(r.copied);
    lemma_seq_empty(r.moved);
    lemma_seq_empty(r.deleted);
    lemma_seq_empty(r.added);
}

} // verus!
