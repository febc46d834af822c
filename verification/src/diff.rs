//! The diff engine: reconciling an expected snapshot against an observed
//! current state into a classified change set.
//!
//! A snapshot is a sequence of file records with pairwise distinct paths; a
//! current state is a sequence of probe outcomes (present with a record, or
//! absent), keyed by path, pairwise distinct. Content lookups resolve a
//! fingerprint to the lexicographically smallest path carrying it, a fixed,
//! deterministic policy.

use vstd::prelude::*;

use crate::paths::{lemma_path_le_total, lemma_path_le_transitive, path_le, path_le_exec};
use crate::sorting::view_seq;
use crate::records::{
    ChangedFileView, ContentDescription, ContentDescriptionView, CopiedFileView, FileDescription,
    FileDescriptionView, MaybeFileDescription, MaybeFileDescriptionView, MissingFileView,
    MovedFileView,
};

verus! {

/// The views of a snapshot's records.
pub open spec fn snap_view(e: Seq<FileDescription>) -> Seq<FileDescriptionView> {
    e.map_values(|d: FileDescription| d@)
}

/// The views of a current state's entries.
pub open spec fn cur_view(c: Seq<MaybeFileDescription>) -> Seq<MaybeFileDescriptionView> {
    c.map_values(|m: MaybeFileDescription| m@)
}

/// Whether the snapshot has a record for path `p`.
pub open spec fn snap_contains(e: Seq<FileDescriptionView>, p: Seq<char>) -> bool {
    exists|i: int| 0 <= i < e.len() && (#[trigger] e[i]).path == p
}

/// The snapshot's record for path `p`.
pub open spec fn snap_at(e: Seq<FileDescriptionView>, p: Seq<char>) -> FileDescriptionView {
    e[choose|i: int| 0 <= i < e.len() && (#[trigger] e[i]).path == p]
}

/// Whether the snapshot's paths are pairwise distinct.
pub open spec fn unique_paths(e: Seq<FileDescriptionView>) -> bool {
    forall|i: int, j: int|
        0 <= i < j < e.len() ==> (#[trigger] e[i]).path != (#[trigger] e[j]).path
}

/// Whether the current state has an entry for path `p`.
pub open spec fn cur_contains(c: Seq<MaybeFileDescriptionView>, p: Seq<char>) -> bool {
    exists|i: int| 0 <= i < c.len() && (#[trigger] c[i]).key() == p
}

/// The current state's entry for path `p`.
pub open spec fn cur_at(c: Seq<MaybeFileDescriptionView>, p: Seq<char>) -> MaybeFileDescriptionView {
    c[choose|i: int| 0 <= i < c.len() && (#[trigger] c[i]).key() == p]
}

/// Whether the current state's paths are pairwise distinct.
pub open spec fn unique_keys(c: Seq<MaybeFileDescriptionView>) -> bool {
    forall|i: int, j: int|
        0 <= i < j < c.len() ==> (#[trigger] c[i]).key() != (#[trigger] c[j]).key()
}

/// Whether path `p` is present (a file was found there).
pub open spec fn cur_present(c: Seq<MaybeFileDescriptionView>, p: Seq<char>) -> bool {
    cur_contains(c, p) && cur_at(c, p) is FileDescription
}

/// Whether path `p` was probed and found absent.
pub open spec fn cur_absent(c: Seq<MaybeFileDescriptionView>, p: Seq<char>) -> bool {
    cur_contains(c, p) && cur_at(c, p) is MissingFile
}

/// The record found at the present path `p`.
pub open spec fn cur_record(c: Seq<MaybeFileDescriptionView>, p: Seq<char>) -> FileDescriptionView {
    cur_at(c, p)->FileDescription_0
}

/// What reconciliation assumes of its inputs: paths unique on both sides,
/// every probed-absent path known to the snapshot (only paths of interest
/// are probed), and every snapshot path probed.
pub open spec fn wf_inputs(
    e: Seq<FileDescriptionView>,
    c: Seq<MaybeFileDescriptionView>,
) -> bool {
    &&& unique_paths(e)
    &&& unique_keys(c)
    &&& forall|p: Seq<char>| #[trigger] cur_absent(c, p) ==> snap_contains(e, p)
    &&& forall|i: int| 0 <= i < e.len() ==> cur_contains(c, (#[trigger] e[i]).path)
}

/// With unique paths, each record is the snapshot's record for its path.
pub proof fn lemma_snap_at(e: Seq<FileDescriptionView>, i: int)
    requires
        unique_paths(e),
        0 <= i < e.len(),
    ensures
        snap_contains(e, e[i].path),
        snap_at(e, e[i].path) == e[i],
{
    assert(snap_contains(e, e[i].path));
    let j = choose|j: int| 0 <= j < e.len() && (#[trigger] e[j]).path == e[i].path;
    if i != j {
        assert(e[i].path != e[j].path);
    }
}

/// With unique keys, each entry is the current state's entry for its path.
pub proof fn lemma_cur_at(c: Seq<MaybeFileDescriptionView>, i: int)
    requires
        unique_keys(c),
        0 <= i < c.len(),
    ensures
        cur_contains(c, c[i].key()),
        cur_at(c, c[i].key()) == c[i],
{
    assert(cur_contains(c, c[i].key()));
    let j = choose|j: int| 0 <= j < c.len() && (#[trigger] c[j]).key() == c[i].key();
    if i != j {
        assert(c[i].key() != c[j].key());
    }
}

/// Whether the snapshot expects content `f` at path `q`.
pub open spec fn expected_with_content(
    e: Seq<FileDescriptionView>,
    f: ContentDescriptionView,
    q: Seq<char>,
) -> bool {
    snap_contains(e, q) && snap_at(e, q).content == f
}

/// Whether `q` is the lexicographically smallest expected path with content
/// `f`: the canonical content-to-path resolution on the expected side.
pub open spec fn is_min_expected_with(
    e: Seq<FileDescriptionView>,
    f: ContentDescriptionView,
    q: Seq<char>,
) -> bool {
    expected_with_content(e, f, q) && forall|p: Seq<char>|
        #[trigger] expected_with_content(e, f, p) ==> path_le(q, p)
}

/// Whether any expected path has content `f`.
pub open spec fn exists_expected_with(
    e: Seq<FileDescriptionView>,
    f: ContentDescriptionView,
) -> bool {
    exists|q: Seq<char>| #[trigger] expected_with_content(e, f, q)
}

/// Whether content `f` is currently present at path `q`.
pub open spec fn present_with_content(
    c: Seq<MaybeFileDescriptionView>,
    f: ContentDescriptionView,
    q: Seq<char>,
) -> bool {
    cur_present(c, q) && cur_record(c, q).content == f
}

/// Whether `q` is the lexicographically smallest present path with content
/// `f`: the canonical content-to-path resolution on the current side.
pub open spec fn is_min_present_with(
    c: Seq<MaybeFileDescriptionView>,
    f: ContentDescriptionView,
    q: Seq<char>,
) -> bool {
    present_with_content(c, f, q) && forall|p: Seq<char>|
        #[trigger] present_with_content(c, f, p) ==> path_le(q, p)
}

/// Whether content `f` is present anywhere in the current state.
pub open spec fn exists_present_with(
    c: Seq<MaybeFileDescriptionView>,
    f: ContentDescriptionView,
) -> bool {
    exists|q: Seq<char>| #[trigger] present_with_content(c, f, q)
}

/// Whether the single probe outcome `m` found a file with content `f`.
pub open spec fn entry_present_with(m: MaybeFileDescriptionView, f: ContentDescriptionView) -> bool {
    m is FileDescription && m->FileDescription_0.content == f
}

/// Whether `x` is a change the reconciliation reports in `changed`: the path
/// exists on both sides and the fingerprints differ.
pub open spec fn is_changed_entry(
    e: Seq<FileDescriptionView>,
    c: Seq<MaybeFileDescriptionView>,
    x: ChangedFileView,
) -> bool {
    &&& cur_present(c, x.path)
    &&& snap_contains(e, x.path)
    &&& snap_at(e, x.path).content != cur_record(c, x.path).content
    &&& x.old_content == snap_at(e, x.path).content
    &&& x.new_content == cur_record(c, x.path).content
}

/// Whether `x` is a move the reconciliation reports: the old path vanished
/// and its expected content resolves to the canonical present path `x.new`.
pub open spec fn is_moved_entry(
    e: Seq<FileDescriptionView>,
    c: Seq<MaybeFileDescriptionView>,
    x: MovedFileView,
) -> bool {
    &&& cur_absent(c, x.old)
    &&& is_min_present_with(c, snap_at(e, x.old).content, x.new)
}

/// Whether `x` is a deletion the reconciliation reports: the path vanished
/// and its expected content is present nowhere.
pub open spec fn is_deleted_entry(
    e: Seq<FileDescriptionView>,
    c: Seq<MaybeFileDescriptionView>,
    x: MissingFileView,
) -> bool {
    &&& cur_absent(c, x.path)
    &&& !exists_present_with(c, snap_at(e, x.path).content)
}

/// Whether `x` is a copy the reconciliation reports: an unexpected present
/// path whose content resolves to a canonical expected path that is itself
/// still present.
pub open spec fn is_copied_entry(
    e: Seq<FileDescriptionView>,
    c: Seq<MaybeFileDescriptionView>,
    x: CopiedFileView,
) -> bool {
    &&& cur_present(c, x.new)
    &&& !snap_contains(e, x.new)
    &&& is_min_expected_with(e, cur_record(c, x.new).content, x.old)
    &&& cur_present(c, x.old)
}

/// Whether `d` is an addition the reconciliation reports: an unexpected
/// present record whose content either no expected path carries, or whose
/// canonical expected path has itself vanished while `d` is not the chosen
/// destination of that move (a surplus duplicate of moved content).
pub open spec fn is_added_entry(
    e: Seq<FileDescriptionView>,
    c: Seq<MaybeFileDescriptionView>,
    d: FileDescriptionView,
) -> bool {
    &&& cur_present(c, d.path)
    &&& cur_record(c, d.path) == d
    &&& !snap_contains(e, d.path)
    &&& if exists_expected_with(e, d.content) {
        &&& exists|q: Seq<char>| is_min_expected_with(e, d.content, q) && !cur_present(c, q)
        &&& !is_min_present_with(c, d.content, d.path)
    } else {
        true
    }
}

/// The sort key of a `changed` entry: its path.
pub open spec fn changed_key(x: ChangedFileView) -> (Seq<char>, Seq<char>) {
    (x.path, Seq::empty())
}

/// The sort key of a `copied` entry: destination first, then source.
pub open spec fn copied_key(x: CopiedFileView) -> (Seq<char>, Seq<char>) {
    (x.new, x.old)
}

/// The sort key of a `moved` entry: destination first, then source.
pub open spec fn moved_key(x: MovedFileView) -> (Seq<char>, Seq<char>) {
    (x.new, x.old)
}

/// The sort key of a `deleted` entry: its path.
pub open spec fn deleted_key(x: MissingFileView) -> (Seq<char>, Seq<char>) {
    (x.path, Seq::empty())
}

/// The sort key of an `added` entry: its path.
pub open spec fn added_key(x: FileDescriptionView) -> (Seq<char>, Seq<char>) {
    (x.path, Seq::empty())
}

/// Whether `s` is sorted by `key` under the pair order, with pairwise
/// distinct keys: the canonical presentation of a report collection.
pub open spec fn sorted_distinct<T>(s: Seq<T>, key: spec_fn(T) -> (Seq<char>, Seq<char>)) -> bool {
    &&& forall|i: int, j: int|
        0 <= i < j < s.len() ==> crate::sorting::pair_le(key(#[trigger] s[i]), key(#[trigger] s[j]))
    &&& forall|i: int, j: int| 0 <= i < j < s.len() ==> key(#[trigger] s[i]) != key(#[trigger] s[j])
}

/// What it means for `r` to be the reconciliation of expected snapshot `e`
/// against current state `c`: each collection holds exactly the entries its
/// predicate admits, sorted by destination path with pairwise distinct keys.
/// This determines `r` uniquely (`lemma_reconciliation_deterministic`).
pub open spec fn is_reconciliation(
    e: Seq<FileDescriptionView>,
    c: Seq<MaybeFileDescriptionView>,
    r: crate::summary::ChangeSummaryView,
) -> bool {
    &&& forall|x: ChangedFileView| #[trigger] r.changed.contains(x) <==> is_changed_entry(e, c, x)
    &&& forall|x: CopiedFileView| #[trigger] r.copied.contains(x) <==> is_copied_entry(e, c, x)
    &&& forall|x: MovedFileView| #[trigger] r.moved.contains(x) <==> is_moved_entry(e, c, x)
    &&& forall|x: MissingFileView| #[trigger] r.deleted.contains(x) <==> is_deleted_entry(e, c, x)
    &&& forall|x: FileDescriptionView| #[trigger] r.added.contains(x) <==> is_added_entry(e, c, x)
    &&& sorted_distinct(r.changed, |x: ChangedFileView| changed_key(x))
    &&& sorted_distinct(r.copied, |x: CopiedFileView| copied_key(x))
    &&& sorted_distinct(r.moved, |x: MovedFileView| moved_key(x))
    &&& sorted_distinct(r.deleted, |x: MissingFileView| deleted_key(x))
    &&& sorted_distinct(r.added, |x: FileDescriptionView| added_key(x))
}

/// Whether entry `j` of the current state is an absent probe of path `p`.
pub open spec fn absent_at(c: Seq<MaybeFileDescriptionView>, j: int, p: Seq<char>) -> bool {
    0 <= j < c.len() && c[j] is MissingFile && c[j].key() == p
}

/// Whether entry `j` of the current state found the record `d`.
pub open spec fn present_at(c: Seq<MaybeFileDescriptionView>, j: int, d: FileDescriptionView) -> bool {
    0 <= j < c.len() && c[j] is FileDescription && c[j]->FileDescription_0 == d
}

/// Whether entry `j` of the current state yields the changed entry `x`.
pub open spec fn changed_entry_at(
    e: Seq<FileDescriptionView>,
    c: Seq<MaybeFileDescriptionView>,
    j: int,
    x: ChangedFileView,
) -> bool {
    &&& 0 <= j < c.len()
    &&& c[j] is FileDescription
    &&& snap_contains(e, c[j]->FileDescription_0.path)
    &&& snap_at(e, c[j]->FileDescription_0.path).content != c[j]->FileDescription_0.content
    &&& x == (ChangedFileView {
        path: c[j]->FileDescription_0.path,
        old_content: snap_at(e, c[j]->FileDescription_0.path).content,
        new_content: c[j]->FileDescription_0.content,
    })
}

/// The canonical present path of a fingerprint is unique.
pub proof fn lemma_min_present_unique(
    c: Seq<MaybeFileDescriptionView>,
    f: ContentDescriptionView,
    q1: Seq<char>,
    q2: Seq<char>,
)
    requires
        is_min_present_with(c, f, q1),
        is_min_present_with(c, f, q2),
    ensures
        q1 == q2,
{
    lemma_path_le_total(q1, q2);
}

/// The canonical expected path of a fingerprint is unique.
pub proof fn lemma_min_expected_unique(
    e: Seq<FileDescriptionView>,
    f: ContentDescriptionView,
    q1: Seq<char>,
    q2: Seq<char>,
)
    requires
        is_min_expected_with(e, f, q1),
        is_min_expected_with(e, f, q2),
    ensures
        q1 == q2,
{
    lemma_path_le_total(q1, q2);
}

/// Finds the record for `path` in a snapshot.
pub fn snapshot_find(expected: &Vec<FileDescription>, path: &String) -> (r: Option<usize>)
    ensures
        r matches Some(i) ==> 0 <= i < expected@.len() && snap_view(expected@)[i as int].path
            == path@,
        r is Some <==> snap_contains(snap_view(expected@), path@),
{
    let ghost ev = snap_view(expected@);
    let n = expected.len();
    let mut i: usize = 0;
    while i < n
        invariant
            0 <= i <= n,
            n == expected@.len(),
            ev == snap_view(expected@),
            forall|j: int| 0 <= j < i ==> (#[trigger] ev[j]).path != path@,
        decreases n - i,
    {
        proof {
            assert(ev[i as int] == expected@[i as int]@);
        }
        if expected[i].path == *path {
            return Some(i);
        }
        i = i + 1;
    }
    None
}

/// Whether `path` is currently present.
pub fn current_is_present(current: &Vec<MaybeFileDescription>, path: &String) -> (r: bool)
    requires
        unique_keys(cur_view(current@)),
    ensures
        r == cur_present(cur_view(current@), path@),
{
    let ghost cv = cur_view(current@);
    let n = current.len();
    let mut i: usize = 0;
    while i < n
        invariant
            0 <= i <= n,
            n == current@.len(),
            cv == cur_view(current@),
            unique_keys(cv),
            forall|j: int| 0 <= j < i ==> (#[trigger] cv[j]).key() != path@,
        decreases n - i,
    {
        proof {
            assert(cv[i as int] == current@[i as int]@);
        }
        let hit = match &current[i] {
            MaybeFileDescription::MissingFile(m) => {
                if m.path == *path {
                    proof {
                        lemma_cur_at(cv, i as int);
                    }
                    return false;
                }
                false
            },
            MaybeFileDescription::FileDescription(d) => {
                if d.path == *path {
                    proof {
                        lemma_cur_at(cv, i as int);
                    }
                    return true;
                }
                false
            },
        };
        proof {
            assert(!hit);
            assert(cv[i as int].key() != path@);
        }
        i = i + 1;
    }
    proof {
        if cur_present(cv, path@) {
            let j = choose|j: int| 0 <= j < cv.len() && (#[trigger] cv[j]).key() == path@;
        }
    }
    false
}

/// Resolves a fingerprint to the lexicographically smallest expected path
/// carrying it: the deterministic content-to-path table of the expected
/// side.
pub fn path_by_content(descriptions: &Vec<FileDescription>, content: &ContentDescription) -> (r:
    Option<String>)
    requires
        unique_paths(snap_view(descriptions@)),
    ensures
        r matches Some(q) ==> is_min_expected_with(snap_view(descriptions@), content@, q@),
        r is Some <==> exists_expected_with(snap_view(descriptions@), content@),
{
    let ghost ev = snap_view(descriptions@);
    let n = descriptions.len();
    let mut best: Option<String> = None;
    let mut i: usize = 0;
    while i < n
        invariant
            0 <= i <= n,
            n == descriptions@.len(),
            ev == snap_view(descriptions@),
            unique_paths(ev),
            best matches Some(b) ==> exists|j: int|
                0 <= j < i && (#[trigger] ev[j]).path == b@ && ev[j].content == content@,
            best matches Some(b) ==> forall|j: int|
                0 <= j < i && (#[trigger] ev[j]).content == content@ ==> path_le(b@, ev[j].path),
            best is None ==> forall|j: int| 0 <= j < i ==> (#[trigger] ev[j]).content != content@,
        decreases n - i,
    {
        proof {
            assert(ev[i as int] == descriptions@[i as int]@);
        }
        if descriptions[i].content.same_content(content) {
            let better = match &best {
                None => true,
                Some(b) => {
                    let le = path_le_exec(descriptions[i].path.as_str(), b.as_str());
                    proof {
                        lemma_path_le_total(ev[i as int].path, b@);
                    }
                    le
                },
            };
            if better {
                proof {
                    if best is Some {
                        let b0 = best->Some_0;
                        assert forall|j: int|
                            0 <= j < i && (#[trigger] ev[j]).content == content@ implies path_le(
                            ev[i as int].path,
                            ev[j].path,
                        ) by {
                            lemma_path_le_transitive(ev[i as int].path, b0@, ev[j].path);
                        }
                    }
                }
                best = Some(descriptions[i].path.clone());
            }
        }
        i = i + 1;
    }
    proof {
        if best is Some {
            let b = best->Some_0;
            let j = choose|j: int|
                0 <= j < ev.len() && (#[trigger] ev[j]).path == b@ && ev[j].content == content@;
            lemma_snap_at(ev, j);
            assert(expected_with_content(ev, content@, b@));
            assert forall|p: Seq<char>| #[trigger] expected_with_content(ev, content@, p)
                implies path_le(b@, p) by {
                let k = choose|k: int| 0 <= k < ev.len() && (#[trigger] ev[k]).path == p;
                lemma_snap_at(ev, k);
            }
        } else {
            if exists_expected_with(ev, content@) {
                let q = choose|q: Seq<char>| #[trigger] expected_with_content(ev, content@, q);
                let k = choose|k: int| 0 <= k < ev.len() && (#[trigger] ev[k]).path == q;
                lemma_snap_at(ev, k);
            }
        }
    }
    best
}

/// Resolves a fingerprint to the lexicographically smallest currently
/// present path carrying it: the deterministic content-to-path table of the
/// current side.
pub fn current_path_by_content(
    current: &Vec<MaybeFileDescription>,
    content: &ContentDescription,
) -> (r: Option<String>)
    requires
        unique_keys(cur_view(current@)),
    ensures
        r matches Some(q) ==> is_min_present_with(cur_view(current@), content@, q@),
        r is Some <==> exists_present_with(cur_view(current@), content@),
{
    let ghost cv = cur_view(current@);
    let n = current.len();
    let mut best: Option<String> = None;
    let mut i: usize = 0;
    while i < n
        invariant
            0 <= i <= n,
            n == current@.len(),
            cv == cur_view(current@),
            unique_keys(cv),
            best matches Some(b) ==> exists|j: int|
                0 <= j < i && entry_present_with(#[trigger] cv[j], content@)
                    && cv[j]->FileDescription_0.path == b@,
            best matches Some(b) ==> forall|j: int|
                0 <= j < i && entry_present_with(#[trigger] cv[j], content@) ==> path_le(
                    b@,
                    cv[j]->FileDescription_0.path,
                ),
            best is None ==> forall|j: int|
                0 <= j < i ==> !entry_present_with(#[trigger] cv[j], content@),
        decreases n - i,
    {
        proof {
            assert(cv[i as int] == current@[i as int]@);
        }
        if let MaybeFileDescription::FileDescription(d) = &current[i] {
            if d.content.same_content(content) {
                let better = match &best {
                    None => true,
                    Some(b) => {
                        let le = path_le_exec(d.path.as_str(), b.as_str());
                        proof {
                            lemma_path_le_total(d.path@, b@);
                        }
                        le
                    },
                };
                if better {
                    proof {
                        if best is Some {
                            let b0 = best->Some_0;
                            assert forall|j: int|
                                0 <= j < i && entry_present_with(
                                    #[trigger] cv[j],
                                    content@,
                                ) implies path_le(d.path@, cv[j]->FileDescription_0.path) by {
                                lemma_path_le_transitive(
                                    d.path@,
                                    b0@,
                                    cv[j]->FileDescription_0.path,
                                );
                            }
                        }
                        assert(entry_present_with(cv[i as int], content@)
                            && cv[i as int]->FileDescription_0.path == d.path@);
                    }
                    best = Some(d.path.clone());
                }
            }
        }
        i = i + 1;
    }
    proof {
        if best is Some {
            let b = best->Some_0;
            let j = choose|j: int|
                0 <= j < cv.len() && entry_present_with(#[trigger] cv[j], content@)
                    && cv[j]->FileDescription_0.path == b@;
            lemma_cur_at(cv, j);
            assert(present_with_content(cv, content@, b@));
            assert forall|p: Seq<char>| #[trigger] present_with_content(cv, content@, p)
                implies path_le(b@, p) by {
                let k = choose|k: int| 0 <= k < cv.len() && (#[trigger] cv[k]).key() == p;
                lemma_cur_at(cv, k);
            }
        } else {
            if exists_present_with(cv, content@) {
                let q = choose|q: Seq<char>| #[trigger] present_with_content(cv, content@, q);
                let k = choose|k: int| 0 <= k < cv.len() && (#[trigger] cv[k]).key() == q;
                lemma_cur_at(cv, k);
            }
        }
    }
    best
}

/// Reconciles an expected snapshot against an observed current state into a
/// classified change set.
///
/// Every path known to either side is classified: a present path whose
/// expected fingerprint differs is changed; an absent path whose content
/// reappears elsewhere is moved, otherwise deleted; an unexpected present
/// path whose content an expected, still-present path explains is copied,
/// otherwise added — unless it is the destination the move resolution chose.
/// Moves are resolved before copies on purpose: whether a copy's source is
/// still occupied decides copy against added, so the final occupancy must be
/// known first. A path cannot be moved from and copied from at once: a move
/// consumes the original's identity, a copy does not.
pub fn describe_differences(
    expected: &Vec<FileDescription>,
    current: &Vec<MaybeFileDescription>,
) -> (r: crate::summary::ChangeSummary)
    requires
        wf_inputs(snap_view(expected@), cur_view(current@)),
    ensures
        is_reconciliation(snap_view(expected@), cur_view(current@), r@),
{
    let ghost ev = snap_view(expected@);
    let ghost cv = cur_view(current@);

    let mut missing: Vec<String> = Vec::new();
    let mut unexpected: Vec<FileDescription> = Vec::new();
    let mut changed: Vec<crate::records::ChangedFile> = Vec::new();

    let n = current.len();
    let mut k: usize = 0;
    while k < n
        invariant
            0 <= k <= n,
            n == current@.len(),
            ev == snap_view(expected@),
            cv == cur_view(current@),
            wf_inputs(ev, cv),
            forall|p: Seq<char>| #[trigger] view_seq(missing@).contains(p) <==> exists|j: int|
                0 <= j < k && absent_at(cv, j, p),
            forall|d: FileDescriptionView| #[trigger] view_seq(unexpected@).contains(d)
                <==> exists|j: int|
                0 <= j < k && #[trigger] present_at(cv, j, d) && !snap_contains(ev, d.path),
            forall|x: ChangedFileView| #[trigger] view_seq(changed@).contains(x) <==> exists|j: int|
                0 <= j < k && #[trigger] changed_entry_at(ev, cv, j, x),
            forall|a: int, b: int|
                0 <= a < b < missing@.len() ==> view_seq(missing@)[a] != view_seq(missing@)[b],
            forall|a: int, b: int|
                0 <= a < b < unexpected@.len() ==> view_seq(unexpected@)[a].path != view_seq(
                    unexpected@,
                )[b].path,
            forall|a: int, b: int|
                0 <= a < b < changed@.len() ==> view_seq(changed@)[a].path != view_seq(
                    changed@,
                )[b].path,
        decreases n - k,
    {
        proof {
            assert(cv[k as int] == current@[k as int]@);
        }
        match &current[k] {
            MaybeFileDescription::MissingFile(mm) => {
                let ghost pre = missing@;
                proof {
                    assert(cv[k as int].key() == mm.path@);
                    assert forall|a: int| 0 <= a < pre.len() implies view_seq(pre)[a] != mm.path@ by {
                        assert(view_seq(pre).contains(view_seq(pre)[a]));
                        let j = choose|j: int| 0 <= j < k && absent_at(cv, j, view_seq(pre)[a]);
                        assert(cv[j].key() != cv[k as int].key());
                    }
                }
                missing.push(mm.path.clone());
                proof {
                    assert(view_seq(missing@) =~= view_seq(pre).push(mm.path@));
                    assert forall|p: Seq<char>| #[trigger] view_seq(missing@).contains(p)
                        <==> exists|j: int| 0 <= j < k + 1 && absent_at(cv, j, p) by {
                        crate::sorting::lemma_push_contains(view_seq(pre), mm.path@, p);
                        if view_seq(missing@).contains(p) {
                            if p == mm.path@ {
                                assert(absent_at(cv, k as int, p));
                            }
                        }
                        if exists|j: int| 0 <= j < k + 1 && absent_at(cv, j, p) {
                            let j = choose|j: int| 0 <= j < k + 1 && absent_at(cv, j, p);
                            if j == k {
                                assert(p == mm.path@);
                            }
                        }
                    }
                }
            },
            MaybeFileDescription::FileDescription(d) => {
                proof {
                    assert(cv[k as int]->FileDescription_0 == d@);
                    assert(cv[k as int].key() == d.path@);
                }
                match snapshot_find(expected, &d.path) {
                    None => {
                        let ghost pre = unexpected@;
                        proof {
                            assert forall|a: int| 0 <= a < pre.len() implies view_seq(
                                pre,
                            )[a].path != d.path@ by {
                                assert(view_seq(pre).contains(view_seq(pre)[a]));
                                let j = choose|j: int|
                                    0 <= j < k && #[trigger] present_at(cv, j, view_seq(pre)[a])
                                        && !snap_contains(ev, view_seq(pre)[a].path);
                                assert(cv[j].key() != cv[k as int].key());
                            }
                        }
                        unexpected.push(d.duplicate());
                        proof {
                            assert(view_seq(unexpected@) =~= view_seq(pre).push(d@));
                            assert forall|x: FileDescriptionView| #[trigger] view_seq(
                                unexpected@,
                            ).contains(x) <==> exists|j: int|
                                0 <= j < k + 1 && #[trigger] present_at(cv, j, x)
                                    && !snap_contains(ev, x.path) by {
                                crate::sorting::lemma_push_contains(view_seq(pre), d@, x);
                                if view_seq(unexpected@).contains(x) {
                                    if x == d@ {
                                        assert(present_at(cv, k as int, x));
                                    }
                                }
                                if exists|j: int|
                                    0 <= j < k + 1 && #[trigger] present_at(cv, j, x)
                                        && !snap_contains(ev, x.path) {
                                    let j = choose|j: int|
                                        0 <= j < k + 1 && #[trigger] present_at(cv, j, x)
                                            && !snap_contains(ev, x.path);
                                    if j == k {
                                        assert(x == d@);
                                    }
                                }
                            }
                        }
                    },
                    Some(i) => {
                        proof {
                            assert(ev[i as int] == expected@[i as int]@);
                            lemma_snap_at(ev, i as int);
                        }
                        if !expected[i].content.same_content(&d.content) {
                            let ghost pre = changed@;
                            let ghost x_new = ChangedFileView {
                                path: d.path@,
                                old_content: ev[i as int].content,
                                new_content: d.content@,
                            };
                            proof {
                                assert(changed_entry_at(ev, cv, k as int, x_new));
                                assert forall|a: int| 0 <= a < pre.len() implies view_seq(
                                    pre,
                                )[a].path != d.path@ by {
                                    assert(view_seq(pre).contains(view_seq(pre)[a]));
                                    let j = choose|j: int|
                                        0 <= j < k && #[trigger] changed_entry_at(
                                            ev,
                                            cv,
                                            j,
                                            view_seq(pre)[a],
                                        );
                                    assert(cv[j].key() != cv[k as int].key());
                                }
                            }
                            changed.push(
                                crate::records::ChangedFile {
                                    path: d.path.clone(),
                                    old_content: expected[i].content.duplicate(),
                                    new_content: d.content.duplicate(),
                                },
                            );
                            proof {
                                assert(view_seq(changed@) =~= view_seq(pre).push(x_new));
                                assert forall|x: ChangedFileView| #[trigger] view_seq(
                                    changed@,
                                ).contains(x) <==> exists|j: int|
                                    0 <= j < k + 1 && #[trigger] changed_entry_at(ev, cv, j, x) by {
                                    crate::sorting::lemma_push_contains(view_seq(pre), x_new, x);
                                    if view_seq(changed@).contains(x) {
                                        if x == x_new {
                                            assert(changed_entry_at(ev, cv, k as int, x));
                                        }
                                    }
                                    if exists|j: int|
                                        0 <= j < k + 1 && #[trigger] changed_entry_at(
                                            ev,
                                            cv,
                                            j,
                                            x,
                                        ) {
                                        let j = choose|j: int|
                                            0 <= j < k + 1 && #[trigger] changed_entry_at(
                                                ev,
                                                cv,
                                                j,
                                                x,
                                            );
                                        if j == k {
                                            assert(x == x_new);
                                        }
                                    }
                                }
                            }
                        } else {
                            proof {
                                assert forall|x: ChangedFileView| #[trigger] changed_entry_at(
                                    ev,
                                    cv,
                                    k as int,
                                    x,
                                ) implies false by {
                                    assert(ev[i as int].content == d.content@);
                                }
                            }
                        }
                    },
                }
            },
        }
        k = k + 1;
    }

    // Every absent path, every unexpected record, and every in-place change
    // is now accounted for exactly once.
    proof {
        assert forall|p: Seq<char>| #[trigger] view_seq(missing@).contains(p) <==> cur_absent(
            cv,
            p,
        ) by {
            if view_seq(missing@).contains(p) {
                let j = choose|j: int| 0 <= j < n && absent_at(cv, j, p);
                lemma_cur_at(cv, j);
            }
            if cur_absent(cv, p) {
                let j = choose|j: int| 0 <= j < cv.len() && (#[trigger] cv[j]).key() == p;
                lemma_cur_at(cv, j);
                assert(absent_at(cv, j, p));
            }
        }
        assert forall|d: FileDescriptionView| #[trigger] view_seq(unexpected@).contains(d) <==> (
        cur_present(cv, d.path) && cur_record(cv, d.path) == d && !snap_contains(ev, d.path)) by {
            if view_seq(unexpected@).contains(d) {
                let j = choose|j: int|
                    0 <= j < n && #[trigger] present_at(cv, j, d) && !snap_contains(ev, d.path);
                lemma_cur_at(cv, j);
                assert(cv[j].key() == d.path);
            }
            if cur_present(cv, d.path) && cur_record(cv, d.path) == d && !snap_contains(
                ev,
                d.path,
            ) {
                let j = choose|j: int| 0 <= j < cv.len() && (#[trigger] cv[j]).key() == d.path;
                lemma_cur_at(cv, j);
                assert(present_at(cv, j, d));
            }
        }
        assert forall|x: ChangedFileView| #[trigger] view_seq(changed@).contains(x)
            <==> is_changed_entry(ev, cv, x) by {
            if view_seq(changed@).contains(x) {
                let j = choose|j: int| 0 <= j < n && #[trigger] changed_entry_at(ev, cv, j, x);
                lemma_cur_at(cv, j);
                assert(cv[j].key() == x.path);
            }
            if is_changed_entry(ev, cv, x) {
                let j = choose|j: int| 0 <= j < cv.len() && (#[trigger] cv[j]).key() == x.path;
                lemma_cur_at(cv, j);
                assert(changed_entry_at(ev, cv, j, x));
            }
        }
    }

    // Resolve each vanished path into a move (its content reappears at the
    // canonical present path) or a deletion (it reappears nowhere).
    let mut moved: Vec<crate::records::MovedFile> = Vec::new();
    let mut deleted: Vec<crate::records::MissingFile> = Vec::new();
    let mlen = missing.len();
    let mut m: usize = 0;
    while m < mlen
        invariant
            0 <= m <= mlen,
            mlen == missing@.len(),
            ev == snap_view(expected@),
            cv == cur_view(current@),
            wf_inputs(ev, cv),
            forall|p: Seq<char>| #[trigger] view_seq(missing@).contains(p) <==> cur_absent(cv, p),
            forall|a: int, b: int|
                0 <= a < b < missing@.len() ==> view_seq(missing@)[a] != view_seq(missing@)[b],
            forall|x: MovedFileView| #[trigger] view_seq(moved@).contains(x) <==> ((exists|a: int|
                0 <= a < m && view_seq(missing@)[a] == x.old) && is_moved_entry(ev, cv, x)),
            forall|x: MissingFileView| #[trigger] view_seq(deleted@).contains(x) <==> ((exists|
                a: int,
            |
                0 <= a < m && view_seq(missing@)[a] == x.path) && is_deleted_entry(ev, cv, x)),
            forall|a: int, b: int|
                0 <= a < b < moved@.len() ==> view_seq(moved@)[a].old != view_seq(moved@)[b].old,
            forall|a: int, b: int|
                0 <= a < b < deleted@.len() ==> view_seq(deleted@)[a].path != view_seq(
                    deleted@,
                )[b].path,
        decreases mlen - m,
    {
        let p = &missing[m];
        proof {
            assert(view_seq(missing@)[m as int] == missing@[m as int]@);
            assert(view_seq(missing@).contains(p@));
            assert(cur_absent(cv, p@));
            assert(snap_contains(ev, p@));
        }
        let i = match snapshot_find(expected, p) {
            Some(i) => i,
            None => {
                proof {
                    assert(false);
                }
                0
            },
        };
        proof {
            assert(ev[i as int] == expected@[i as int]@);
            lemma_snap_at(ev, i as int);
            assert(snap_at(ev, p@) == ev[i as int]);
        }
        let f = &expected[i].content;
        match current_path_by_content(current, f) {
            Some(q) => {
                let ghost x_new = MovedFileView { old: p@, new: q@ };
                let ghost pre = moved@;
                proof {
                    assert(is_moved_entry(ev, cv, x_new));
                    assert forall|a: int| 0 <= a < pre.len() implies view_seq(pre)[a].old != p@ by {
                        assert(view_seq(pre).contains(view_seq(pre)[a]));
                        let a0 = choose|a0: int|
                            0 <= a0 < m && view_seq(missing@)[a0] == view_seq(pre)[a].old;
                    }
                }
                moved.push(crate::records::MovedFile { old: p.clone(), new: q });
                proof {
                    assert(view_seq(moved@) =~= view_seq(pre).push(x_new));
                    assert forall|x: MovedFileView| #[trigger] view_seq(moved@).contains(x) <==> ((
                    exists|a: int| 0 <= a < m + 1 && view_seq(missing@)[a] == x.old)
                        && is_moved_entry(ev, cv, x)) by {
                        crate::sorting::lemma_push_contains(view_seq(pre), x_new, x);
                        if view_seq(moved@).contains(x) && x == x_new {
                            assert(view_seq(missing@)[m as int] == x.old);
                        }
                        if (exists|a: int| 0 <= a < m + 1 && view_seq(missing@)[a] == x.old)
                            && is_moved_entry(ev, cv, x) {
                            let a = choose|a: int|
                                0 <= a < m + 1 && view_seq(missing@)[a] == x.old;
                            if a == m {
                                lemma_min_present_unique(
                                    cv,
                                    snap_at(ev, p@).content,
                                    x.new,
                                    x_new.new,
                                );
                                assert(x == x_new);
                            }
                        }
                    }
                    assert forall|x: MissingFileView| #[trigger] view_seq(deleted@).contains(x)
                        <==> ((exists|a: int| 0 <= a < m + 1 && view_seq(missing@)[a] == x.path)
                        && is_deleted_entry(ev, cv, x)) by {
                        if (exists|a: int| 0 <= a < m + 1 && view_seq(missing@)[a] == x.path)
                            && is_deleted_entry(ev, cv, x) {
                            let a = choose|a: int|
                                0 <= a < m + 1 && view_seq(missing@)[a] == x.path;
                            if a == m {
                                assert(present_with_content(
                                    cv,
                                    snap_at(ev, p@).content,
                                    x_new.new,
                                ));
                            }
                        }
                    }
                }
            },
            None => {
                let ghost x_new = MissingFileView { path: p@ };
                let ghost pre = deleted@;
                proof {
                    assert(is_deleted_entry(ev, cv, x_new));
                    assert forall|a: int| 0 <= a < pre.len() implies view_seq(pre)[a].path != p@ by {
                        assert(view_seq(pre).contains(view_seq(pre)[a]));
                        let a0 = choose|a0: int|
                            0 <= a0 < m && view_seq(missing@)[a0] == view_seq(pre)[a].path;
                    }
                }
                deleted.push(crate::records::MissingFile { path: p.clone() });
                proof {
                    assert(view_seq(deleted@) =~= view_seq(pre).push(x_new));
                    assert forall|x: MissingFileView| #[trigger] view_seq(deleted@).contains(x)
                        <==> ((exists|a: int| 0 <= a < m + 1 && view_seq(missing@)[a] == x.path)
                        && is_deleted_entry(ev, cv, x)) by {
                        crate::sorting::lemma_push_contains(view_seq(pre), x_new, x);
                        if view_seq(deleted@).contains(x) && x == x_new {
                            assert(view_seq(missing@)[m as int] == x.path);
                        }
                        if (exists|a: int| 0 <= a < m + 1 && view_seq(missing@)[a] == x.path)
                            && is_deleted_entry(ev, cv, x) {
                            let a = choose|a: int|
                                0 <= a < m + 1 && view_seq(missing@)[a] == x.path;
                            if a == m {
                                assert(x == x_new);
                            }
                        }
                    }
                    assert forall|x: MovedFileView| #[trigger] view_seq(moved@).contains(x) <==> ((
                    exists|a: int| 0 <= a < m + 1 && view_seq(missing@)[a] == x.old)
                        && is_moved_entry(ev, cv, x)) by {
                        if (exists|a: int| 0 <= a < m + 1 && view_seq(missing@)[a] == x.old)
                            && is_moved_entry(ev, cv, x) {
                            let a = choose|a: int|
                                0 <= a < m + 1 && view_seq(missing@)[a] == x.old;
                            if a == m {
                                assert(present_with_content(cv, snap_at(ev, p@).content, x.new));
                            }
                        }
                    }
                }
            },
        }
        m = m + 1;
    }

    proof {
        assert forall|x: MovedFileView| #[trigger] view_seq(moved@).contains(x)
            <==> is_moved_entry(ev, cv, x) by {
            if is_moved_entry(ev, cv, x) {
                assert(view_seq(missing@).contains(x.old));
                let a = choose|a: int|
                    0 <= a < view_seq(missing@).len() && view_seq(missing@)[a] == x.old;
            }
        }
        assert forall|x: MissingFileView| #[trigger] view_seq(deleted@).contains(x)
            <==> is_deleted_entry(ev, cv, x) by {
            if is_deleted_entry(ev, cv, x) {
                assert(view_seq(missing@).contains(x.path));
                let a = choose|a: int|
                    0 <= a < view_seq(missing@).len() && view_seq(missing@)[a] == x.path;
            }
        }
    }

    // Resolve each unexpected record into a copy (its content's canonical
    // expected path is still present) or an addition; the chosen destination
    // of a move is neither.
    let mut copied: Vec<crate::records::CopiedFile> = Vec::new();
    let mut added: Vec<FileDescription> = Vec::new();
    let ulen = unexpected.len();
    let mut u: usize = 0;
    while u < ulen
        invariant
            0 <= u <= ulen,
            ulen == unexpected@.len(),
            ev == snap_view(expected@),
            cv == cur_view(current@),
            wf_inputs(ev, cv),
            forall|d: FileDescriptionView| #[trigger] view_seq(unexpected@).contains(d) <==> (
            cur_present(cv, d.path) && cur_record(cv, d.path) == d && !snap_contains(ev, d.path)),
            forall|a: int, b: int|
                0 <= a < b < unexpected@.len() ==> view_seq(unexpected@)[a].path != view_seq(
                    unexpected@,
                )[b].path,
            forall|x: CopiedFileView| #[trigger] view_seq(copied@).contains(x) <==> ((exists|a: int|
                0 <= a < u && view_seq(unexpected@)[a].path == x.new) && is_copied_entry(
                ev,
                cv,
                x,
            )),
            forall|x: FileDescriptionView| #[trigger] view_seq(added@).contains(x) <==> ((exists|
                a: int,
            |
                0 <= a < u && view_seq(unexpected@)[a].path == x.path) && is_added_entry(
                ev,
                cv,
                x,
            )),
            forall|a: int, b: int|
                0 <= a < b < copied@.len() ==> view_seq(copied@)[a].new != view_seq(copied@)[b].new,
            forall|a: int, b: int|
                0 <= a < b < added@.len() ==> view_seq(added@)[a].path != view_seq(added@)[b].path,
        decreases ulen - u,
    {
        let d = &unexpected[u];
        proof {
            assert(view_seq(unexpected@)[u as int] == unexpected@[u as int]@);
            assert(view_seq(unexpected@).contains(d@));
            assert(cur_present(cv, d.path@));
            assert(cur_record(cv, d.path@) == d@);
            assert(!snap_contains(ev, d.path@));
        }
        match path_by_content(expected, &d.content) {
            None => {
                let ghost x_new = d@;
                let ghost pre = added@;
                proof {
                    assert(is_added_entry(ev, cv, x_new));
                    assert forall|a: int| 0 <= a < pre.len() implies view_seq(pre)[a].path
                        != d.path@ by {
                        assert(view_seq(pre).contains(view_seq(pre)[a]));
                        let a0 = choose|a0: int|
                            0 <= a0 < u && view_seq(unexpected@)[a0].path == view_seq(pre)[a].path;
                    }
                }
                added.push(d.duplicate());
                proof {
                    assert(view_seq(added@) =~= view_seq(pre).push(x_new));
                    lemma_added_membership_after_push(ev, cv, view_seq(unexpected@), view_seq(pre), u as int, x_new);
                    assert(!(exists|q: Seq<char>|
                        is_min_expected_with(ev, x_new.content, q) && cur_present(cv, q))) by {
                        if exists|q: Seq<char>|
                            is_min_expected_with(ev, x_new.content, q) && cur_present(cv, q) {
                            let q = choose|q: Seq<char>|
                                is_min_expected_with(ev, x_new.content, q) && cur_present(cv, q);
                            assert(expected_with_content(ev, x_new.content, q));
                        }
                    }
                    lemma_copied_membership_skip(ev, cv, view_seq(unexpected@), view_seq(copied@), u as int);
                }
            },
            Some(epath) => {
                proof {
                    assert(is_min_expected_with(ev, d.content@, epath@));
                }
                if current_is_present(current, &epath) {
                    let ghost x_new = CopiedFileView { old: epath@, new: d.path@ };
                    let ghost pre = copied@;
                    proof {
                        assert(is_copied_entry(ev, cv, x_new));
                        assert forall|a: int| 0 <= a < pre.len() implies view_seq(pre)[a].new
                            != d.path@ by {
                            assert(view_seq(pre).contains(view_seq(pre)[a]));
                            let a0 = choose|a0: int|
                                0 <= a0 < u && view_seq(unexpected@)[a0].path == view_seq(
                                    pre,
                                )[a].new;
                        }
                    }
                    copied.push(
                        crate::records::CopiedFile { old: epath, new: d.path.clone() },
                    );
                    proof {
                        assert(view_seq(copied@) =~= view_seq(pre).push(x_new));
                        assert forall|x: CopiedFileView| #[trigger] view_seq(copied@).contains(x)
                            <==> ((exists|a: int|
                            0 <= a < u + 1 && view_seq(unexpected@)[a].path == x.new)
                            && is_copied_entry(ev, cv, x)) by {
                            crate::sorting::lemma_push_contains(view_seq(pre), x_new, x);
                            if view_seq(copied@).contains(x) && x == x_new {
                                assert(view_seq(unexpected@)[u as int].path == x.new);
                            }
                            if (exists|a: int|
                                0 <= a < u + 1 && view_seq(unexpected@)[a].path == x.new)
                                && is_copied_entry(ev, cv, x) {
                                let a = choose|a: int|
                                    0 <= a < u + 1 && view_seq(unexpected@)[a].path == x.new;
                                if a == u {
                                    assert(cur_record(cv, x.new) == d@);
                                    lemma_min_expected_unique(ev, d.content@, x.old, epath@);
                                    assert(x == x_new);
                                }
                            }
                        }
                        assert forall|x: FileDescriptionView| #[trigger] view_seq(
                            added@,
                        ).contains(x) <==> ((exists|a: int|
                            0 <= a < u + 1 && view_seq(unexpected@)[a].path == x.path)
                            && is_added_entry(ev, cv, x)) by {
                            if (exists|a: int|
                                0 <= a < u + 1 && view_seq(unexpected@)[a].path == x.path)
                                && is_added_entry(ev, cv, x) {
                                let a = choose|a: int|
                                    0 <= a < u + 1 && view_seq(unexpected@)[a].path == x.path;
                                if a == u {
                                    assert(x == d@);
                                    assert(exists_expected_with(ev, d.content@)) by {
                                        assert(expected_with_content(ev, d.content@, epath@));
                                    }
                                    let q = choose|q: Seq<char>|
                                        is_min_expected_with(ev, x.content, q) && !cur_present(
                                            cv,
                                            q,
                                        );
                                    lemma_min_expected_unique(ev, d.content@, q, epath@);
                                }
                            }
                        }
                    }
                } else {
                    let target = current_path_by_content(current, &d.content);
                    let is_target = match &target {
                        Some(q) => *q == d.path,
                        None => false,
                    };
                    proof {
                        assert(present_with_content(cv, d.content@, d.path@));
                        assert(exists_present_with(cv, d.content@));
                        assert(target is Some);
                        let q = target->Some_0;
                        assert(is_min_present_with(cv, d.content@, q@));
                        if is_target {
                            assert(is_min_present_with(cv, d.content@, d.path@));
                        } else {
                            assert(q@ != d.path@);
                            if is_min_present_with(cv, d.content@, d.path@) {
                                lemma_min_present_unique(cv, d.content@, q@, d.path@);
                            }
                        }
                    }
                    proof {
                        assert(!(exists|q: Seq<char>|
                            is_min_expected_with(ev, d.content@, q) && cur_present(cv, q))) by {
                            if exists|q: Seq<char>|
                                is_min_expected_with(ev, d.content@, q) && cur_present(cv, q) {
                                let q = choose|q: Seq<char>|
                                    is_min_expected_with(ev, d.content@, q) && cur_present(cv, q);
                                lemma_min_expected_unique(ev, d.content@, q, epath@);
                            }
                        }
                    }
                    if !is_target {
                        let ghost x_new = d@;
                        let ghost pre = added@;
                        proof {
                            assert(exists|q: Seq<char>|
                                is_min_expected_with(ev, x_new.content, q) && !cur_present(
                                    cv,
                                    q,
                                )) by {
                                assert(is_min_expected_with(ev, x_new.content, epath@)
                                    && !cur_present(cv, epath@));
                            }
                            assert(is_added_entry(ev, cv, x_new));
                            assert forall|a: int| 0 <= a < pre.len() implies view_seq(pre)[a].path
                                != d.path@ by {
                                assert(view_seq(pre).contains(view_seq(pre)[a]));
                                let a0 = choose|a0: int|
                                    0 <= a0 < u && view_seq(unexpected@)[a0].path == view_seq(
                                        pre,
                                    )[a].path;
                            }
                        }
                        added.push(d.duplicate());
                        proof {
                            assert(view_seq(added@) =~= view_seq(pre).push(x_new));
                            lemma_added_membership_after_push(ev, cv, view_seq(unexpected@), view_seq(pre), u as int, x_new);
                            lemma_copied_membership_skip(ev, cv, view_seq(unexpected@), view_seq(copied@), u as int);
                        }
                    } else {
                        proof {
                            assert forall|x: FileDescriptionView| (exists|a: int|
                                0 <= a < u + 1 && view_seq(unexpected@)[a].path == x.path)
                                && is_added_entry(ev, cv, x) implies #[trigger] view_seq(
                                added@,
                            ).contains(x) by {
                                let a = choose|a: int|
                                    0 <= a < u + 1 && view_seq(unexpected@)[a].path == x.path;
                                if a == u {
                                    assert(x == d@);
                                    assert(is_min_present_with(cv, d.content@, d.path@));
                                }
                            }
                            lemma_copied_membership_skip(ev, cv, view_seq(unexpected@), view_seq(copied@), u as int);
                        }
                    }
                }
            },
        }
        u = u + 1;
    }

    proof {
        assert forall|x: CopiedFileView| #[trigger] view_seq(copied@).contains(x)
            <==> is_copied_entry(ev, cv, x) by {
            if is_copied_entry(ev, cv, x) {
                assert(view_seq(unexpected@).contains(cur_record(cv, x.new)));
                let a = choose|a: int|
                    0 <= a < view_seq(unexpected@).len() && view_seq(unexpected@)[a] == cur_record(
                        cv,
                        x.new,
                    );
                assert(view_seq(unexpected@)[a].path == x.new);
            }
        }
        assert forall|x: FileDescriptionView| #[trigger] view_seq(added@).contains(x)
            <==> is_added_entry(ev, cv, x) by {
            if is_added_entry(ev, cv, x) {
                assert(view_seq(unexpected@).contains(x));
                let a = choose|a: int|
                    0 <= a < view_seq(unexpected@).len() && view_seq(unexpected@)[a] == x;
            }
        }
    }

    // Sort every collection by its destination path for a deterministic,
    // canonical report.
    let ghost changed_pre = changed@;
    let ghost copied_pre = copied@;
    let ghost moved_pre = moved@;
    let ghost deleted_pre = deleted@;
    let ghost added_pre = added@;
    let changed_s = crate::sorting::sort_entries(changed);
    let copied_s = crate::sorting::sort_entries(copied);
    let moved_s = crate::sorting::sort_entries(moved);
    let deleted_s = crate::sorting::sort_entries(deleted);
    let added_s = crate::sorting::sort_entries(added);
    let result = crate::summary::ChangeSummary {
        changed: changed_s,
        copied: copied_s,
        moved: moved_s,
        deleted: deleted_s,
        added: added_s,
    };
    proof {
        assert forall|x: ChangedFileView| #[trigger] result@.changed.contains(x)
            <==> is_changed_entry(ev, cv, x) by {
            crate::sorting::lemma_permutation_view_contains(changed_pre, changed_s@, x);
        }
        assert forall|x: CopiedFileView| #[trigger] result@.copied.contains(x) <==> is_copied_entry(
            ev,
            cv,
            x,
        ) by {
            crate::sorting::lemma_permutation_view_contains(copied_pre, copied_s@, x);
        }
        assert forall|x: MovedFileView| #[trigger] result@.moved.contains(x) <==> is_moved_entry(
            ev,
            cv,
            x,
        ) by {
            crate::sorting::lemma_permutation_view_contains(moved_pre, moved_s@, x);
        }
        assert forall|x: MissingFileView| #[trigger] result@.deleted.contains(x)
            <==> is_deleted_entry(ev, cv, x) by {
            crate::sorting::lemma_permutation_view_contains(deleted_pre, deleted_s@, x);
        }
        assert forall|x: FileDescriptionView| #[trigger] result@.added.contains(x)
            <==> is_added_entry(ev, cv, x) by {
            crate::sorting::lemma_permutation_view_contains(added_pre, added_s@, x);
        }
        lemma_sorted_views(ev, cv, changed_pre, copied_pre, moved_pre, deleted_pre, added_pre, changed_s@, copied_s@, moved_s@, deleted_s@, added_s@);
    }
    result
}

/// The probe entries a snapshot comparison makes up for baseline paths the
/// target does not mention: one absent probe per such path, in baseline
/// order.
pub open spec fn missing_entries(
    bv: Seq<FileDescriptionView>,
    tv: Seq<FileDescriptionView>,
) -> Seq<MaybeFileDescriptionView>
    decreases bv.len(),
{
    if bv.len() == 0 {
        Seq::empty()
    } else {
        missing_entries(bv.drop_last(), tv) + if snap_contains(tv, bv.last().path) {
            Seq::empty()
        } else {
            seq![MaybeFileDescriptionView::MissingFile(bv.last().path)]
        }
    }
}

/// The current state a snapshot comparison reconciles against: every target
/// record as present, and every baseline path absent from the target as an
/// absent probe.
pub open spec fn compare_state(
    bv: Seq<FileDescriptionView>,
    tv: Seq<FileDescriptionView>,
) -> Seq<MaybeFileDescriptionView> {
    tv.map_values(|d: FileDescriptionView| MaybeFileDescriptionView::FileDescription(d))
        + missing_entries(bv, tv)
}

/// The made-up absent probes are exactly the baseline paths the target lacks,
/// each once.
proof fn lemma_missing_entries(bv: Seq<FileDescriptionView>, tv: Seq<FileDescriptionView>)
    requires
        unique_paths(bv),
    ensures
        forall|i: int|
            0 <= i < missing_entries(bv, tv).len() ==> (#[trigger] missing_entries(bv, tv)[i])
                is MissingFile && snap_contains(bv, missing_entries(bv, tv)[i].key())
                && !snap_contains(tv, missing_entries(bv, tv)[i].key()),
        forall|p: Seq<char>|
            #[trigger] snap_contains(bv, p) && !snap_contains(tv, p) ==> exists|i: int|
                0 <= i < missing_entries(bv, tv).len() && (#[trigger] missing_entries(
                    bv,
                    tv,
                )[i]).key() == p,
        forall|i: int, j: int|
            0 <= i < j < missing_entries(bv, tv).len() ==> (#[trigger] missing_entries(
                bv,
                tv,
            )[i]).key() != (#[trigger] missing_entries(bv, tv)[j]).key(),
    decreases bv.len(),
{
    if bv.len() > 0 {
        let pre = bv.drop_last();
        assert(unique_paths(pre)) by {
            assert(forall|i: int| 0 <= i < pre.len() ==> pre[i] == bv[i]);
        }
        lemma_missing_entries(pre, tv);
        let me0 = missing_entries(pre, tv);
        let me = missing_entries(bv, tv);
        assert forall|p: Seq<char>| #[trigger] snap_contains(pre, p) implies snap_contains(
            bv,
            p,
        ) by {
            let i = choose|i: int| 0 <= i < pre.len() && (#[trigger] pre[i]).path == p;
            assert(bv[i].path == p);
        }
        if !snap_contains(tv, bv.last().path) {
            assert(me[me.len() - 1].key() == bv.last().path);
            assert(!snap_contains(pre, bv.last().path)) by {
                if snap_contains(pre, bv.last().path) {
                    let i = choose|i: int|
                        0 <= i < pre.len() && (#[trigger] pre[i]).path == bv.last().path;
                    assert(bv[i].path == bv[bv.len() - 1].path);
                }
            }
        }
        assert forall|p: Seq<char>| #[trigger] snap_contains(bv, p) && !snap_contains(
            tv,
            p,
        ) implies exists|i: int|
            0 <= i < me.len() && (#[trigger] me[i]).key() == p by {
            let i = choose|i: int| 0 <= i < bv.len() && (#[trigger] bv[i]).path == p;
            if i < bv.len() - 1 {
                assert(pre[i].path == p);
                assert(snap_contains(pre, p));
                let j = choose|j: int| 0 <= j < me0.len() && (#[trigger] me0[j]).key() == p;
                assert(me[j].key() == p);
            } else {
                assert(me[me.len() - 1].key() == p);
            }
        }
    }
}

/// The comparison state is a well-formed current state for the baseline.
proof fn lemma_compare_state_wf(bv: Seq<FileDescriptionView>, tv: Seq<FileDescriptionView>)
    requires
        unique_paths(bv),
        unique_paths(tv),
    ensures
        wf_inputs(bv, compare_state(bv, tv)),
        forall|i: int|
            0 <= i < tv.len() ==> (#[trigger] compare_state(bv, tv)[i])
                == MaybeFileDescriptionView::FileDescription(tv[i]),
{
    lemma_missing_entries(bv, tv);
    let me = missing_entries(bv, tv);
    let cs = compare_state(bv, tv);
    let pres = tv.map_values(
        |d: FileDescriptionView| MaybeFileDescriptionView::FileDescription(d),
    );
    assert(pres.len() == tv.len());
    assert forall|i: int| 0 <= i < tv.len() implies (#[trigger] cs[i])
        == MaybeFileDescriptionView::FileDescription(tv[i]) by {
        assert(pres[i] == MaybeFileDescriptionView::FileDescription(tv[i]));
    }
    assert forall|i: int| tv.len() <= i < cs.len() implies (#[trigger] cs[i]) == me[i - tv.len()] by {}
    assert(unique_keys(cs)) by {
        assert forall|i: int, j: int| 0 <= i < j < cs.len() implies (#[trigger] cs[i]).key() != (
        #[trigger] cs[j]).key() by {
            if j < tv.len() {
                assert(cs[i].key() == tv[i].path && cs[j].key() == tv[j].path);
            } else if i < tv.len() {
                assert(cs[i].key() == tv[i].path);
                assert(cs[j] == me[j - tv.len()]);
                if cs[j].key() == tv[i].path {
                    assert(snap_contains(tv, tv[i].path)) by {
                        assert(tv[i].path == tv[i].path);
                    }
                }
            } else {
                assert(cs[i] == me[i - tv.len()] && cs[j] == me[j - tv.len()]);
            }
        }
    }
    assert forall|p: Seq<char>| #[trigger] cur_absent(cs, p) implies snap_contains(bv, p) by {
        let i = choose|i: int| 0 <= i < cs.len() && (#[trigger] cs[i]).key() == p;
        lemma_cur_at(cs, i);
        if i < tv.len() {
            assert(cs[i] == MaybeFileDescriptionView::FileDescription(tv[i]));
        } else {
            assert(cs[i] == me[i - tv.len()]);
        }
    }
    assert forall|i: int| 0 <= i < bv.len() implies cur_contains(
        cs,
        (#[trigger] bv[i]).path,
    ) by {
        let p = bv[i].path;
        assert(snap_contains(bv, p));
        if snap_contains(tv, p) {
            let j = choose|j: int| 0 <= j < tv.len() && (#[trigger] tv[j]).path == p;
            assert(cs[j].key() == p);
        } else {
            let j = choose|j: int| 0 <= j < me.len() && (#[trigger] me[j]).key() == p;
            assert(cs[j + tv.len()].key() == p);
        }
    }
}

/// Compares two snapshots: every target record counts as present, every
/// baseline path the target lacks counts as absent, and the two sides are
/// reconciled.
pub fn compare(baseline: &Vec<FileDescription>, target: &Vec<FileDescription>) -> (r:
    crate::summary::ChangeSummary)
    requires
        unique_paths(snap_view(baseline@)),
        unique_paths(snap_view(target@)),
    ensures
        is_reconciliation(
            snap_view(baseline@),
            compare_state(snap_view(baseline@), snap_view(target@)),
            r@,
        ),
{
    let ghost bv = snap_view(baseline@);
    let ghost tv = snap_view(target@);
    let mut current: Vec<MaybeFileDescription> = Vec::new();
    let tn = target.len();
    let mut i: usize = 0;
    proof {
        assert(cur_view(current@) =~= tv.map_values(
            |d: FileDescriptionView| MaybeFileDescriptionView::FileDescription(d),
        ).take(0));
    }
    while i < tn
        invariant
            0 <= i <= tn,
            tn == target@.len(),
            tv == snap_view(target@),
            current@.len() == i,
            cur_view(current@) == tv.map_values(
                |d: FileDescriptionView| MaybeFileDescriptionView::FileDescription(d),
            ).take(i as int),
        decreases tn - i,
    {
        current.push(MaybeFileDescription::FileDescription(target[i].duplicate()));
        proof {
            assert(cur_view(current@) =~= tv.map_values(
                |d: FileDescriptionView| MaybeFileDescriptionView::FileDescription(d),
            ).take(i as int + 1));
        }
        i = i + 1;
    }
    let ghost pres = tv.map_values(
        |d: FileDescriptionView| MaybeFileDescriptionView::FileDescription(d),
    );
    proof {
        assert(pres.take(tn as int) =~= pres);
        assert(missing_entries(bv.take(0), tv) =~= Seq::<MaybeFileDescriptionView>::empty());
        assert(cur_view(current@) =~= pres + missing_entries(bv.take(0), tv));
    }
    let bn = baseline.len();
    let mut j: usize = 0;
    while j < bn
        invariant
            0 <= j <= bn,
            bn == baseline@.len(),
            bv == snap_view(baseline@),
            tv == snap_view(target@),
            pres == tv.map_values(
                |d: FileDescriptionView| MaybeFileDescriptionView::FileDescription(d),
            ),
            cur_view(current@) == pres + missing_entries(bv.take(j as int), tv),
        decreases bn - j,
    {
        proof {
            assert(bv[j as int] == baseline@[j as int]@);
            assert(bv.take(j as int + 1).drop_last() =~= bv.take(j as int));
            assert(bv.take(j as int + 1).last() == bv[j as int]);
        }
        match snapshot_find(target, &baseline[j].path) {
            Some(_) => {
                proof {
                    assert(missing_entries(bv.take(j as int + 1), tv) =~= missing_entries(
                        bv.take(j as int),
                        tv,
                    ));
                }
            },
            None => {
                let ghost prev = current@;
                current.push(
                    MaybeFileDescription::MissingFile(
                        crate::records::MissingFile { path: baseline[j].path.clone() },
                    ),
                );
                proof {
                    let entry = MaybeFileDescriptionView::MissingFile(bv[j as int].path);
                    assert(cur_view(current@) =~= cur_view(prev).push(entry));
                    assert(missing_entries(bv.take(j as int + 1), tv) =~= missing_entries(
                        bv.take(j as int),
                        tv,
                    ).push(entry));
                    assert(pres + missing_entries(bv.take(j as int + 1), tv) =~= (pres
                        + missing_entries(bv.take(j as int), tv)).push(entry));
                }
            },
        }
        j = j + 1;
    }
    proof {
        assert(bv.take(bn as int) =~= bv);
        lemma_compare_state_wf(bv, tv);
        assert(cur_view(current@) == compare_state(bv, tv));
    }
    describe_differences(baseline, &current)
}

/// The paths an audit probes: every snapshot path, in snapshot order, then
/// every walked path not already listed, in walk order, each path once.
pub open spec fn spec_paths_to_probe(
    walked: Seq<Seq<char>>,
    acc: Seq<Seq<char>>,
) -> Seq<Seq<char>>
    decreases walked.len(),
{
    if walked.len() == 0 {
        acc
    } else {
        spec_paths_to_probe(
            walked.drop_first(),
            if acc.contains(walked.first()) {
                acc
            } else {
                acc.push(walked.first())
            },
        )
    }
}

/// The paths of a snapshot, in order.
pub open spec fn snap_paths(e: Seq<FileDescriptionView>) -> Seq<Seq<char>> {
    e.map_values(|d: FileDescriptionView| d.path)
}

/// Whether some element of `v` holds the text `x`.
fn contains_string(v: &Vec<String>, x: &String) -> (r: bool)
    ensures
        r == view_seq(v@).contains(x@),
{
    broadcast use crate::sorting::lemma_view_seq_len;
    broadcast use crate::sorting::lemma_view_seq_index;

    let n = v.len();
    let mut i: usize = 0;
    while i < n
        invariant
            0 <= i <= n,
            n == v@.len(),
            forall|k: int| 0 <= k < i ==> view_seq(v@)[k] != x@,
        decreases n - i,
    {
        if v[i] == *x {
            proof {
                assert(view_seq(v@)[i as int] == x@);
            }
            return true;
        }
        i = i + 1;
    }
    false
}

/// Collects the union of the snapshot's paths and the walked paths,
/// deduplicated, so that an audit probes each path of interest exactly once:
/// snapshot paths first, then walked paths not already listed.
pub fn paths_to_probe(expected: &Vec<FileDescription>, walked: &Vec<String>) -> (r: Vec<String>)
    requires
        unique_paths(snap_view(expected@)),
    ensures
        view_seq(r@) == spec_paths_to_probe(view_seq(walked@), snap_paths(snap_view(expected@))),
        forall|p: Seq<char>| #[trigger] view_seq(r@).contains(p) <==> snap_contains(
            snap_view(expected@),
            p,
        ) || view_seq(walked@).contains(p),
        forall|a: int, b: int| 0 <= a < b < r@.len() ==> view_seq(r@)[a] != view_seq(r@)[b],
{
    broadcast use crate::sorting::lemma_view_seq_len;
    broadcast use crate::sorting::lemma_view_seq_index;

    let ghost ev = snap_view(expected@);
    let ghost wv = view_seq(walked@);
    let mut r: Vec<String> = Vec::new();
    let en = expected.len();
    let mut i: usize = 0;
    proof {
        assert(view_seq(r@) =~= snap_paths(ev).take(0));
    }
    while i < en
        invariant
            0 <= i <= en,
            en == expected@.len(),
            ev == snap_view(expected@),
            r@.len() == i,
            view_seq(r@) == snap_paths(ev).take(i as int),
        decreases en - i,
    {
        r.push(expected[i].path.clone());
        proof {
            assert(ev[i as int] == expected@[i as int]@);
            assert(view_seq(r@) =~= snap_paths(ev).take(i as int + 1));
        }
        i = i + 1;
    }
    proof {
        assert(snap_paths(ev).take(en as int) =~= snap_paths(ev));
        assert forall|p: Seq<char>| #[trigger] view_seq(r@).contains(p) implies snap_contains(
            ev,
            p,
        ) by {
            let a = choose|a: int| 0 <= a < view_seq(r@).len() && view_seq(r@)[a] == p;
            assert(snap_paths(ev)[a] == ev[a].path);
        }
        assert forall|p: Seq<char>| #[trigger] snap_contains(ev, p) implies view_seq(
            r@,
        ).contains(p) by {
            let a = choose|a: int| 0 <= a < ev.len() && (#[trigger] ev[a]).path == p;
            assert(view_seq(r@)[a] == snap_paths(ev)[a]);
            assert(view_seq(r@)[a] == p);
        }
        assert forall|a: int, b: int| 0 <= a < b < r@.len() implies view_seq(r@)[a] != view_seq(
            r@,
        )[b] by {
            assert(view_seq(r@)[a] == ev[a].path && view_seq(r@)[b] == ev[b].path);
        }
    }
    let wn = walked.len();
    let mut j: usize = 0;
    proof {
        assert(wv.skip(0) =~= wv);
    }
    while j < wn
        invariant
            0 <= j <= wn,
            wn == walked@.len(),
            ev == snap_view(expected@),
            wv == view_seq(walked@),
            spec_paths_to_probe(wv.skip(j as int), view_seq(r@)) == spec_paths_to_probe(
                wv,
                snap_paths(ev),
            ),
            forall|p: Seq<char>| #[trigger] view_seq(r@).contains(p) <==> snap_contains(ev, p) || (
            exists|a: int| 0 <= a < j && wv[a] == p),
            forall|a: int, b: int| 0 <= a < b < r@.len() ==> view_seq(r@)[a] != view_seq(r@)[b],
        decreases wn - j,
    {
        proof {
            assert(wv[j as int] == walked@[j as int]@);
            assert(wv.skip(j as int).first() == wv[j as int]);
            assert(wv.skip(j as int).drop_first() =~= wv.skip(j as int + 1));
        }
        let found = contains_string(&r, &walked[j]);
        if !found {
            let ghost pre = r@;
            r.push(walked[j].clone());
            proof {
                assert(view_seq(r@) =~= view_seq(pre).push(wv[j as int]));
                assert(!view_seq(pre).contains(wv[j as int]));
                assert forall|p: Seq<char>| #[trigger] view_seq(r@).contains(p) implies (view_seq(
                    pre,
                ).contains(p) || p == wv[j as int]) by {
                    crate::sorting::lemma_push_contains(view_seq(pre), wv[j as int], p);
                }
                assert forall|p: Seq<char>|
                    view_seq(pre).contains(p) || p == wv[j as int] implies #[trigger] view_seq(
                    r@,
                ).contains(p) by {
                    crate::sorting::lemma_push_contains(view_seq(pre), wv[j as int], p);
                }
            }
        } else {
            proof {
                assert(view_seq(r@).contains(wv[j as int]));
            }
        }
        j = j + 1;
    }
    proof {
        assert(wv.skip(wn as int) =~= Seq::<Seq<char>>::empty());
        assert forall|p: Seq<char>| #[trigger] view_seq(r@).contains(p) implies (snap_contains(
            ev,
            p,
        ) || wv.contains(p)) by {
            if !snap_contains(ev, p) {
                let a = choose|a: int| 0 <= a < wn && wv[a] == p;
                assert(wv[a] == p);
            }
        }
        assert forall|p: Seq<char>| wv.contains(p) implies #[trigger] view_seq(r@).contains(
            p,
        ) by {
            let a = choose|a: int| 0 <= a < wv.len() && wv[a] == p;
        }
    }
    r
}

/// Pushing a fresh added record onto the accumulator extends its
/// characterization by exactly the record of the path processed.
proof fn lemma_added_membership_after_push(
    e: Seq<FileDescriptionView>,
    c: Seq<MaybeFileDescriptionView>,
    unexp: Seq<FileDescriptionView>,
    pre: Seq<FileDescriptionView>,
    u: int,
    x_new: FileDescriptionView,
)
    requires
        0 <= u < unexp.len(),
        unexp[u] == x_new,
        is_added_entry(e, c, x_new),
        cur_record(c, x_new.path) == x_new,
        forall|x: FileDescriptionView| #[trigger] pre.contains(x) <==> ((exists|a: int|
            0 <= a < u && unexp[a].path == x.path) && is_added_entry(e, c, x)),
    ensures
        forall|x: FileDescriptionView| #[trigger] pre.push(x_new).contains(x) <==> ((exists|a: int|
            0 <= a < u + 1 && unexp[a].path == x.path) && is_added_entry(e, c, x)),
{
    assert forall|x: FileDescriptionView| #[trigger] pre.push(x_new).contains(x) <==> ((exists|
        a: int,
    |
        0 <= a < u + 1 && unexp[a].path == x.path) && is_added_entry(e, c, x)) by {
        crate::sorting::lemma_push_contains(pre, x_new, x);
        if pre.push(x_new).contains(x) && x == x_new {
            assert(unexp[u].path == x.path);
        }
        if (exists|a: int| 0 <= a < u + 1 && unexp[a].path == x.path) && is_added_entry(e, c, x) {
            let a = choose|a: int| 0 <= a < u + 1 && unexp[a].path == x.path;
            if a == u {
                assert(x == cur_record(c, x.path));
                assert(x == x_new);
            }
        }
    }
}

/// Processing a path that yields no copy leaves the copied accumulator's
/// characterization intact.
proof fn lemma_copied_membership_skip(
    e: Seq<FileDescriptionView>,
    c: Seq<MaybeFileDescriptionView>,
    unexp: Seq<FileDescriptionView>,
    cop: Seq<CopiedFileView>,
    u: int,
)
    requires
        0 <= u < unexp.len(),
        cur_record(c, unexp[u].path) == unexp[u],
        !(exists|q: Seq<char>|
            is_min_expected_with(e, unexp[u].content, q) && cur_present(c, q)),
        forall|x: CopiedFileView| #[trigger] cop.contains(x) <==> ((exists|a: int|
            0 <= a < u && unexp[a].path == x.new) && is_copied_entry(e, c, x)),
    ensures
        forall|x: CopiedFileView| #[trigger] cop.contains(x) <==> ((exists|a: int|
            0 <= a < u + 1 && unexp[a].path == x.new) && is_copied_entry(e, c, x)),
{
    assert forall|x: CopiedFileView| #[trigger] cop.contains(x) <==> ((exists|a: int|
        0 <= a < u + 1 && unexp[a].path == x.new) && is_copied_entry(e, c, x)) by {
        if (exists|a: int| 0 <= a < u + 1 && unexp[a].path == x.new) && is_copied_entry(e, c, x) {
            let a = choose|a: int| 0 <= a < u + 1 && unexp[a].path == x.new;
            if a == u {
                assert(cur_record(c, x.new) == unexp[u]);
                assert(is_min_expected_with(e, unexp[u].content, x.old) && cur_present(c, x.old));
            }
        }
    }
}

/// The sorted collections, as views, are sorted with pairwise distinct keys.
proof fn lemma_sorted_views(
    e: Seq<FileDescriptionView>,
    c: Seq<MaybeFileDescriptionView>,
    changed_pre: Seq<crate::records::ChangedFile>,
    copied_pre: Seq<crate::records::CopiedFile>,
    moved_pre: Seq<crate::records::MovedFile>,
    deleted_pre: Seq<crate::records::MissingFile>,
    added_pre: Seq<FileDescription>,
    changed_s: Seq<crate::records::ChangedFile>,
    copied_s: Seq<crate::records::CopiedFile>,
    moved_s: Seq<crate::records::MovedFile>,
    deleted_s: Seq<crate::records::MissingFile>,
    added_s: Seq<FileDescription>,
)
    requires
        changed_pre.to_multiset() == changed_s.to_multiset(),
        copied_pre.to_multiset() == copied_s.to_multiset(),
        moved_pre.to_multiset() == moved_s.to_multiset(),
        deleted_pre.to_multiset() == deleted_s.to_multiset(),
        added_pre.to_multiset() == added_s.to_multiset(),
        crate::sorting::sorted_entries(changed_s),
        crate::sorting::sorted_entries(copied_s),
        crate::sorting::sorted_entries(moved_s),
        crate::sorting::sorted_entries(deleted_s),
        crate::sorting::sorted_entries(added_s),
        forall|a: int, b: int|
            0 <= a < b < changed_pre.len() ==> view_seq(changed_pre)[a].path != view_seq(
                changed_pre,
            )[b].path,
        forall|a: int, b: int|
            0 <= a < b < copied_pre.len() ==> view_seq(copied_pre)[a].new != view_seq(
                copied_pre,
            )[b].new,
        forall|a: int, b: int|
            0 <= a < b < moved_pre.len() ==> view_seq(moved_pre)[a].old != view_seq(
                moved_pre,
            )[b].old,
        forall|a: int, b: int|
            0 <= a < b < deleted_pre.len() ==> view_seq(deleted_pre)[a].path != view_seq(
                deleted_pre,
            )[b].path,
        forall|a: int, b: int|
            0 <= a < b < added_pre.len() ==> view_seq(added_pre)[a].path != view_seq(
                added_pre,
            )[b].path,
    ensures
        sorted_distinct(view_seq(changed_s), |x: ChangedFileView| changed_key(x)),
        sorted_distinct(view_seq(copied_s), |x: CopiedFileView| copied_key(x)),
        sorted_distinct(view_seq(moved_s), |x: MovedFileView| moved_key(x)),
        sorted_distinct(view_seq(deleted_s), |x: MissingFileView| deleted_key(x)),
        sorted_distinct(view_seq(added_s), |x: FileDescriptionView| added_key(x)),
{
    assert forall|i: int| 0 <= i < changed_pre.len() implies view_seq(changed_pre)[i]
        == changed_pre[i]@ by {}
    assert forall|i: int| 0 <= i < copied_pre.len() implies view_seq(copied_pre)[i]
        == copied_pre[i]@ by {}
    assert forall|i: int| 0 <= i < moved_pre.len() implies view_seq(moved_pre)[i]
        == moved_pre[i]@ by {}
    assert forall|i: int| 0 <= i < deleted_pre.len() implies view_seq(deleted_pre)[i]
        == deleted_pre[i]@ by {}
    assert forall|i: int| 0 <= i < added_pre.len() implies view_seq(added_pre)[i]
        == added_pre[i]@ by {}
    assert forall|i: int, j: int| 0 <= i < j < changed_pre.len() implies changed_key(
        #[trigger] changed_pre[i]@,
    ) != changed_key(#[trigger] changed_pre[j]@) by {
        assert(view_seq(changed_pre)[i] == changed_pre[i]@);
        assert(view_seq(changed_pre)[j] == changed_pre[j]@);
    }
    assert forall|i: int, j: int| 0 <= i < j < copied_pre.len() implies copied_key(
        #[trigger] copied_pre[i]@,
    ) != copied_key(#[trigger] copied_pre[j]@) by {
        assert(view_seq(copied_pre)[i] == copied_pre[i]@);
        assert(view_seq(copied_pre)[j] == copied_pre[j]@);
        assert(copied_pre[i]@.new != copied_pre[j]@.new);
    }
    assert forall|i: int, j: int| 0 <= i < j < moved_pre.len() implies moved_key(
        #[trigger] moved_pre[i]@,
    ) != moved_key(#[trigger] moved_pre[j]@) by {
        assert(view_seq(moved_pre)[i] == moved_pre[i]@);
        assert(view_seq(moved_pre)[j] == moved_pre[j]@);
        assert(moved_pre[i]@.old != moved_pre[j]@.old);
    }
    assert forall|i: int, j: int| 0 <= i < j < deleted_pre.len() implies deleted_key(
        #[trigger] deleted_pre[i]@,
    ) != deleted_key(#[trigger] deleted_pre[j]@) by {
        assert(view_seq(deleted_pre)[i] == deleted_pre[i]@);
        assert(view_seq(deleted_pre)[j] == deleted_pre[j]@);
    }
    assert forall|i: int, j: int| 0 <= i < j < added_pre.len() implies added_key(
        #[trigger] added_pre[i]@,
    ) != added_key(#[trigger] added_pre[j]@) by {
        assert(view_seq(added_pre)[i] == added_pre[i]@);
        assert(view_seq(added_pre)[j] == added_pre[j]@);
    }
    crate::sorting::lemma_permutation_distinct_keys(
        changed_pre,
        changed_s,
        |t: crate::records::ChangedFile| changed_key(t@),
    );
    crate::sorting::lemma_permutation_distinct_keys(
        copied_pre,
        copied_s,
        |t: crate::records::CopiedFile| copied_key(t@),
    );
    crate::sorting::lemma_permutation_distinct_keys(
        moved_pre,
        moved_s,
        |t: crate::records::MovedFile| moved_key(t@),
    );
    crate::sorting::lemma_permutation_distinct_keys(
        deleted_pre,
        deleted_s,
        |t: crate::records::MissingFile| deleted_key(t@),
    );
    crate::sorting::lemma_permutation_distinct_keys(
        added_pre,
        added_s,
        |t: FileDescription| added_key(t@),
    );
    assert forall|i: int| 0 <= i < changed_s.len() implies view_seq(changed_s)[i]
        == changed_s[i]@ by {}
    assert forall|i: int| 0 <= i < copied_s.len() implies view_seq(copied_s)[i]
        == copied_s[i]@ by {}
    assert forall|i: int| 0 <= i < moved_s.len() implies view_seq(moved_s)[i] == moved_s[i]@ by {}
    assert forall|i: int| 0 <= i < deleted_s.len() implies view_seq(deleted_s)[i]
        == deleted_s[i]@ by {}
    assert forall|i: int| 0 <= i < added_s.len() implies view_seq(added_s)[i] == added_s[i]@ by {}
}

} // verus!
