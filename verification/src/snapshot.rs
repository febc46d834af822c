//! Snapshot loading: parsing reference files line by line into a mapping
//! from path to file record, later files overriding earlier ones on a path
//! collision, and the first bad line aborting the whole load.

use vstd::prelude::*;

use crate::diff::{snap_at, snap_contains, snap_view, unique_paths};
use crate::records::{FileDescription, FileDescriptionView, ParseError, ParseErrorView,
    spec_parse_line};
use crate::sorting::view_seq;

verus! {

/// One reference file to load: its lines, and the directory relative paths
/// resolve against (the file's parent directory).
#[derive(Debug, Eq, PartialEq, Clone)]
pub struct SnapshotSource {
    pub base_dir: String,
    pub lines: Vec<String>,
}

/// The mathematical value of a [`SnapshotSource`].
pub struct SnapshotSourceView {
    pub base_dir: Seq<char>,
    pub lines: Seq<Seq<char>>,
}

impl View for SnapshotSource {
    type V = SnapshotSourceView;

    open spec fn view(&self) -> SnapshotSourceView {
        SnapshotSourceView { base_dir: self.base_dir@, lines: view_seq(self.lines@) }
    }
}

/// The index of the record for path `p`.
pub open spec fn index_of_path(s: Seq<FileDescriptionView>, p: Seq<char>) -> int {
    choose|i: int| 0 <= i < s.len() && (#[trigger] s[i]).path == p
}

/// Inserting a record into a snapshot: it replaces the record of the same
/// path if there is one, else it is appended.
pub open spec fn spec_upsert(s: Seq<FileDescriptionView>, d: FileDescriptionView) -> Seq<
    FileDescriptionView,
> {
    if snap_contains(s, d.path) {
        s.update(index_of_path(s, d.path), d)
    } else {
        s.push(d)
    }
}

/// How an upsert changes a snapshot: the new record's path maps to it, every
/// other path keeps its record, and uniqueness is preserved.
pub proof fn lemma_upsert(s: Seq<FileDescriptionView>, d: FileDescriptionView)
    requires
        unique_paths(s),
    ensures
        unique_paths(spec_upsert(s, d)),
        snap_contains(spec_upsert(s, d), d.path),
        snap_at(spec_upsert(s, d), d.path) == d,
        forall|p: Seq<char>|
            p != d.path ==> #[trigger] snap_contains(spec_upsert(s, d), p) == snap_contains(s, p),
        forall|p: Seq<char>|
            p != d.path && snap_contains(s, p) ==> #[trigger] snap_at(spec_upsert(s, d), p)
                == snap_at(s, p),
{
    let t = spec_upsert(s, d);
    if snap_contains(s, d.path) {
        let i = index_of_path(s, d.path);
        assert(0 <= i < s.len() && s[i].path == d.path);
        assert(unique_paths(t)) by {
            assert(forall|a: int| 0 <= a < t.len() && a != i ==> t[a] == s[a]);
        }
        assert(t[i] == d);
        crate::diff::lemma_snap_at(t, i);
        assert forall|p: Seq<char>| p != d.path implies #[trigger] snap_contains(t, p)
            == snap_contains(s, p) by {
            if snap_contains(t, p) {
                let a = choose|a: int| 0 <= a < t.len() && (#[trigger] t[a]).path == p;
                assert(a != i);
                assert(s[a].path == p);
            }
            if snap_contains(s, p) {
                let a = choose|a: int| 0 <= a < s.len() && (#[trigger] s[a]).path == p;
                assert(a != i);
                assert(t[a].path == p);
            }
        }
        assert forall|p: Seq<char>| p != d.path && snap_contains(s, p) implies #[trigger] snap_at(
            t,
            p,
        ) == snap_at(s, p) by {
            let a = choose|a: int| 0 <= a < s.len() && (#[trigger] s[a]).path == p;
            crate::diff::lemma_snap_at(s, a);
            assert(a != i);
            assert(t[a] == s[a]);
            crate::diff::lemma_snap_at(t, a);
        }
    } else {
        assert(unique_paths(t)) by {
            assert(forall|a: int| 0 <= a < s.len() ==> t[a] == s[a]);
            assert(t[t.len() - 1] == d);
            assert forall|a: int, b: int| 0 <= a < b < t.len() implies t[a].path != t[b].path by {
                if b == t.len() - 1 {
                    if t[a].path == d.path {
                        assert(snap_contains(s, d.path));
                    }
                }
            }
        }
        assert(t[t.len() - 1] == d);
        crate::diff::lemma_snap_at(t, t.len() - 1);
        assert forall|p: Seq<char>| p != d.path implies #[trigger] snap_contains(t, p)
            == snap_contains(s, p) by {
            if snap_contains(t, p) {
                let a = choose|a: int| 0 <= a < t.len() && (#[trigger] t[a]).path == p;
                assert(a != t.len() - 1);
                assert(s[a].path == p);
            }
            if snap_contains(s, p) {
                let a = choose|a: int| 0 <= a < s.len() && (#[trigger] s[a]).path == p;
                assert(t[a].path == p);
            }
        }
        assert forall|p: Seq<char>| p != d.path && snap_contains(s, p) implies #[trigger] snap_at(
            t,
            p,
        ) == snap_at(s, p) by {
            let a = choose|a: int| 0 <= a < s.len() && (#[trigger] s[a]).path == p;
            crate::diff::lemma_snap_at(s, a);
            assert(t[a] == s[a]);
            crate::diff::lemma_snap_at(t, a);
        }
    }
}

/// Folds the lines of one reference file into the accumulated snapshot,
/// stopping at the first line that does not parse.
pub open spec fn spec_load_lines(
    lines: Seq<Seq<char>>,
    base: Seq<char>,
    acc: Seq<FileDescriptionView>,
) -> Result<Seq<FileDescriptionView>, ParseErrorView>
    decreases lines.len(),
{
    if lines.len() == 0 {
        Ok(acc)
    } else {
        match spec_parse_line(lines.first(), base) {
            Err(e) => Err(e),
            Ok(d) => spec_load_lines(lines.drop_first(), base, spec_upsert(acc, d)),
        }
    }
}

/// Folds a list of reference files into the accumulated snapshot, in order.
pub open spec fn spec_load(
    sources: Seq<SnapshotSourceView>,
    acc: Seq<FileDescriptionView>,
) -> Result<Seq<FileDescriptionView>, ParseErrorView>
    decreases sources.len(),
{
    if sources.len() == 0 {
        Ok(acc)
    } else {
        match spec_load_lines(sources.first().lines, sources.first().base_dir, acc) {
            Err(e) => Err(e),
            Ok(m) => spec_load(sources.drop_first(), m),
        }
    }
}

/// What loading a list of reference files yields: the merged snapshot, later
/// files winning on a path collision, or the first parse error.
pub open spec fn spec_load_descriptions(sources: Seq<SnapshotSourceView>) -> Result<
    Seq<FileDescriptionView>,
    ParseErrorView,
> {
    spec_load(sources, Seq::empty())
}

/// Loading lines preserves path uniqueness.
pub proof fn lemma_load_lines_unique(
    lines: Seq<Seq<char>>,
    base: Seq<char>,
    acc: Seq<FileDescriptionView>,
)
    requires
        unique_paths(acc),
    ensures
        spec_load_lines(lines, base, acc) matches Ok(m) ==> unique_paths(m),
    decreases lines.len(),
{
    if lines.len() > 0 {
        match spec_parse_line(lines.first(), base) {
            Err(_) => {},
            Ok(d) => {
                lemma_upsert(acc, d);
                lemma_load_lines_unique(lines.drop_first(), base, spec_upsert(acc, d));
            },
        }
    }
}

/// Loading preserves path uniqueness.
pub proof fn lemma_load_unique(sources: Seq<SnapshotSourceView>, acc: Seq<FileDescriptionView>)
    requires
        unique_paths(acc),
    ensures
        spec_load(sources, acc) matches Ok(m) ==> unique_paths(m),
    decreases sources.len(),
{
    if sources.len() > 0 {
        match spec_load_lines(sources.first().lines, sources.first().base_dir, acc) {
            Err(_) => {},
            Ok(m) => {
                lemma_load_lines_unique(sources.first().lines, sources.first().base_dir, acc);
                lemma_load_unique(sources.drop_first(), m);
            },
        }
    }
}

/// Whether some line of the file parses to a record for path `x`.
pub open spec fn line_defines(l: Seq<Seq<char>>, b: Seq<char>, x: Seq<char>) -> bool {
    exists|i: int|
        0 <= i < l.len() && (#[trigger] spec_parse_line(l[i], b)) is Ok && spec_parse_line(
            l[i],
            b,
        )->Ok_0.path == x
}

/// Loading the same lines over two different accumulated snapshots fails
/// identically, and yields, for any path one of the lines defines, the same
/// record: the lines alone decide the paths they mention.
proof fn lemma_load_lines_acc(
    l: Seq<Seq<char>>,
    b: Seq<char>,
    acc1: Seq<FileDescriptionView>,
    acc2: Seq<FileDescriptionView>,
    x: Seq<char>,
)
    requires
        unique_paths(acc1),
        unique_paths(acc2),
    ensures
        (spec_load_lines(l, b, acc1) is Ok) == (spec_load_lines(l, b, acc2) is Ok),
        spec_load_lines(l, b, acc1) is Err ==> spec_load_lines(l, b, acc1) == spec_load_lines(
            l,
            b,
            acc2,
        ),
        spec_load_lines(l, b, acc1) is Ok && line_defines(l, b, x) ==> {
            let m1 = spec_load_lines(l, b, acc1)->Ok_0;
            let m2 = spec_load_lines(l, b, acc2)->Ok_0;
            snap_contains(m1, x) && snap_contains(m2, x) && snap_at(m1, x) == snap_at(m2, x)
        },
        spec_load_lines(l, b, acc1) is Ok && !line_defines(l, b, x) ==> {
            let m1 = spec_load_lines(l, b, acc1)->Ok_0;
            let m2 = spec_load_lines(l, b, acc2)->Ok_0;
            &&& snap_contains(m1, x) == snap_contains(acc1, x)
            &&& snap_contains(m2, x) == snap_contains(acc2, x)
            &&& (snap_contains(acc1, x) ==> snap_at(m1, x) == snap_at(acc1, x))
            &&& (snap_contains(acc2, x) ==> snap_at(m2, x) == snap_at(acc2, x))
        },
    decreases l.len(),
{
    if l.len() == 0 {
        if line_defines(l, b, x) {
            let i = choose|i: int|
                0 <= i < l.len() && (#[trigger] spec_parse_line(l[i], b)) is Ok && spec_parse_line(
                    l[i],
                    b,
                )->Ok_0.path == x;
        }
    } else {
        let rest = l.drop_first();
        match spec_parse_line(l.first(), b) {
            Err(_) => {
                if line_defines(l, b, x) && spec_load_lines(l, b, acc1) is Ok {
                }
            },
            Ok(d) => {
                lemma_upsert(acc1, d);
                lemma_upsert(acc2, d);
                let u1 = spec_upsert(acc1, d);
                let u2 = spec_upsert(acc2, d);
                lemma_load_lines_acc(rest, b, u1, u2, x);
                assert(l[0] == l.first());
                assert(forall|i: int| 0 <= i < rest.len() ==> rest[i] == l[i + 1]);
                if line_defines(l, b, x) {
                    if d.path == x {
                        if !line_defines(rest, b, x) {
                            assert(snap_contains(u1, x) && snap_at(u1, x) == d);
                            assert(snap_contains(u2, x) && snap_at(u2, x) == d);
                        }
                    } else {
                        assert(line_defines(rest, b, x)) by {
                            let i = choose|i: int|
                                0 <= i < l.len() && (#[trigger] spec_parse_line(l[i], b)) is Ok
                                    && spec_parse_line(l[i], b)->Ok_0.path == x;
                            assert(i != 0);
                            assert(rest[i - 1] == l[i]);
                        }
                    }
                } else {
                    assert(!line_defines(rest, b, x)) by {
                        if line_defines(rest, b, x) {
                            let i = choose|i: int|
                                0 <= i < rest.len() && (#[trigger] spec_parse_line(rest[i], b))
                                    is Ok && spec_parse_line(rest[i], b)->Ok_0.path == x;
                            assert(rest[i] == l[i + 1]);
                            assert(spec_parse_line(l[i + 1], b) is Ok && spec_parse_line(
                                l[i + 1],
                                b,
                            )->Ok_0.path == x);
                        }
                    }
                    assert(d.path != x) by {
                        if d.path == x {
                            assert(spec_parse_line(l[0], b) is Ok && spec_parse_line(
                                l[0],
                                b,
                            )->Ok_0.path == x);
                        }
                    }
                }
            },
        }
    }
}

/// Merged snapshot override: loading two reference files in order, any path
/// the later file defines maps to the later file\'s record for it, whatever
/// the earlier file said.
pub proof fn lemma_merged_snapshot_override(
    a: SnapshotSourceView,
    b: SnapshotSourceView,
    x: Seq<char>,
)
    requires
        spec_load_descriptions(seq![a, b]) is Ok,
    ensures
        spec_load_descriptions(seq![b]) is Ok,
        snap_contains(spec_load_descriptions(seq![b])->Ok_0, x) ==> {
            let m = spec_load_descriptions(seq![a, b])->Ok_0;
            let mb = spec_load_descriptions(seq![b])->Ok_0;
            snap_contains(m, x) && snap_at(m, x) == snap_at(mb, x)
        },
{
    let s2 = seq![a, b];
    let s1 = seq![b];
    let empty = Seq::<FileDescriptionView>::empty();
    assert(s2.first() == a);
    assert(s2.drop_first() =~= s1);
    assert(s1.first() == b);
    assert(s1.drop_first() =~= Seq::<SnapshotSourceView>::empty());
    let ra = spec_load_lines(a.lines, a.base_dir, empty);
    assert(ra is Ok);
    let ma = ra->Ok_0;
    lemma_load_lines_unique(a.lines, a.base_dir, empty);
    lemma_load_lines_acc(b.lines, b.base_dir, ma, empty, x);
    let rb = spec_load_lines(b.lines, b.base_dir, ma);
    let rb0 = spec_load_lines(b.lines, b.base_dir, empty);
    assert(spec_load(s2, empty) == spec_load(s1, ma));
    assert(rb is Ok);
    let m = rb->Ok_0;
    assert(rb0 is Ok);
    let mb = rb0->Ok_0;
    assert(spec_load(s1.drop_first(), m) == Ok::<Seq<FileDescriptionView>, ParseErrorView>(m));
    assert(spec_load(s1.drop_first(), mb) == Ok::<Seq<FileDescriptionView>, ParseErrorView>(mb));
    assert(spec_load_descriptions(s1) == spec_load(s1.drop_first(), mb));
    assert(spec_load_descriptions(s2) == spec_load(s1.drop_first(), m));
    assert(spec_load_descriptions(s1)->Ok_0 == mb);
    assert(spec_load_descriptions(s2)->Ok_0 == m);
    if snap_contains(mb, x) {
        if !line_defines(b.lines, b.base_dir, x) {
            assert(snap_contains(mb, x) == snap_contains(empty, x));
            assert(!snap_contains(empty, x));
        }
    }
}

/// Loads reference files into one snapshot: each line parses into a record
/// keyed by its path, later records overriding earlier ones, the first bad
/// line failing the whole load.
pub fn load_descriptions(sources: &Vec<SnapshotSource>) -> (r: Result<
    Vec<FileDescription>,
    ParseError,
>)
    ensures
        r matches Ok(v) ==> spec_load_descriptions(view_seq(sources@)) == Ok::<
            Seq<FileDescriptionView>,
            ParseErrorView,
        >(snap_view(v@)) && unique_paths(snap_view(v@)),
        r matches Err(e) ==> spec_load_descriptions(view_seq(sources@)) == Err::<
            Seq<FileDescriptionView>,
            ParseErrorView,
        >(e@),
{
    let ghost sv = view_seq(sources@);
    let ghost goal = spec_load_descriptions(sv);
    let mut acc: Vec<FileDescription> = Vec::new();
    let n = sources.len();
    let mut si: usize = 0;
    proof {
        assert(snap_view(acc@) =~= Seq::<FileDescriptionView>::empty());
        assert(sv.skip(0) =~= sv);
    }
    while si < n
        invariant
            0 <= si <= n,
            n == sources@.len(),
            sv == view_seq(sources@),
            goal == spec_load_descriptions(sv),
            unique_paths(snap_view(acc@)),
            spec_load(sv.skip(si as int), snap_view(acc@)) == goal,
        decreases n - si,
    {
        let ghost srcv = sv[si as int];
        proof {
            assert(srcv == sources@[si as int]@);
        }
        let mlen = sources[si].lines.len();
        let mut li: usize = 0;
        proof {
            assert(srcv.lines.skip(0) =~= srcv.lines);
            assert(sv.skip(si as int).first() == srcv);
            assert(sv.skip(si as int).drop_first() =~= sv.skip(si as int + 1));
        }
        while li < mlen
            invariant
                0 <= li <= mlen,
                0 <= si < n,
                n == sources@.len(),
                mlen == sources@[si as int].lines@.len(),
                sv == view_seq(sources@),
                srcv == sv[si as int],
                srcv == sources@[si as int]@,
                goal == spec_load_descriptions(sv),
                unique_paths(snap_view(acc@)),
                (match spec_load_lines(srcv.lines.skip(li as int), srcv.base_dir, snap_view(acc@)) {
                    Err(e) => Err(e),
                    Ok(m) => spec_load(sv.skip(si as int + 1), m),
                }) == goal,
            decreases mlen - li,
        {
            let line = &sources[si].lines[li];
            proof {
                assert(srcv.lines[li as int] == sources@[si as int].lines@[li as int]@);
                assert(srcv.lines.skip(li as int).first() == srcv.lines[li as int]);
                assert(srcv.lines.skip(li as int).drop_first() =~= srcv.lines.skip(li as int + 1));
            }
            let d = match FileDescription::parse(line.as_str(), sources[si].base_dir.as_str()) {
                Ok(d) => d,
                Err(e) => {
                    return Err(e);
                },
            };
            proof {
                lemma_upsert(snap_view(acc@), d@);
            }
            let ghost pre = snap_view(acc@);
            match crate::diff::snapshot_find(&acc, &d.path) {
                Some(i) => {
                    proof {
                        assert(pre[i as int].path == d.path@);
                        assert(snap_contains(pre, d.path@));
                        let j = index_of_path(pre, d.path@);
                        if i as int != j {
                            assert(pre[i as int].path != pre[j].path);
                        }
                    }
                    let ghost dv = d@;
                    acc.remove(i);
                    acc.insert(i, d);
                    proof {
                        assert(snap_view(acc@) =~= spec_upsert(pre, dv));
                    }
                },
                None => {
                    let ghost dv = d@;
                    acc.push(d);
                    proof {
                        assert(snap_view(acc@) =~= spec_upsert(pre, dv));
                    }
                },
            }
            li = li + 1;
        }
        proof {
            assert(srcv.lines.skip(mlen as int) =~= Seq::<Seq<char>>::empty());
        }
        si = si + 1;
        proof {
            assert(sv.skip(si - 1).first() == srcv);
            assert(sv.skip(si - 1).drop_first() =~= sv.skip(si as int));
        }
    }
    proof {
        assert(sv.skip(n as int) =~= Seq::<SnapshotSourceView>::empty());
    }
    Ok(acc)
}

} // verus!
