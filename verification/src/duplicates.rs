//! Duplicate detection: grouping file records by content fingerprint and
//! reporting every fingerprint that two or more records share.
//!
//! The input may aggregate records from several snapshots without
//! deduplicating by path: the same path appearing in two snapshots counts
//! twice, on purpose — that finds duplication both within a directory and
//! across archived snapshots.

use vstd::prelude::*;

use crate::diff::snap_view;
use crate::paths::path_le;
use crate::records::{ContentDescription, ContentDescriptionView, FileDescription,
    FileDescriptionView};
use crate::sorting::{lemma_view_seq_index, lemma_view_seq_len, sort_entries, view_seq};

verus! {

/// A group of paths whose records share one content fingerprint.
#[derive(Debug, Eq, PartialEq, Clone)]
pub struct DuplicateGroup {
    pub content: ContentDescription,
    pub paths: Vec<String>,
}

/// The mathematical value of a [`DuplicateGroup`].
pub struct DuplicateGroupView {
    pub content: ContentDescriptionView,
    pub paths: Seq<Seq<char>>,
}

impl View for DuplicateGroup {
    type V = DuplicateGroupView;

    open spec fn view(&self) -> DuplicateGroupView {
        DuplicateGroupView { content: self.content@, paths: view_seq(self.paths@) }
    }
}

/// The paths of the records carrying content `f`, in input order, one entry
/// per record (a path occurring twice counts twice).
pub open spec fn paths_with(rs: Seq<FileDescriptionView>, f: ContentDescriptionView) -> Seq<
    Seq<char>,
>
    decreases rs.len(),
{
    if rs.len() == 0 {
        Seq::empty()
    } else {
        paths_with(rs.drop_last(), f) + if rs.last().content == f {
            seq![rs.last().path]
        } else {
            Seq::empty()
        }
    }
}

/// The distinct fingerprints of the records, in order of first occurrence.
pub open spec fn group_contents(rs: Seq<FileDescriptionView>) -> Seq<ContentDescriptionView>
    decreases rs.len(),
{
    if rs.len() == 0 {
        Seq::empty()
    } else {
        let pre = group_contents(rs.drop_last());
        if pre.contains(rs.last().content) {
            pre
        } else {
            pre.push(rs.last().content)
        }
    }
}

/// The fingerprints of `cs` that two or more records of `rs` carry, kept in
/// order.
pub open spec fn duplicate_contents(
    cs: Seq<ContentDescriptionView>,
    rs: Seq<FileDescriptionView>,
) -> Seq<ContentDescriptionView>
    decreases cs.len(),
{
    if cs.len() == 0 {
        Seq::empty()
    } else {
        duplicate_contents(cs.drop_last(), rs) + if paths_with(rs, cs.last()).len() >= 2 {
            seq![cs.last()]
        } else {
            Seq::empty()
        }
    }
}

/// Every fingerprint a record carries occurs in the group contents.
proof fn lemma_group_contents_complete(rs: Seq<FileDescriptionView>, i: int)
    requires
        0 <= i < rs.len(),
    ensures
        group_contents(rs).contains(rs[i].content),
    decreases rs.len(),
{
    let pre = group_contents(rs.drop_last());
    if i == rs.len() - 1 {
        if !pre.contains(rs.last().content) {
            assert(group_contents(rs).last() == rs.last().content);
        }
    } else {
        assert(rs.drop_last()[i] == rs[i]);
        lemma_group_contents_complete(rs.drop_last(), i);
        let j = choose|j: int| 0 <= j < pre.len() && pre[j] == rs[i].content;
        if !pre.contains(rs.last().content) {
            assert(group_contents(rs)[j] == pre[j]);
        }
    }
}

/// The group contents are pairwise distinct.
proof fn lemma_group_contents_distinct(rs: Seq<FileDescriptionView>)
    ensures
        forall|a: int, b: int|
            0 <= a < b < group_contents(rs).len() ==> group_contents(rs)[a] != group_contents(
                rs,
            )[b],
    decreases rs.len(),
{
    if rs.len() > 0 {
        lemma_group_contents_distinct(rs.drop_last());
        let pre = group_contents(rs.drop_last());
        if !pre.contains(rs.last().content) {
            let t = group_contents(rs);
            assert forall|a: int, b: int| 0 <= a < b < t.len() implies t[a] != t[b] by {
                if b == t.len() - 1 {
                    assert(t[a] == pre[a]);
                    assert(pre.contains(pre[a]));
                }
            }
        }
    }
}

/// Finds the group holding fingerprint `f`.
fn find_group(groups: &Vec<DuplicateGroup>, f: &ContentDescription) -> (r: Option<usize>)
    ensures
        r matches Some(i) ==> 0 <= i < groups@.len() && view_seq(groups@)[i as int].content == f@,
        r is None ==> forall|i: int|
            0 <= i < groups@.len() ==> view_seq(groups@)[i].content != f@,
{
    broadcast use lemma_view_seq_len;
    broadcast use lemma_view_seq_index;

    let n = groups.len();
    let mut i: usize = 0;
    while i < n
        invariant
            0 <= i <= n,
            n == groups@.len(),
            forall|j: int| 0 <= j < i ==> view_seq(groups@)[j].content != f@,
        decreases n - i,
    {
        if groups[i].content.same_content(f) {
            return Some(i);
        }
        i = i + 1;
    }
    None
}

/// Groups records by content fingerprint and returns every group of two or
/// more, the groups in order of the fingerprint's first occurrence, the
/// paths of each group sorted; a fingerprint carried by a single record
/// yields no group.
pub fn find_duplicates(records: &Vec<FileDescription>) -> (r: Vec<DuplicateGroup>)
    ensures
        view_seq(r@).map_values(|g: DuplicateGroupView| g.content) == duplicate_contents(
            group_contents(snap_view(records@)),
            snap_view(records@),
        ),
        forall|i: int|
            0 <= i < r@.len() ==> (#[trigger] view_seq(r@)[i]).paths.to_multiset() == paths_with(
                snap_view(records@),
                view_seq(r@)[i].content,
            ).to_multiset(),
        forall|i: int| 0 <= i < r@.len() ==> (#[trigger] view_seq(r@)[i]).paths.len() >= 2,
        forall|i: int, a: int, b: int|
            #![trigger view_seq(r@)[i].paths[a], view_seq(r@)[i].paths[b]]
            0 <= i < r@.len() && 0 <= a < b < view_seq(r@)[i].paths.len() ==> path_le(
                view_seq(r@)[i].paths[a],
                view_seq(r@)[i].paths[b],
            ),
{
    broadcast use lemma_view_seq_len;
    broadcast use lemma_view_seq_index;

    let ghost rv = snap_view(records@);
    let mut groups: Vec<DuplicateGroup> = Vec::new();
    let n = records.len();
    let mut k: usize = 0;
    proof {
        assert(rv.take(0) =~= Seq::<FileDescriptionView>::empty());
        assert(view_seq(groups@).map_values(|g: DuplicateGroupView| g.content) =~= group_contents(
            rv.take(0),
        ));
    }
    while k < n
        invariant
            0 <= k <= n,
            n == records@.len(),
            rv == snap_view(records@),
            view_seq(groups@).map_values(|g: DuplicateGroupView| g.content) == group_contents(
                rv.take(k as int),
            ),
            forall|gi: int|
                0 <= gi < groups@.len() ==> (#[trigger] view_seq(groups@)[gi]).paths == paths_with(
                    rv.take(k as int),
                    view_seq(groups@)[gi].content,
                ),
            forall|a: int, b: int|
                0 <= a < b < groups@.len() ==> view_seq(groups@)[a].content != view_seq(
                    groups@,
                )[b].content,
        decreases n - k,
    {
        let ghost pre = groups@;
        let ghost cs_pre = group_contents(rv.take(k as int));
        proof {
            assert(rv[k as int] == records@[k as int]@);
            assert(rv.take(k as int + 1).drop_last() =~= rv.take(k as int));
            assert(rv.take(k as int + 1).last() == rv[k as int]);
            assert forall|f: ContentDescriptionView| true implies paths_with(
                rv.take(k as int + 1),
                f,
            ) == paths_with(rv.take(k as int), f) + if rv[k as int].content == f {
                seq![rv[k as int].path]
            } else {
                Seq::<Seq<char>>::empty()
            } by {}
        }
        let d = &records[k];
        match find_group(&groups, &d.content) {
            Some(gi) => {
                proof {
                    assert(cs_pre.contains(d.content@)) by {
                        assert(view_seq(pre).map_values(|g: DuplicateGroupView| g.content)[gi as int]
                            == view_seq(pre)[gi as int].content);
                    }
                }
                let mut g = groups.remove(gi);
                g.paths.push(d.path.clone());
                groups.insert(gi, g);
                proof {
                    assert(groups@ =~= pre.update(gi as int, groups@[gi as int]));
                    assert(view_seq(groups@)[gi as int].paths =~= view_seq(pre)[gi as int].paths
                        + seq![d.path@]);
                    assert forall|j: int| 0 <= j < groups@.len() && j != gi implies view_seq(
                        groups@,
                    )[j] == view_seq(pre)[j] by {
                        assert(groups@[j] == pre[j]);
                    }
                    assert forall|j: int| 0 <= j < groups@.len() implies (#[trigger] view_seq(
                        groups@,
                    )[j]).content == view_seq(pre)[j].content by {
                        if j != gi {
                            assert(view_seq(groups@)[j] == view_seq(pre)[j]);
                        } else {
                            assert(view_seq(pre)[gi as int].content == d.content@);
                        }
                    }
                    assert forall|a: int, b: int|
                        0 <= a < b < groups@.len() implies view_seq(groups@)[a].content
                        != view_seq(groups@)[b].content by {
                        assert(view_seq(pre)[a].content != view_seq(pre)[b].content);
                    }
                    assert(view_seq(groups@).map_values(|g: DuplicateGroupView| g.content)
                        =~= group_contents(rv.take(k as int + 1)));
                    assert forall|j: int| 0 <= j < groups@.len() implies (#[trigger] view_seq(
                        groups@,
                    )[j]).paths == paths_with(rv.take(k as int + 1), view_seq(groups@)[j].content)
                        by {
                        if j == gi {
                            assert(view_seq(groups@)[j].content == d.content@);
                            assert(paths_with(rv.take(k as int + 1), d.content@) == paths_with(
                                rv.take(k as int),
                                d.content@,
                            ) + seq![d.path@]);
                        } else {
                            assert(view_seq(groups@)[j] == view_seq(pre)[j]);
                            assert(view_seq(pre)[gi as int].content == d.content@);
                            if j < gi {
                                assert(view_seq(pre)[j].content != view_seq(pre)[gi as int].content);
                            } else {
                                assert(view_seq(pre)[gi as int].content != view_seq(pre)[j].content);
                            }
                            assert(view_seq(groups@)[j].content != d.content@);
                            assert(paths_with(rv.take(k as int + 1), view_seq(groups@)[j].content)
                                =~= paths_with(rv.take(k as int), view_seq(groups@)[j].content));
                        }
                    }
                }
            },
            None => {
                proof {
                    assert(!cs_pre.contains(d.content@)) by {
                        if cs_pre.contains(d.content@) {
                            let j = choose|j: int|
                                0 <= j < cs_pre.len() && cs_pre[j] == d.content@;
                            assert(view_seq(pre).map_values(|g: DuplicateGroupView| g.content)[j]
                                == view_seq(pre)[j].content);
                        }
                    }
                }
                let mut paths: Vec<String> = Vec::new();
                paths.push(d.path.clone());
                groups.push(DuplicateGroup { content: d.content.duplicate(), paths });
                proof {
                    assert(view_seq(groups@)[groups@.len() - 1].content == d.content@);
                    assert(view_seq(groups@)[groups@.len() - 1].paths =~= seq![d.path@]);
                    assert forall|j: int| 0 <= j < pre.len() implies view_seq(groups@)[j]
                        == view_seq(pre)[j] by {
                        assert(groups@[j] == pre[j]);
                    }
                    assert forall|a: int, b: int|
                        0 <= a < b < groups@.len() implies view_seq(groups@)[a].content
                        != view_seq(groups@)[b].content by {
                        if b == groups@.len() - 1 {
                            assert(view_seq(groups@)[a] == view_seq(pre)[a]);
                            if view_seq(pre)[a].content == d.content@ {
                                assert(cs_pre[a] == view_seq(pre)[a].content);
                                assert(cs_pre.contains(d.content@));
                            }
                        } else {
                            assert(view_seq(groups@)[a] == view_seq(pre)[a]);
                            assert(view_seq(groups@)[b] == view_seq(pre)[b]);
                        }
                    }
                    assert(view_seq(groups@).map_values(|g: DuplicateGroupView| g.content)
                        =~= group_contents(rv.take(k as int + 1)));
                    assert forall|j: int| 0 <= j < groups@.len() implies (#[trigger] view_seq(
                        groups@,
                    )[j]).paths == paths_with(rv.take(k as int + 1), view_seq(groups@)[j].content)
                        by {
                        if j == groups@.len() - 1 {
                            assert(paths_with(rv.take(k as int + 1), d.content@) == paths_with(
                                rv.take(k as int),
                                d.content@,
                            ) + seq![d.path@]);
                            assert(paths_with(rv.take(k as int), d.content@).len() == 0) by {
                                lemma_paths_with_absent(rv.take(k as int), d.content@);
                            }
                            assert(paths_with(rv.take(k as int), d.content@)
                                =~= Seq::<Seq<char>>::empty());
                            assert(Seq::<Seq<char>>::empty() + seq![d.path@] =~= seq![d.path@]);
                        } else {
                            assert(view_seq(groups@)[j].content != d.content@) by {
                                assert(cs_pre[j] == view_seq(pre)[j].content);
                            }
                            assert(paths_with(rv.take(k as int + 1), view_seq(groups@)[j].content)
                                =~= paths_with(rv.take(k as int), view_seq(groups@)[j].content));
                        }
                    }
                }
            },
        }
        k = k + 1;
    }
    proof {
        assert(rv.take(n as int) =~= rv);
    }

    let ghost all_groups = groups@;
    let ghost cs = group_contents(rv);
    let mut result: Vec<DuplicateGroup> = Vec::new();
    let mut t: usize = 0;
    let glen = groups.len();
    proof {
        assert(cs.take(0) =~= Seq::<ContentDescriptionView>::empty());
        assert(view_seq(result@).map_values(|g: DuplicateGroupView| g.content)
            =~= duplicate_contents(cs.take(0), rv));
    }
    while t < glen
        invariant
            0 <= t <= glen,
            glen == all_groups.len(),
            rv == snap_view(records@),
            cs == group_contents(rv),
            groups@ == all_groups.skip(t as int),
            cs == view_seq(all_groups).map_values(|g: DuplicateGroupView| g.content),
            forall|gi: int|
                0 <= gi < all_groups.len() ==> (#[trigger] view_seq(all_groups)[gi]).paths
                    == paths_with(rv, view_seq(all_groups)[gi].content),
            view_seq(result@).map_values(|g: DuplicateGroupView| g.content) == duplicate_contents(
                cs.take(t as int),
                rv,
            ),
            forall|i: int|
                0 <= i < result@.len() ==> (#[trigger] view_seq(result@)[i]).paths.to_multiset()
                    == paths_with(rv, view_seq(result@)[i].content).to_multiset(),
            forall|i: int| 0 <= i < result@.len() ==> (#[trigger] view_seq(result@)[i]).paths.len()
                >= 2,
            forall|i: int, a: int, b: int|
                #![trigger view_seq(result@)[i].paths[a], view_seq(result@)[i].paths[b]]
                0 <= i < result@.len() && 0 <= a < b < view_seq(result@)[i].paths.len()
                    ==> path_le(
                    view_seq(result@)[i].paths[a],
                    view_seq(result@)[i].paths[b],
                ),
        decreases glen - t,
    {
        let ghost res_pre = result@;
        proof {
            assert(all_groups.skip(t as int).first() == all_groups[t as int]);
            assert(all_groups.skip(t as int).drop_first() =~= all_groups.skip(t as int + 1));
            assert(cs.take(t as int + 1).drop_last() =~= cs.take(t as int));
            assert(cs.take(t as int + 1).last() == cs[t as int]);
            assert(cs[t as int] == view_seq(all_groups)[t as int].content);
        }
        let g = groups.remove(0);
        proof {
            assert(g == all_groups[t as int]);
            assert(groups@ =~= all_groups.skip(t as int + 1));
            assert(view_seq(all_groups)[t as int].paths == paths_with(rv, g.content@));
            assert(view_seq(g.paths@) == paths_with(rv, g.content@));
        }
        if g.paths.len() >= 2 {
            let ghost gpaths = g.paths@;
            let ghost gcontent = g.content@;
            let sorted = sort_entries(g.paths);
            proof {
                broadcast use vstd::seq_lib::group_to_multiset_ensures;

                crate::sorting::lemma_permutation_view_multiset(gpaths, sorted@);
                assert(sorted@.to_multiset().len() == sorted@.len());
                assert(gpaths.to_multiset().len() == gpaths.len());
                assert(sorted@.len() == gpaths.len());
                assert(view_seq(gpaths) == paths_with(rv, gcontent));
            }
            let newg = DuplicateGroup { content: g.content, paths: sorted };
            result.push(newg);
            proof {
                assert forall|j: int| 0 <= j < res_pre.len() implies #[trigger] view_seq(
                    result@,
                )[j] == view_seq(res_pre)[j] by {
                    assert(result@[j] == res_pre[j]);
                }
                let last = result@.len() - 1;
                assert(view_seq(result@)[last].content == gcontent);
                assert(view_seq(result@)[last].content == cs[t as int]);
                assert(view_seq(result@)[last].paths == view_seq(sorted@));
                assert(view_seq(result@)[last].paths.to_multiset() == paths_with(
                    rv,
                    view_seq(result@)[last].content,
                ).to_multiset());
                assert(view_seq(result@)[last].paths.len() >= 2);
                assert(view_seq(result@).map_values(|g: DuplicateGroupView| g.content)
                    =~= duplicate_contents(cs.take(t as int + 1), rv));
                assert forall|a: int, b: int|
                    0 <= a < b < view_seq(sorted@).len() implies path_le(
                    view_seq(sorted@)[a],
                    view_seq(sorted@)[b],
                ) by {
                    assert(crate::sorting::entry_le(sorted@[a], sorted@[b]));
                }
            }
        } else {
            proof {
                assert(paths_with(rv, cs[t as int]).len() < 2);
                assert(view_seq(result@).map_values(|g: DuplicateGroupView| g.content)
                    =~= duplicate_contents(cs.take(t as int + 1), rv));
            }
        }
        t = t + 1;
    }
    proof {
        assert(cs.take(glen as int) =~= cs);
    }
    result
}

/// A fingerprint outside the group contents has no record paths.
proof fn lemma_paths_with_absent(rs: Seq<FileDescriptionView>, f: ContentDescriptionView)
    requires
        !group_contents(rs).contains(f),
    ensures
        paths_with(rs, f).len() == 0,
    decreases rs.len(),
{
    if rs.len() > 0 {
        let pre = group_contents(rs.drop_last());
        assert(!pre.contains(f)) by {
            if pre.contains(f) {
                let j = choose|j: int| 0 <= j < pre.len() && pre[j] == f;
                if pre.contains(rs.last().content) {
                    assert(group_contents(rs)[j] == f);
                } else {
                    assert(group_contents(rs)[j] == f);
                }
            }
        }
        lemma_paths_with_absent(rs.drop_last(), f);
        assert(rs.last().content != f) by {
            if rs.last().content == f {
                lemma_group_contents_complete(rs, rs.len() - 1);
            }
        }
    }
}

} // verus!
