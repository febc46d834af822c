//! The classified result of a reconciliation: five disjoint, internally
//! sorted collections of change entries, and its rendering as a report.

use vstd::prelude::*;

use crate::records::{
    ChangedFile, ChangedFileView, CopiedFile, CopiedFileView, FileDescription,
    FileDescriptionView, MissingFile, MissingFileView, MovedFile, MovedFileView, spec_format_line,
};

verus! {

/// Every change a reconciliation found, classified: content changes in
/// place, copies, moves, deletions, and additions.
#[derive(Debug, Eq, PartialEq, Clone)]
pub struct ChangeSummary {
    pub changed: Vec<ChangedFile>,
    pub copied: Vec<CopiedFile>,
    pub moved: Vec<MovedFile>,
    pub deleted: Vec<MissingFile>,
    pub added: Vec<FileDescription>,
}

/// The mathematical value of a [`ChangeSummary`].
pub struct ChangeSummaryView {
    pub changed: Seq<ChangedFileView>,
    pub copied: Seq<CopiedFileView>,
    pub moved: Seq<MovedFileView>,
    pub deleted: Seq<MissingFileView>,
    pub added: Seq<FileDescriptionView>,
}

impl View for ChangeSummary {
    type V = ChangeSummaryView;

    open spec fn view(&self) -> ChangeSummaryView {
        ChangeSummaryView {
            changed: crate::sorting::view_seq(self.changed@),
            copied: crate::sorting::view_seq(self.copied@),
            moved: crate::sorting::view_seq(self.moved@),
            deleted: crate::sorting::view_seq(self.deleted@),
            added: crate::sorting::view_seq(self.added@),
        }
    }
}

impl ChangeSummaryView {
    /// Whether any collection holds an entry.
    pub open spec fn spec_has_changes(self) -> bool {
        self.changed.len() > 0 || self.copied.len() > 0 || self.moved.len() > 0
            || self.deleted.len() > 0 || self.added.len() > 0
    }
}

impl ChangeSummary {
    /// Whether the reconciliation found any change at all.
    pub fn has_changes(&self) -> (r: bool)
        ensures
            r == self@.spec_has_changes(),
    {
        self.changed.len() > 0 || self.copied.len() > 0 || self.moved.len() > 0
            || self.deleted.len() > 0 || self.added.len() > 0
    }
}

/// The given lines, separated by single newlines.
pub open spec fn join_lines(lines: Seq<Seq<char>>) -> Seq<char>
    decreases lines.len(),
{
    if lines.len() == 0 {
        Seq::empty()
    } else if lines.len() == 1 {
        lines.first()
    } else {
        lines.first() + seq!['\n'] + join_lines(lines.drop_first())
    }
}

/// Appending a line extends the joined text by a newline and the line (the
/// first line comes bare).
pub proof fn lemma_join_lines_push(lines: Seq<Seq<char>>, x: Seq<char>)
    ensures
        join_lines(lines.push(x)) == if lines.len() == 0 {
            x
        } else {
            join_lines(lines) + seq!['\n'] + x
        },
    decreases lines.len(),
{
    let p = lines.push(x);
    if lines.len() == 0 {
        assert(p.len() == 1);
        assert(p.first() == x);
    } else {
        assert(p.first() == lines.first());
        assert(p.drop_first() =~= lines.drop_first().push(x));
        lemma_join_lines_push(lines.drop_first(), x);
        if lines.len() == 1 {
            assert(join_lines(p) == p.first() + seq!['\n'] + join_lines(p.drop_first()));
            assert(join_lines(lines) == lines.first());
        } else {
            assert(join_lines(lines) + seq!['\n'] + x =~= lines.first() + seq!['\n'] + (join_lines(
                lines.drop_first(),
            ) + seq!['\n'] + x));
        }
    }
}

/// One report section: a header naming the kind of change, then the lines.
pub open spec fn spec_section(title: Seq<char>, lines: Seq<Seq<char>>) -> Seq<char> {
    "# "@ + title + ":\n"@ + join_lines(lines)
}

/// A singleton list holding `s` when `keep` is set, else an empty list.
pub open spec fn maybe_section(s: Seq<char>, keep: bool) -> Seq<Seq<char>> {
    if keep {
        seq![s]
    } else {
        Seq::empty()
    }
}

/// The report line of a copied or moved entry: destination, then source.
pub open spec fn pair_line(new: Seq<char>, old: Seq<char>) -> Seq<char> {
    new + " (from "@ + old + ")"@
}

/// What the rendered report says: one section per non-empty collection, in
/// the fixed order changed, copied, moved, deleted, added; each member on
/// its own line, added files as full snapshot lines.
pub open spec fn spec_describe(v: ChangeSummaryView) -> Seq<char> {
    join_lines(
        maybe_section(
            spec_section("Changed files"@, v.changed.map_values(|x: ChangedFileView| x.path)),
            v.changed.len() > 0,
        ) + maybe_section(
            spec_section(
                "Copied files"@,
                v.copied.map_values(|x: CopiedFileView| pair_line(x.new, x.old)),
            ),
            v.copied.len() > 0,
        ) + maybe_section(
            spec_section(
                "Moved files"@,
                v.moved.map_values(|x: MovedFileView| pair_line(x.new, x.old)),
            ),
            v.moved.len() > 0,
        ) + maybe_section(
            spec_section("Deleted files"@, v.deleted.map_values(|x: MissingFileView| x.path)),
            v.deleted.len() > 0,
        ) + maybe_section(
            spec_section(
                "Added files"@,
                v.added.map_values(|x: FileDescriptionView| spec_format_line(x)),
            ),
            v.added.len() > 0,
        ),
    )
}

/// Joins the given lines with newlines.
fn join_with_newlines(lines: &Vec<String>) -> (r: String)
    ensures
        r@ == join_lines(crate::sorting::view_seq(lines@)),
{
    let mut r = String::new();
    let n = lines.len();
    let mut i: usize = 0;
    proof {
        assert(crate::sorting::view_seq(lines@).take(0) =~= Seq::<Seq<char>>::empty());
    }
    while i < n
        invariant
            0 <= i <= n,
            n == lines@.len(),
            r@ == join_lines(crate::sorting::view_seq(lines@).take(i as int)),
        decreases n - i,
    {
        proof {
            assert(crate::sorting::view_seq(lines@)[i as int] == lines@[i as int]@);
            assert(crate::sorting::view_seq(lines@).take(i as int + 1) =~= crate::sorting::view_seq(
                lines@,
            ).take(i as int).push(lines@[i as int]@));
            lemma_join_lines_push(
                crate::sorting::view_seq(lines@).take(i as int),
                lines@[i as int]@,
            );
        }
        if i > 0 {
            r.append("\n");
            proof {
                reveal_strlit("\n");
                assert("\n"@ =~= seq!['\n']);
            }
        }
        r.append(lines[i].as_str());
        i = i + 1;
    }
    proof {
        assert(crate::sorting::view_seq(lines@).take(n as int) =~= crate::sorting::view_seq(
            lines@,
        ));
    }
    r
}

/// Renders one section: the header line, then the member lines.
fn render_section(title: &str, lines: &Vec<String>) -> (r: String)
    ensures
        r@ == spec_section(title@, crate::sorting::view_seq(lines@)),
{
    let mut r = String::from_str("# ");
    r.append(title);
    r.append(":\n");
    let body = join_with_newlines(lines);
    r.append(body.as_str());
    r
}

/// Renders a destination-and-source line.
fn render_pair_line(new: &String, old: &String) -> (r: String)
    ensures
        r@ == pair_line(new@, old@),
{
    let mut r = new.clone();
    r.append(" (from ");
    r.append(old.as_str());
    r.append(")");
    r
}

impl ChangeSummary {
    /// Renders the change set as a report: a header per non-empty
    /// collection, then one line per member, in the stored order — a
    /// reconciliation result keeps each collection sorted by path. Empty
    /// collections contribute nothing, so an empty change set renders as the
    /// empty string.
    pub fn describe(&self) -> (r: String)
        ensures
            r@ == spec_describe(self@),
    {
        broadcast use crate::sorting::lemma_view_seq_len;
        broadcast use crate::sorting::lemma_view_seq_index;

        let mut sections: Vec<String> = Vec::new();
        let ghost s1 = maybe_section(
            spec_section("Changed files"@, self@.changed.map_values(|x: ChangedFileView| x.path)),
            self@.changed.len() > 0,
        );
        let ghost s2 = maybe_section(
            spec_section(
                "Copied files"@,
                self@.copied.map_values(|x: CopiedFileView| pair_line(x.new, x.old)),
            ),
            self@.copied.len() > 0,
        );
        let ghost s3 = maybe_section(
            spec_section(
                "Moved files"@,
                self@.moved.map_values(|x: MovedFileView| pair_line(x.new, x.old)),
            ),
            self@.moved.len() > 0,
        );
        let ghost s4 = maybe_section(
            spec_section("Deleted files"@, self@.deleted.map_values(|x: MissingFileView| x.path)),
            self@.deleted.len() > 0,
        );
        let ghost s5 = maybe_section(
            spec_section(
                "Added files"@,
                self@.added.map_values(|x: FileDescriptionView| spec_format_line(x)),
            ),
            self@.added.len() > 0,
        );
        if self.changed.len() > 0 {
            let mut lines: Vec<String> = Vec::new();
            let n = self.changed.len();
            let mut i: usize = 0;
            while i < n
                invariant
                    0 <= i <= n,
                    lines@.len() == i,
                    n == self.changed@.len(),
                    crate::sorting::view_seq(lines@) =~= self@.changed.map_values(
                        |x: ChangedFileView| x.path,
                    ).take(i as int),
                decreases n - i,
            {
                lines.push(self.changed[i].path.clone());
                proof {
                    assert(self@.changed[i as int] == self.changed@[i as int]@);
                    assert(crate::sorting::view_seq(lines@)[i as int] == lines@[i as int]@);
                    assert(crate::sorting::view_seq(lines@) =~= self@.changed.map_values(
                        |x: ChangedFileView| x.path,
                    ).take(i as int + 1));
                }
                i = i + 1;
            }
            proof {
                assert(self@.changed.map_values(|x: ChangedFileView| x.path).take(n as int)
                    =~= self@.changed.map_values(|x: ChangedFileView| x.path));
            }
            sections.push(render_section("Changed files", &lines));
        }
        if self.copied.len() > 0 {
            let mut lines: Vec<String> = Vec::new();
            let n = self.copied.len();
            let mut i: usize = 0;
            while i < n
                invariant
                    0 <= i <= n,
                    lines@.len() == i,
                    n == self.copied@.len(),
                    crate::sorting::view_seq(lines@) =~= self@.copied.map_values(
                        |x: CopiedFileView| pair_line(x.new, x.old),
                    ).take(i as int),
                decreases n - i,
            {
                lines.push(render_pair_line(&self.copied[i].new, &self.copied[i].old));
                proof {
                    assert(self@.copied[i as int] == self.copied@[i as int]@);
                    assert(crate::sorting::view_seq(lines@)[i as int] == lines@[i as int]@);
                    assert(crate::sorting::view_seq(lines@) =~= self@.copied.map_values(
                        |x: CopiedFileView| pair_line(x.new, x.old),
                    ).take(i as int + 1));
                }
                i = i + 1;
            }
            proof {
                assert(self@.copied.map_values(|x: CopiedFileView| pair_line(x.new, x.old)).take(
                    n as int,
                ) =~= self@.copied.map_values(|x: CopiedFileView| pair_line(x.new, x.old)));
            }
            sections.push(render_section("Copied files", &lines));
        }
        if self.moved.len() > 0 {
            let mut lines: Vec<String> = Vec::new();
            let n = self.moved.len();
            let mut i: usize = 0;
            while i < n
                invariant
                    0 <= i <= n,
                    lines@.len() == i,
                    n == self.moved@.len(),
                    crate::sorting::view_seq(lines@) =~= self@.moved.map_values(
                        |x: MovedFileView| pair_line(x.new, x.old),
                    ).take(i as int),
                decreases n - i,
            {
                lines.push(render_pair_line(&self.moved[i].new, &self.moved[i].old));
                proof {
                    assert(self@.moved[i as int] == self.moved@[i as int]@);
                    assert(crate::sorting::view_seq(lines@)[i as int] == lines@[i as int]@);
                    assert(crate::sorting::view_seq(lines@) =~= self@.moved.map_values(
                        |x: MovedFileView| pair_line(x.new, x.old),
                    ).take(i as int + 1));
                }
                i = i + 1;
            }
            proof {
                assert(self@.moved.map_values(|x: MovedFileView| pair_line(x.new, x.old)).take(
                    n as int,
                ) =~= self@.moved.map_values(|x: MovedFileView| pair_line(x.new, x.old)));
            }
            sections.push(render_section("Moved files", &lines));
        }
        if self.deleted.len() > 0 {
            let mut lines: Vec<String> = Vec::new();
            let n = self.deleted.len();
            let mut i: usize = 0;
            while i < n
                invariant
                    0 <= i <= n,
                    lines@.len() == i,
                    n == self.deleted@.len(),
                    crate::sorting::view_seq(lines@) =~= self@.deleted.map_values(
                        |x: MissingFileView| x.path,
                    ).take(i as int),
                decreases n - i,
            {
                lines.push(self.deleted[i].path.clone());
                proof {
                    assert(self@.deleted[i as int] == self.deleted@[i as int]@);
                    assert(crate::sorting::view_seq(lines@)[i as int] == lines@[i as int]@);
                    assert(crate::sorting::view_seq(lines@) =~= self@.deleted.map_values(
                        |x: MissingFileView| x.path,
                    ).take(i as int + 1));
                }
                i = i + 1;
            }
            proof {
                assert(self@.deleted.map_values(|x: MissingFileView| x.path).take(n as int)
                    =~= self@.deleted.map_values(|x: MissingFileView| x.path));
            }
            sections.push(render_section("Deleted files", &lines));
        }
        if self.added.len() > 0 {
            let mut lines: Vec<String> = Vec::new();
            let n = self.added.len();
            let mut i: usize = 0;
            while i < n
                invariant
                    0 <= i <= n,
                    lines@.len() == i,
                    n == self.added@.len(),
                    crate::sorting::view_seq(lines@) =~= self@.added.map_values(
                        |x: FileDescriptionView| spec_format_line(x),
                    ).take(i as int),
                decreases n - i,
            {
                lines.push(self.added[i].to_line());
                proof {
                    assert(self@.added[i as int] == self.added@[i as int]@);
                    assert(crate::sorting::view_seq(lines@)[i as int] == lines@[i as int]@);
                    assert(crate::sorting::view_seq(lines@) =~= self@.added.map_values(
                        |x: FileDescriptionView| spec_format_line(x),
                    ).take(i as int + 1));
                }
                i = i + 1;
            }
            proof {
                assert(self@.added.map_values(|x: FileDescriptionView| spec_format_line(x)).take(
                    n as int,
                ) =~= self@.added.map_values(|x: FileDescriptionView| spec_format_line(x)));
            }
            sections.push(render_section("Added files", &lines));
        }
        proof {
            assert(crate::sorting::view_seq(sections@) =~= s1 + s2 + s3 + s4 + s5);
        }
        join_with_newlines(&sections)
    }
}

} // verus!
