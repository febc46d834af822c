//! The data model of the audit: content fingerprints, file records, the
//! classified change entries, and the one-line snapshot serialization of a
//! file record.
//!
//! The serialized line is `<timestamp>,<size>,<digest>,<path>`: exactly four
//! comma-separated fields, split left to right on the first three commas
//! only, so a path containing commas stays intact.

use vstd::prelude::*;

use crate::paths::{join_path, spec_join_path};
use crate::text::{spec_parse_u64, spec_u64_string, lemma_u64_string_val, parse_u64, u64_string};
use crate::timestamp::{
    format_timestamp, parse_timestamp, spec_format_timestamp, spec_parse_timestamp, Timestamp,
};

verus! {

/// A fingerprint of file content: the file's size in bytes together with a
/// hex digest of a bounded prefix of its content. Two files with equal
/// fingerprints are treated as content-identical.
#[derive(Debug, Eq, PartialEq, Clone)]
pub struct ContentDescription {
    pub size: u64,
    pub hash: String,
}

/// The mathematical value of a [`ContentDescription`].
pub struct ContentDescriptionView {
    pub size: u64,
    pub hash: Seq<char>,
}

impl View for ContentDescription {
    type V = ContentDescriptionView;

    open spec fn view(&self) -> ContentDescriptionView {
        ContentDescriptionView { size: self.size, hash: self.hash@ }
    }
}

impl ContentDescription {
    /// The file size this fingerprint was taken from.
    pub fn size(&self) -> (r: u64)
        ensures
            r == self@.size,
    {
        self.size
    }

    /// The hex digest of the hashed content prefix.
    pub fn hash(&self) -> (r: &str)
        ensures
            r@ == self@.hash,
    {
        self.hash.as_str()
    }

    /// An equal fingerprint as a fresh value.
    pub fn duplicate(&self) -> (r: ContentDescription)
        ensures
            r@ == self@,
    {
        ContentDescription { size: self.size, hash: self.hash.clone() }
    }

    /// Whether two fingerprints identify the same content.
    pub fn same_content(&self, other: &ContentDescription) -> (r: bool)
        ensures
            r == (self@ == other@),
    {
        let r = self.size == other.size && self.hash == other.hash;
        proof {
            if self@.size == other@.size && self@.hash == other@.hash {
                assert(self@ == other@);
            }
        }
        r
    }
}

/// A path whose content reappeared at another path while the original path
/// vanished.
#[derive(Debug, Eq, PartialEq, Clone)]
pub struct MovedFile {
    pub old: String,
    pub new: String,
}

/// The mathematical value of a [`MovedFile`].
pub struct MovedFileView {
    pub old: Seq<char>,
    pub new: Seq<char>,
}

impl View for MovedFile {
    type V = MovedFileView;

    open spec fn view(&self) -> MovedFileView {
        MovedFileView { old: self.old@, new: self.new@ }
    }
}

/// A new path holding the same content as a still-present expected path.
#[derive(Debug, Eq, PartialEq, Clone)]
pub struct CopiedFile {
    pub old: String,
    pub new: String,
}

/// The mathematical value of a [`CopiedFile`].
pub struct CopiedFileView {
    pub old: Seq<char>,
    pub new: Seq<char>,
}

impl View for CopiedFile {
    type V = CopiedFileView;

    open spec fn view(&self) -> CopiedFileView {
        CopiedFileView { old: self.old@, new: self.new@ }
    }
}

/// A path that appeared without any expected content explaining it.
#[derive(Debug, Eq, PartialEq, Clone)]
pub struct NewFile {
    pub path: String,
}

/// The mathematical value of a [`NewFile`].
pub struct NewFileView {
    pub path: Seq<char>,
}

impl View for NewFile {
    type V = NewFileView;

    open spec fn view(&self) -> NewFileView {
        NewFileView { path: self.path@ }
    }
}

/// A path present on both sides whose content fingerprint differs.
#[derive(Debug, Eq, PartialEq, Clone)]
pub struct ChangedFile {
    pub path: String,
    pub old_content: ContentDescription,
    pub new_content: ContentDescription,
}

/// The mathematical value of a [`ChangedFile`].
pub struct ChangedFileView {
    pub path: Seq<char>,
    pub old_content: ContentDescriptionView,
    pub new_content: ContentDescriptionView,
}

impl View for ChangedFile {
    type V = ChangedFileView;

    open spec fn view(&self) -> ChangedFileView {
        ChangedFileView {
            path: self.path@,
            old_content: self.old_content@,
            new_content: self.new_content@,
        }
    }
}

/// A path that vanished and whose content is found nowhere in the current
/// state: reported as deleted.
#[derive(Debug, Eq, PartialEq, Clone)]
pub struct MissingFile {
    pub path: String,
}

/// The mathematical value of a [`MissingFile`].
pub struct MissingFileView {
    pub path: Seq<char>,
}

impl View for MissingFile {
    type V = MissingFileView;

    open spec fn view(&self) -> MissingFileView {
        MissingFileView { path: self.path@ }
    }
}

impl MissingFile {
    pub fn new(filepath: String) -> (r: MissingFile)
        ensures
            r@.path == filepath@,
    {
        MissingFile { path: filepath }
    }
}

/// One file's record: its modification timestamp, its content fingerprint,
/// and its path.
#[derive(Debug, Eq, PartialEq, Clone)]
pub struct FileDescription {
    pub modified: Timestamp,
    pub content: ContentDescription,
    pub path: String,
}

/// The mathematical value of a [`FileDescription`].
pub struct FileDescriptionView {
    pub modified: Timestamp,
    pub content: ContentDescriptionView,
    pub path: Seq<char>,
}

impl View for FileDescription {
    type V = FileDescriptionView;

    open spec fn view(&self) -> FileDescriptionView {
        FileDescriptionView { modified: self.modified, content: self.content@, path: self.path@ }
    }
}

/// The outcome of probing one path: either the file is there, with its
/// record, or the path names nothing.
#[derive(Debug, Eq, PartialEq, Clone)]
pub enum MaybeFileDescription {
    MissingFile(MissingFile),
    FileDescription(FileDescription),
}

/// The mathematical value of a [`MaybeFileDescription`].
pub enum MaybeFileDescriptionView {
    MissingFile(Seq<char>),
    FileDescription(FileDescriptionView),
}

impl View for MaybeFileDescription {
    type V = MaybeFileDescriptionView;

    open spec fn view(&self) -> MaybeFileDescriptionView {
        match self {
            MaybeFileDescription::MissingFile(m) => MaybeFileDescriptionView::MissingFile(m.path@),
            MaybeFileDescription::FileDescription(d) => MaybeFileDescriptionView::FileDescription(
                d@,
            ),
        }
    }
}

impl MaybeFileDescriptionView {
    /// The path this probe outcome is about.
    pub open spec fn key(self) -> Seq<char> {
        match self {
            MaybeFileDescriptionView::MissingFile(p) => p,
            MaybeFileDescriptionView::FileDescription(d) => d.path,
        }
    }
}

/// Which field of a snapshot line failed to parse.
#[derive(Debug, Eq, PartialEq, Clone, Copy, Structural)]
pub enum ParseErrorKind {
    /// The line has fewer than three commas, so it cannot have four fields.
    MissingFields,
    /// The first field is not a timestamp of the fixed format.
    BadTimestamp,
    /// The second field is not an unsigned decimal size.
    BadSize,
}

/// A snapshot line that violates the four-field format: the offending line
/// and the field that failed. Loading a snapshot stops at the first one.
#[derive(Debug, Eq, PartialEq, Clone)]
pub struct ParseError {
    pub line: String,
    pub kind: ParseErrorKind,
}

/// The mathematical value of a [`ParseError`].
pub struct ParseErrorView {
    pub line: Seq<char>,
    pub kind: ParseErrorKind,
}

impl View for ParseError {
    type V = ParseErrorView;

    open spec fn view(&self) -> ParseErrorView {
        ParseErrorView { line: self.line@, kind: self.kind }
    }
}

impl FileDescription {
    /// The record's content fingerprint.
    pub fn content_ref(&self) -> (r: &ContentDescription)
        ensures
            r@ == self@.content,
    {
        &self.content
    }

    /// An equal record as a fresh value.
    pub fn duplicate(&self) -> (r: FileDescription)
        ensures
            r@ == self@,
    {
        FileDescription {
            modified: self.modified,
            content: self.content.duplicate(),
            path: self.path.clone(),
        }
    }

    /// Renders the record as one snapshot line.
    pub fn to_line(&self) -> (r: String)
        ensures
            r@ == spec_format_line(self@),
    {
        proof {
            reveal_strlit(",");
        }
        let mut r = format_timestamp(&self.modified);
        r.append(",");
        let size_text = u64_string(self.content.size);
        r.append(size_text.as_str());
        r.append(",");
        r.append(self.content.hash.as_str());
        r.append(",");
        r.append(self.path.as_str());
        proof {
            assert(r@ =~= spec_format_line(self@));
        }
        r
    }
}

/// The one-line rendering of a record:
/// `<timestamp>,<size>,<digest>,<path>`.
pub open spec fn spec_format_line(v: FileDescriptionView) -> Seq<char> {
    spec_format_timestamp(v.modified) + seq![','] + spec_u64_string(v.content.size as nat)
        + seq![','] + v.content.hash + seq![','] + v.path
}

/// The whitespace characters stripped from the ends of a snapshot line.
pub open spec fn is_space(c: char) -> bool {
    c == ' ' || c == '\t' || c == '\n' || c == '\r'
}

/// `s` without trailing whitespace.
pub open spec fn spec_trim_end(s: Seq<char>) -> Seq<char>
    decreases s.len(),
{
    if s.len() > 0 && is_space(s.last()) {
        spec_trim_end(s.drop_last())
    } else {
        s
    }
}

/// `s` without leading whitespace.
pub open spec fn spec_trim_start(s: Seq<char>) -> Seq<char>
    decreases s.len(),
{
    if s.len() > 0 && is_space(s.first()) {
        spec_trim_start(s.drop_first())
    } else {
        s
    }
}

/// `s` without leading and trailing whitespace.
pub open spec fn spec_trim(s: Seq<char>) -> Seq<char> {
    spec_trim_start(spec_trim_end(s))
}

/// Trimming from the end keeps everything up to the last non-space.
proof fn lemma_trim_end_take(s: Seq<char>, e: int)
    requires
        0 <= e <= s.len(),
        forall|j: int| e <= j < s.len() ==> is_space(#[trigger] s[j]),
        e > 0 ==> !is_space(s[e - 1]),
    ensures
        spec_trim_end(s) == s.take(e),
    decreases s.len(),
{
    if s.len() == e {
        assert(s.take(e) =~= s);
    } else {
        assert(is_space(s.last()));
        let d = s.drop_last();
        assert(forall|j: int| e <= j < d.len() ==> d[j] == s[j]);
        if e > 0 {
            assert(d[e - 1] == s[e - 1]);
        }
        lemma_trim_end_take(d, e);
        assert(d.take(e) =~= s.take(e));
    }
}

/// Trimming from the start keeps everything from the first non-space on.
proof fn lemma_trim_start_skip(s: Seq<char>, b: int)
    requires
        0 <= b <= s.len(),
        forall|j: int| 0 <= j < b ==> is_space(#[trigger] s[j]),
        b < s.len() ==> !is_space(s[b]),
    ensures
        spec_trim_start(s) == s.skip(b),
    decreases b,
{
    if b == 0 {
        assert(s.skip(0) =~= s);
        if s.len() > 0 {
            assert(!is_space(s.first()));
        }
    } else {
        assert(is_space(s.first()));
        let d = s.drop_first();
        assert(forall|j: int| 0 <= j < d.len() ==> d[j] == s[j + 1]);
        lemma_trim_start_skip(d, b - 1);
        assert(d.skip(b - 1) =~= s.skip(b));
    }
}

/// A string whose first and last characters are not whitespace is already
/// trimmed.
pub proof fn lemma_trim_noop(s: Seq<char>)
    requires
        s.len() > 0,
        !is_space(s.first()),
        !is_space(s.last()),
    ensures
        spec_trim(s) == s,
{
    lemma_trim_end_take(s, s.len() as int);
    assert(s.take(s.len() as int) =~= s);
    lemma_trim_start_skip(s, 0);
    assert(s.skip(0) =~= s);
}

/// Whether `c` is an ASCII whitespace character.
fn is_space_exec(c: char) -> (r: bool)
    ensures
        r == is_space(c),
{
    c == ' ' || c == '\t' || c == '\n' || c == '\r'
}

/// Strips leading and trailing whitespace.
pub fn trim(s: &str) -> (r: &str)
    ensures
        r@ == spec_trim(s@),
{
    let len = s.unicode_len();
    let mut e: usize = len;
    while e > 0 && is_space_exec(s.get_char(e - 1))
        invariant
            0 <= e <= len,
            len == s@.len(),
            forall|j: int| e <= j < len ==> is_space(#[trigger] s@[j]),
        decreases e,
    {
        e = e - 1;
    }
    proof {
        lemma_trim_end_take(s@, e as int);
    }
    let mut b: usize = 0;
    while b < e && is_space_exec(s.get_char(b))
        invariant
            0 <= b <= e <= len,
            len == s@.len(),
            forall|j: int| 0 <= j < b ==> is_space(#[trigger] s@[j]),
        decreases e - b,
    {
        b = b + 1;
    }
    let r = s.substring_char(b, e);
    proof {
        let t = s@.take(e as int);
        assert(forall|j: int| 0 <= j < b ==> t[j] == s@[j]);
        if (b as int) < t.len() {
            assert(t[b as int] == s@[b as int]);
        }
        lemma_trim_start_skip(t, b as int);
        assert(t.skip(b as int) =~= s@.subrange(b as int, e as int));
    }
    r
}

/// The least index at or after `from` holding a comma, or the length of `s`
/// when there is none.
pub open spec fn find_comma(s: Seq<char>, from: int) -> int
    decreases s.len() - from,
{
    if from >= s.len() || from < 0 {
        s.len() as int
    } else if s[from] == ',' {
        from
    } else {
        find_comma(s, from + 1)
    }
}

/// `find_comma` returns an index between `from` and the length, holds a
/// comma when it is inside, and skips no earlier comma.
pub proof fn lemma_find_comma_range(s: Seq<char>, from: int)
    requires
        0 <= from <= s.len(),
    ensures
        from <= find_comma(s, from) <= s.len(),
        find_comma(s, from) < s.len() ==> s[find_comma(s, from)] == ',',
        forall|j: int| from <= j < find_comma(s, from) ==> s[j] != ',',
    decreases s.len() - from,
{
    if from < s.len() && s[from] != ',' {
        lemma_find_comma_range(s, from + 1);
    }
}

/// Where the first `k - from` characters from `from` on are comma-free and a
/// comma (or the end) follows, the search stops exactly there.
pub proof fn lemma_find_comma_at(s: Seq<char>, from: int, k: int)
    requires
        0 <= from <= k <= s.len(),
        forall|j: int| from <= j < k ==> s[j] != ',',
        k < s.len() ==> s[k] == ',',
    ensures
        find_comma(s, from) == if k < s.len() {
            k
        } else {
            s.len() as int
        },
    decreases k - from,
{
    if from < k {
        lemma_find_comma_at(s, from + 1, k);
    }
}

/// Finds the least index at or after `from` holding a comma.
fn find_comma_exec(s: &str, from: usize) -> (r: usize)
    requires
        from <= s@.len(),
    ensures
        r == find_comma(s@, from as int),
{
    let len = s.unicode_len();
    let mut i: usize = from;
    while i < len
        invariant
            from <= i <= len,
            len == s@.len(),
            forall|j: int| from <= j < i ==> s@[j] != ',',
        decreases len - i,
    {
        if s.get_char(i) == ',' {
            proof {
                lemma_find_comma_at(s@, from as int, i as int);
            }
            return i;
        }
        i = i + 1;
    }
    proof {
        lemma_find_comma_at(s@, from as int, len as int);
    }
    len
}

/// What parsing one snapshot line yields: the record when the trimmed line
/// has four comma-separated fields (splitting on the first three commas
/// only) that all parse, otherwise the error naming the line and the field.
/// The trailing field, embedded commas and all, resolved against `base`,
/// becomes the path.
pub open spec fn spec_parse_line(line: Seq<char>, base: Seq<char>) -> Result<
    FileDescriptionView,
    ParseErrorView,
> {
    let s = spec_trim(line);
    let c1 = find_comma(s, 0);
    let c2 = find_comma(s, c1 + 1);
    let c3 = find_comma(s, c2 + 1);
    if c3 >= s.len() {
        Err(ParseErrorView { line: line, kind: ParseErrorKind::MissingFields })
    } else {
        let f0 = s.subrange(0, c1);
        let f1 = s.subrange(c1 + 1, c2);
        let f2 = s.subrange(c2 + 1, c3);
        let f3 = s.subrange(c3 + 1, s.len() as int);
        match spec_parse_timestamp(f0) {
            None => Err(ParseErrorView { line: line, kind: ParseErrorKind::BadTimestamp }),
            Some(ts) => match spec_parse_u64(f1) {
                None => Err(ParseErrorView { line: line, kind: ParseErrorKind::BadSize }),
                Some(size) => Ok(
                    FileDescriptionView {
                        modified: ts,
                        content: ContentDescriptionView { size: size, hash: f2 },
                        path: spec_join_path(base, f3),
                    },
                ),
            },
        }
    }
}

/// How a line made of four fields parses: the first three commas split it,
/// so the trailing field — embedded commas and all — becomes the path, while
/// the first three fields decide success.
pub proof fn lemma_parse_line_fields(
    line: Seq<char>,
    base: Seq<char>,
    f0: Seq<char>,
    f1: Seq<char>,
    f2: Seq<char>,
    f3: Seq<char>,
)
    requires
        line == f0 + seq![','] + f1 + seq![','] + f2 + seq![','] + f3,
        forall|j: int| 0 <= j < f0.len() ==> f0[j] != ',',
        forall|j: int| 0 <= j < f1.len() ==> f1[j] != ',',
        forall|j: int| 0 <= j < f2.len() ==> f2[j] != ',',
        !is_space(line[0]),
        !is_space(line[line.len() - 1]),
    ensures
        spec_parse_timestamp(f0) is None ==> spec_parse_line(line, base) == Err::<
            FileDescriptionView,
            ParseErrorView,
        >(ParseErrorView { line: line, kind: ParseErrorKind::BadTimestamp }),
        spec_parse_timestamp(f0) is Some && spec_parse_u64(f1) is None ==> spec_parse_line(
            line,
            base,
        ) == Err::<FileDescriptionView, ParseErrorView>(
            ParseErrorView { line: line, kind: ParseErrorKind::BadSize },
        ),
        spec_parse_timestamp(f0) is Some && spec_parse_u64(f1) is Some ==> spec_parse_line(
            line,
            base,
        ) == Ok::<FileDescriptionView, ParseErrorView>(
            FileDescriptionView {
                modified: spec_parse_timestamp(f0)->Some_0,
                content: ContentDescriptionView {
                    size: spec_parse_u64(f1)->Some_0,
                    hash: f2,
                },
                path: spec_join_path(base, f3),
            },
        ),
{
    let n0 = f0.len() as int;
    let n1 = f1.len() as int;
    let n2 = f2.len() as int;
    let c1 = n0;
    let c2 = n0 + 1 + n1;
    let c3 = n0 + 1 + n1 + 1 + n2;
    assert(line.len() == c3 + 1 + f3.len());
    assert(line[c1] == ',');
    assert(line[c2] == ',');
    assert(line[c3] == ',');
    assert(line.len() > 0);
    lemma_trim_noop(line);
    assert forall|j: int| 0 <= j < c1 implies line[j] != ',' by {
        assert(line[j] == f0[j]);
    }
    assert forall|j: int| c1 + 1 <= j < c2 implies line[j] != ',' by {
        assert(line[j] == f1[j - (c1 + 1)]);
    }
    assert forall|j: int| c2 + 1 <= j < c3 implies line[j] != ',' by {
        assert(line[j] == f2[j - (c2 + 1)]);
    }
    lemma_find_comma_at(line, 0, c1);
    lemma_find_comma_at(line, c1 + 1, c2);
    lemma_find_comma_at(line, c2 + 1, c3);
    assert(find_comma(line, 0) == c1);
    assert(find_comma(line, c1 + 1) == c2);
    assert(find_comma(line, c2 + 1) == c3);
    assert(line.subrange(0, c1) =~= f0);
    assert(line.subrange(c1 + 1, c2) =~= f1);
    assert(line.subrange(c2 + 1, c3) =~= f2);
    assert(line.subrange(c3 + 1, line.len() as int) =~= f3);
}

/// Formatting a record and parsing the line back yields the record: the
/// round trip holds for every record whose timestamp is well formed, whose
/// digest is comma-free, whose path does not end in whitespace, and whose
/// path resolves to itself against `base` (an absolute path against any
/// base, or any path against an empty base).
pub proof fn lemma_line_round_trip(v: FileDescriptionView, base: Seq<char>)
    requires
        v.modified.wf(),
        forall|i: int| 0 <= i < v.content.hash.len() ==> v.content.hash[i] != ',',
        v.path.len() > 0 ==> !is_space(v.path[v.path.len() - 1]),
        spec_join_path(base, v.path) == v.path,
    ensures
        spec_parse_line(spec_format_line(v), base) == Ok::<FileDescriptionView, ParseErrorView>(v),
{
    let line = spec_format_line(v);
    let ts = spec_format_timestamp(v.modified);
    let sz = spec_u64_string(v.content.size as nat);
    crate::timestamp::lemma_format_timestamp_shape(v.modified);
    lemma_u64_string_val(v.content.size as nat);
    assert(line[0] == ts[0]);
    assert(!is_space(line[0]));
    assert(!is_space(line[line.len() - 1])) by {
        if v.path.len() > 0 {
            assert(line[line.len() - 1] == v.path[v.path.len() - 1]);
        } else {
            assert(line[line.len() - 1] == ',');
        }
    }
    assert forall|j: int| 0 <= j < ts.len() implies ts[j] != ',' by {
        assert(crate::text::is_digit(ts[j]) || ts[j] == '-' || ts[j] == ' ' || ts[j] == ':'
            || ts[j] == '.');
    }
    assert forall|j: int| 0 <= j < sz.len() implies sz[j] != ',' by {
        assert(crate::text::is_digit(sz[j]));
    }
    lemma_parse_line_fields(line, base, ts, sz, v.content.hash, v.path);
    crate::timestamp::lemma_timestamp_round_trip(v.modified);
    assert(spec_parse_u64(sz) == Some(v.content.size));
    assert(spec_parse_line(line, base) == Ok::<FileDescriptionView, ParseErrorView>(
        FileDescriptionView {
            modified: v.modified,
            content: ContentDescriptionView { size: v.content.size, hash: v.content.hash },
            path: v.path,
        },
    ));
}

/// Two records with the same fingerprint and path render to snapshot lines
/// that agree on everything past the fixed-width timestamp field: recording
/// an unmodified file twice changes at most that field.
pub proof fn lemma_line_stable(a: FileDescriptionView, b: FileDescriptionView)
    requires
        a.content == b.content,
        a.path == b.path,
    ensures
        spec_format_line(a).skip(26) == spec_format_line(b).skip(26),
        spec_format_line(a).take(26) == spec_format_timestamp(a.modified),
{
    crate::timestamp::lemma_format_timestamp_shape(a.modified);
    crate::timestamp::lemma_format_timestamp_shape(b.modified);
    assert(spec_format_line(a).skip(26) =~= spec_format_line(b).skip(26));
    assert(spec_format_line(a).take(26) =~= spec_format_timestamp(a.modified));
}

impl FileDescription {
    /// Parses one snapshot line, resolving the path field against
    /// `relative_to`.
    pub fn parse(string: &str, relative_to: &str) -> (r: Result<FileDescription, ParseError>)
        ensures
            r matches Ok(d) ==> spec_parse_line(string@, relative_to@) == Ok::<
                FileDescriptionView,
                ParseErrorView,
            >(d@),
            r matches Err(e) ==> spec_parse_line(string@, relative_to@) == Err::<
                FileDescriptionView,
                ParseErrorView,
            >(e@),
    {
        let s = trim(string);
        let len = s.unicode_len();
        let c1 = find_comma_exec(s, 0);
        let c2 = if c1 < len {
            find_comma_exec(s, c1 + 1)
        } else {
            proof {
                lemma_find_comma_range(s@, 0);
            }
            len
        };
        let c3 = if c2 < len {
            find_comma_exec(s, c2 + 1)
        } else {
            len
        };
        proof {
            lemma_find_comma_range(s@, 0);
            if c1 < len {
                lemma_find_comma_range(s@, c1 as int + 1);
            }
            if c2 < len {
                lemma_find_comma_range(s@, c2 as int + 1);
            }
        }
        if c3 >= len {
            return Err(
                ParseError { line: string.to_owned(), kind: ParseErrorKind::MissingFields },
            );
        }
        let f0 = s.substring_char(0, c1);
        let f1 = s.substring_char(c1 + 1, c2);
        let f2 = s.substring_char(c2 + 1, c3);
        let f3 = s.substring_char(c3 + 1, len);
        let ts = match parse_timestamp(f0) {
            Some(ts) => ts,
            None => {
                return Err(
                    ParseError { line: string.to_owned(), kind: ParseErrorKind::BadTimestamp },
                );
            },
        };
        let size = match parse_u64(f1) {
            Some(v) => v,
            None => {
                return Err(ParseError { line: string.to_owned(), kind: ParseErrorKind::BadSize });
            },
        };
        Ok(
            FileDescription {
                modified: ts,
                content: ContentDescription { size: size, hash: f2.to_owned() },
                path: join_path(relative_to, f3),
            },
        )
    }
}

} // verus!
