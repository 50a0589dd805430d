//! The structured diff of one file: its paths and its hunks, each hunk with
//! its header, its line ranges and its lines.
use vstd::prelude::*;

use crate::text::{chars_of, string_from_chars, trim, trim_chars};

verus! {

/// One line of a hunk: `origin` is `'+'` for an added line, `'-'` for a
/// removed one and `' '` for context; `content` is the text of the line,
/// normally ending in a newline.
#[derive(Debug, Clone)]
pub struct DiffLine {
    pub origin: char,
    pub content: String,
}

/// The mathematical value of a [`DiffLine`].
pub struct LineView {
    pub origin: char,
    pub content: Seq<char>,
}

impl View for DiffLine {
    type V = LineView;

    open spec fn view(&self) -> LineView {
        LineView { origin: self.origin, content: self.content@ }
    }
}

/// The values of a sequence of lines.
pub open spec fn line_views(lines: Seq<DiffLine>) -> Seq<LineView> {
    lines.map_values(|l: DiffLine| l@)
}

/// One hunk: its `@@` header, the ranges it covers in the old and the new
/// file, and its lines.
#[derive(Debug, Clone)]
pub struct Hunk {
    pub header: String,
    pub old_start: u32,
    pub old_lines: u32,
    pub new_start: u32,
    pub new_lines: u32,
    pub lines: Vec<DiffLine>,
}

/// The mathematical value of a [`Hunk`].
pub struct HunkView {
    pub header: Seq<char>,
    pub old_start: u32,
    pub old_lines: u32,
    pub new_start: u32,
    pub new_lines: u32,
    pub lines: Seq<LineView>,
}

impl View for Hunk {
    type V = HunkView;

    open spec fn view(&self) -> HunkView {
        HunkView {
            header: self.header@,
            old_start: self.old_start,
            old_lines: self.old_lines,
            new_start: self.new_start,
            new_lines: self.new_lines,
            lines: line_views(self.lines@),
        }
    }
}

/// The values of a sequence of hunks.
pub open spec fn hunk_views(hunks: Seq<Hunk>) -> Seq<HunkView> {
    hunks.map_values(|h: Hunk| h@)
}

/// The diff of one file: the paths that the patch names for its old and
/// new side, and its hunks in order.
#[derive(Debug, Clone)]
pub struct FileDiff {
    pub old_path: String,
    pub new_path: String,
    pub hunks: Vec<Hunk>,
}

/// The mathematical value of a [`FileDiff`].
pub struct FileDiffView {
    pub old_path: Seq<char>,
    pub new_path: Seq<char>,
    pub hunks: Seq<HunkView>,
}

impl View for FileDiff {
    type V = FileDiffView;

    open spec fn view(&self) -> FileDiffView {
        FileDiffView {
            old_path: self.old_path@,
            new_path: self.new_path@,
            hunks: hunk_views(self.hunks@),
        }
    }
}


/// How a file changed, which decides the paths that its patch names.
#[derive(Debug, Clone, Copy, PartialEq, Eq, Structural)]
pub enum FileStatus {
    /// The file is new: its old side is `/dev/null`.
    Added,
    /// The file was deleted: its new side is `/dev/null`.
    Deleted,
    /// Any other change.
    Other,
}

/// Why no diff could be built.
#[derive(Debug)]
pub enum DiffError {
    /// The file, named by the path given, has no change.
    NoChanges(String),
}

/// Whether a line of this origin is a change or context line, the lines a
/// hunk keeps. Others, the end-of-file markers, are dropped: a line that
/// lacks its newline already says so by its content, and the patches write
/// the marker after it again.
pub open spec fn is_diff_origin(origin: char) -> bool {
    origin == '+' || origin == '-' || origin == ' '
}

/// The lines whose origin is `+`, `-` or a space, in order.
pub open spec fn diff_lines_only(lines: Seq<LineView>) -> Seq<LineView>
    decreases lines.len(),
{
    if lines.len() == 0 {
        Seq::<LineView>::empty()
    } else {
        diff_lines_only(lines.drop_last()) + if is_diff_origin(lines.last().origin) {
            seq![lines.last()]
        } else {
            Seq::<LineView>::empty()
        }
    }
}

/// Every line that `diff_lines_only` keeps is an addition, a removal or
/// context.
pub proof fn lemma_diff_lines_origins(lines: Seq<LineView>, i: int)
    requires
        0 <= i < diff_lines_only(lines).len(),
    ensures
        is_diff_origin(diff_lines_only(lines)[i].origin),
    decreases lines.len(),
{
    if lines.len() > 0 {
        let before = diff_lines_only(lines.drop_last());
        if i < before.len() {
            lemma_diff_lines_origins(lines.drop_last(), i);
        }
    }
}

/// The text of an optional path, empty where there is none.
pub open spec fn path_or_empty(path: Option<String>) -> Seq<char> {
    match path {
        Some(p) => p@,
        None => Seq::<char>::empty(),
    }
}

/// The old side's path in a patch: `/dev/null` for an added file, else
/// `a/` followed by the path.
pub open spec fn old_side_path(status: FileStatus, old_file: Seq<char>) -> Seq<char> {
    if status == FileStatus::Added {
        "/dev/null"@
    } else {
        "a/"@ + old_file
    }
}

/// The new side's path in a patch: `/dev/null` for a deleted file, else
/// `b/` followed by the path.
pub open spec fn new_side_path(status: FileStatus, new_file: Seq<char>) -> Seq<char> {
    if status == FileStatus::Deleted {
        "/dev/null"@
    } else {
        "b/"@ + new_file
    }
}

/// A hunk as the diff keeps it: its header trimmed, its change and context
/// lines only.
pub open spec fn kept_hunk(h: HunkView) -> HunkView {
    HunkView {
        header: trim(h.header),
        old_start: h.old_start,
        old_lines: h.old_lines,
        new_start: h.new_start,
        new_lines: h.new_lines,
        lines: diff_lines_only(h.lines),
    }
}

/// The lines of `lines` whose origin is `+`, `-` or a space.
fn keep_diff_lines(lines: &[DiffLine]) -> (r: Vec<DiffLine>)
    ensures
        line_views(r@) == diff_lines_only(line_views(lines@)),
{
    let ghost views = line_views(lines@);
    let mut r: Vec<DiffLine> = Vec::new();
    let len = lines.len();
    for i in 0..len
        invariant
            len == lines@.len(),
            views == line_views(lines@),
            line_views(r@) == diff_lines_only(views.take(i as int)),
    {
        assert(views.take(i + 1).drop_last() =~= views.take(i as int));
        let line = &lines[i];
        assert(views[i as int] == line@);
        let origin = line.origin;
        let ghost before = line_views(r@);
        if origin == '+' || origin == '-' || origin == ' ' {
            r.push(DiffLine { origin, content: line.content.clone() });
        }
        assert(line_views(r@) =~= diff_lines_only(views.take(i + 1)));
    }
    assert(views.take(len as int) =~= views);
    r
}

/// Builds the diff of the file at `path` from what the repository reports:
/// how the file changed, its old and new path, and its hunks. The paths are
/// prefixed `a/` and `b/` (or replaced by `/dev/null` on the side where the
/// file does not exist), each header is trimmed, and only change and context
/// lines are kept. A file with no hunk has no changes.
pub fn build_file_diff(
    path: &str,
    status: FileStatus,
    old_file: Option<String>,
    new_file: Option<String>,
    raw_hunks: Vec<Hunk>,
) -> (r: Result<FileDiff, DiffError>)
    ensures
        r is Err <==> raw_hunks@.len() == 0,
        r matches Err(DiffError::NoChanges(p)) ==> p@ == path@,
        r matches Ok(fd) ==> fd@ == (FileDiffView {
            old_path: old_side_path(status, path_or_empty(old_file)),
            new_path: new_side_path(status, path_or_empty(new_file)),
            hunks: hunk_views(raw_hunks@).map_values(|h: HunkView| kept_hunk(h)),
        }),
        r matches Ok(fd) ==> forall|k: int, i: int|
            0 <= k < fd@.hunks.len() && 0 <= i < fd@.hunks[k].lines.len() ==> {
                let o = #[trigger] fd@.hunks[k].lines[i].origin;
                o == '+' || o == '-' || o == ' '
            },
{
    if raw_hunks.len() == 0 {
        return Err(DiffError::NoChanges(path.to_owned()));
    }
    let old_name = match old_file {
        Some(p) => p,
        None => String::new(),
    };
    let new_name = match new_file {
        Some(p) => p,
        None => String::new(),
    };
    let mut old_path = String::new();
    if status == FileStatus::Added {
        old_path.append("/dev/null");
    } else {
        old_path.append("a/");
        old_path.append(old_name.as_str());
    }
    let mut new_path = String::new();
    if status == FileStatus::Deleted {
        new_path.append("/dev/null");
    } else {
        new_path.append("b/");
        new_path.append(new_name.as_str());
    }

    let ghost raw = hunk_views(raw_hunks@);
    let mut hunks: Vec<Hunk> = Vec::new();
    let n = raw_hunks.len();
    for k in 0..n
        invariant
            n == raw_hunks@.len(),
            raw == hunk_views(raw_hunks@),
            hunk_views(hunks@) == raw.take(k as int).map_values(|h: HunkView| kept_hunk(h)),
    {
        let raw_hunk = &raw_hunks[k];
        assert(raw[k as int] == raw_hunk@);
        let header_chars = chars_of(raw_hunk.header.as_str());
        let header = string_from_chars(trim_chars(header_chars.as_slice()).as_slice());
        let lines = keep_diff_lines(raw_hunk.lines.as_slice());
        let ghost before = hunk_views(hunks@);
        let hunk = Hunk {
            header,
            old_start: raw_hunk.old_start,
            old_lines: raw_hunk.old_lines,
            new_start: raw_hunk.new_start,
            new_lines: raw_hunk.new_lines,
            lines,
        };
        assert(hunk@ == kept_hunk(raw[k as int]));
        hunks.push(hunk);
        assert(hunk_views(hunks@) =~= before.push(kept_hunk(raw[k as int])));
        assert(hunk_views(hunks@) =~= raw.take(k + 1).map_values(|h: HunkView| kept_hunk(h)));
    }
    assert(raw.take(n as int) =~= raw);
    assert forall|k: int, i: int|
        0 <= k < hunks@.len() && 0 <= i < hunk_views(hunks@)[k].lines.len() implies {
        let o = #[trigger] hunk_views(hunks@)[k].lines[i].origin;
        o == '+' || o == '-' || o == ' '
    } by {
        lemma_diff_lines_origins(raw[k].lines, i);
    }
    Ok(FileDiff { old_path, new_path, hunks })
}

} // verus!
