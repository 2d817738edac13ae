//! Building the file diffs of a repository diff from the stream of events a
//! diff walk reports: a file, a binary marker, a hunk header, a line.
//!
//! The events arrive in walk order. A binary marker, hunk or line belongs to
//! the last file reported; hunks and lines of a binary file are dropped, and a
//! line belongs to the last hunk of its file.
use vstd::prelude::*;
use vstd::utf8::{decode_utf8, valid_utf8};

use crate::models::{DiffFileStatus, DiffHunk, DiffLine, DiffLineType, FileDiff};

verus! {

// ---------------------------------------------------------------------------
// Text of raw bytes
// ---------------------------------------------------------------------------

/// Calls `std::str::from_utf8`: the text of `b` where it is valid UTF-8, else
/// the text of the outside error (left unsaid).
#[verifier::external_body]
pub(crate) fn utf8_str(b: &[u8]) -> (r: Result<String, String>)
    ensures
        r is Ok <==> valid_utf8(b@),
        r matches Ok(s) ==> s@ == decode_utf8(b@),
{
    match std::str::from_utf8(b) {
        Ok(s) => Ok(s.to_owned()),
        Err(e) => Err(e.to_string()),
    }
}

/// The text of `b` where it is valid UTF-8, else the empty string.
pub(crate) fn utf8_or_empty(b: &[u8]) -> (r: String)
    ensures
        r@ == text_of(b@),
{
    match utf8_str(b) {
        Ok(s) => s,
        Err(_) => String::new(),
    }
}

/// The text of `s` once `str::trim_end` has removed its trailing whitespace.
pub uninterp spec fn without_trailing_whitespace(s: Seq<char>) -> Seq<char>;

/// Calls `str::trim_end`. Its result is named `without_trailing_whitespace`
/// of the input, and is a prefix of it; which characters count as whitespace
/// is left unsaid.
#[verifier::external_body]
fn trim_end(s: &str) -> (r: String)
    ensures
        r@ == without_trailing_whitespace(s@),
        r@.len() <= s@.len(),
        r@ == s@.subrange(0, r@.len() as int),
{
    s.trim_end().to_owned()
}

/// The text of raw bytes: their UTF-8 decoding, or empty where they are not UTF-8.
pub open spec fn text_of(b: Seq<u8>) -> Seq<char> {
    if valid_utf8(b) {
        decode_utf8(b)
    } else {
        Seq::empty()
    }
}

// ---------------------------------------------------------------------------
// Events
// ---------------------------------------------------------------------------

/// The change kind a diff walk reports for a file.
#[derive(Debug, Clone, Copy, PartialEq, Eq)]
pub enum DeltaStatus {
    Unmodified,
    Added,
    Deleted,
    Modified,
    Renamed,
    Copied,
    Ignored,
    Untracked,
    Typechange,
    Unreadable,
    Conflicted,
}

/// One event of a diff walk.
#[derive(Debug, Clone)]
pub enum DiffEvent {
    /// A file: its path on the new and on the old side, its change kind, and
    /// whether the walk already knows it is binary.
    File { new_path: Option<String>, old_path: Option<String>, status: DeltaStatus, is_binary: bool },
    /// The last file has binary content.
    Binary,
    /// A hunk of the last file: its raw header and its ranges.
    Hunk { header: Vec<u8>, old_start: u32, old_lines: u32, new_start: u32, new_lines: u32 },
    /// A line of the last hunk: its origin marker, line numbers and raw content.
    Line { origin: char, old_lineno: Option<u32>, new_lineno: Option<u32>, content: Vec<u8> },
}

/// A diff line as values.
pub ghost struct LineView {
    pub origin: DiffLineType,
    pub old_lineno: Option<u32>,
    pub new_lineno: Option<u32>,
    pub content: Seq<char>,
}

/// A hunk as values.
pub ghost struct HunkView {
    pub header: Seq<char>,
    pub old_start: u32,
    pub old_lines: u32,
    pub new_start: u32,
    pub new_lines: u32,
    pub lines: Seq<LineView>,
}

/// A file diff as values.
pub ghost struct FileView {
    pub path: Seq<char>,
    pub old_path: Option<Seq<char>>,
    pub status: DiffFileStatus,
    pub hunks: Seq<HunkView>,
    pub is_binary: bool,
}

pub open spec fn line_view(l: DiffLine) -> LineView {
    LineView { origin: l.origin, old_lineno: l.old_lineno, new_lineno: l.new_lineno, content: l.content@ }
}

pub open spec fn hunk_view(h: DiffHunk) -> HunkView {
    HunkView {
        header: h.header@,
        old_start: h.old_start,
        old_lines: h.old_lines,
        new_start: h.new_start,
        new_lines: h.new_lines,
        lines: h.lines@.map_values(|l: DiffLine| line_view(l)),
    }
}

pub open spec fn opt_text(o: Option<String>) -> Option<Seq<char>> {
    match o {
        Some(s) => Some(s@),
        None => None,
    }
}

pub open spec fn file_view(f: FileDiff) -> FileView {
    FileView {
        path: f.path@,
        old_path: opt_text(f.old_path),
        status: f.status,
        hunks: f.hunks@.map_values(|h: DiffHunk| hunk_view(h)),
        is_binary: f.is_binary,
    }
}

pub open spec fn files_view(fs: Seq<FileDiff>) -> Seq<FileView> {
    fs.map_values(|f: FileDiff| file_view(f))
}

/// The file status that a change kind is shown with.
pub open spec fn spec_file_status(s: DeltaStatus) -> DiffFileStatus {
    match s {
        DeltaStatus::Added | DeltaStatus::Untracked => DiffFileStatus::Added,
        DeltaStatus::Deleted => DiffFileStatus::Deleted,
        DeltaStatus::Renamed => DiffFileStatus::Renamed,
        DeltaStatus::Copied => DiffFileStatus::Copied,
        _ => DiffFileStatus::Modified,
    }
}

/// The line kind an origin marker stands for: `+`, `-` or a space.
pub open spec fn spec_line_type(origin: char) -> Option<DiffLineType> {
    if origin == '+' {
        Some(DiffLineType::Addition)
    } else if origin == '-' {
        Some(DiffLineType::Deletion)
    } else if origin == ' ' {
        Some(DiffLineType::Context)
    } else {
        None
    }
}

/// The files after one more event.
pub open spec fn diff_step(st: Seq<FileView>, ev: DiffEvent) -> Seq<FileView> {
    match ev {
        DiffEvent::File { new_path, old_path, status, is_binary } => {
            let path = match new_path {
                Some(p) => p@,
                None => match old_path {
                    Some(p) => p@,
                    None => Seq::empty(),
                },
            };
            let old = if status is Renamed || status is Copied {
                opt_text(old_path)
            } else {
                None
            };
            st.push(
                FileView {
                    path,
                    old_path: old,
                    status: spec_file_status(status),
                    hunks: Seq::empty(),
                    is_binary,
                },
            )
        },
        DiffEvent::Binary => {
            if st.len() == 0 {
                st
            } else {
                st.update(st.len() - 1, FileView { is_binary: true, ..st.last() })
            }
        },
        DiffEvent::Hunk { header, old_start, old_lines, new_start, new_lines } => {
            if st.len() == 0 || st.last().is_binary {
                st
            } else {
                let h = HunkView {
                    header: without_trailing_whitespace(text_of(header@)),
                    old_start,
                    old_lines,
                    new_start,
                    new_lines,
                    lines: Seq::empty(),
                };
                st.update(st.len() - 1, FileView { hunks: st.last().hunks.push(h), ..st.last() })
            }
        },
        DiffEvent::Line { origin, old_lineno, new_lineno, content } => {
            if st.len() == 0 || st.last().is_binary || st.last().hunks.len() == 0 || spec_line_type(origin) is None {
                st
            } else {
                let f = st.last();
                let h = f.hunks.last();
                let l = LineView { origin: spec_line_type(origin)->0, old_lineno, new_lineno, content: text_of(content@) };
                let h2 = HunkView { lines: h.lines.push(l), ..h };
                st.update(st.len() - 1, FileView { hunks: f.hunks.update(f.hunks.len() - 1, h2), ..f })
            }
        },
    }
}

/// A line event adds the line at the end of the last hunk of the last file,
/// with the kind its origin marker names, and changes nothing else; it is
/// dropped when there is no such hunk (no file, a binary file, a file with no
/// hunk yet) or when its origin is not `+`, `-` or a space.
pub proof fn lemma_line_goes_to_last_hunk(
    st: Seq<FileView>,
    origin: char,
    old_lineno: Option<u32>,
    new_lineno: Option<u32>,
    content: Vec<u8>,
)
    ensures
        ({
            let st2 = diff_step(st, DiffEvent::Line { origin, old_lineno, new_lineno, content });
            let known = origin == '+' || origin == '-' || origin == ' ';
            if st.len() > 0 && !st.last().is_binary && st.last().hunks.len() > 0 && known {
                let n = st.last().hunks.len() as int;
                let f = st.last();
                let f2 = st2.last();
                let h = f.hunks[n - 1];
                let h2 = f2.hunks[n - 1];
                &&& st2.len() == st.len()
                &&& forall|i: int| 0 <= i < st.len() - 1 ==> #[trigger] st2[i] == st[i]
                &&& f2.path == f.path && f2.old_path == f.old_path && f2.status == f.status && f2.is_binary
                    == f.is_binary
                &&& f2.hunks.len() == n
                &&& forall|k: int| 0 <= k < n - 1 ==> #[trigger] f2.hunks[k] == f.hunks[k]
                &&& h2.header == h.header && h2.old_start == h.old_start && h2.old_lines == h.old_lines
                    && h2.new_start == h.new_start && h2.new_lines == h.new_lines
                &&& h2.lines.len() == h.lines.len() + 1
                &&& forall|k: int| 0 <= k < h.lines.len() ==> #[trigger] h2.lines[k] == h.lines[k]
                &&& h2.lines.last().old_lineno == old_lineno
                &&& h2.lines.last().new_lineno == new_lineno
                &&& h2.lines.last().content == text_of(content@)
                &&& (origin == '+' ==> h2.lines.last().origin is Addition)
                &&& (origin == '-' ==> h2.lines.last().origin is Deletion)
                &&& (origin == ' ' ==> h2.lines.last().origin is Context)
            } else {
                st2 == st
            }
        }),
{
}

/// A file event appends one file with no hunks, and leaves the files before
/// it as they were; its path is the new-side path, else the old-side one, and
/// it keeps the old-side path only for a rename or a copy. A binary event
/// marks the last file binary and changes nothing else.
pub proof fn lemma_file_and_binary_events(
    st: Seq<FileView>,
    new_path: Option<String>,
    old_path: Option<String>,
    status: DeltaStatus,
    is_binary: bool,
)
    ensures
        ({
            let st2 = diff_step(st, DiffEvent::File { new_path, old_path, status, is_binary });
            let f = st2.last();
            &&& st2.len() == st.len() + 1
            &&& forall|i: int| 0 <= i < st.len() ==> #[trigger] st2[i] == st[i]
            &&& f.hunks.len() == 0
            &&& f.is_binary == is_binary
            &&& (new_path matches Some(p) ==> f.path == p@)
            &&& (new_path is None ==> (old_path matches Some(p) ==> f.path == p@))
            &&& (new_path is None && old_path is None ==> f.path.len() == 0)
            &&& f.old_path == (if status is Renamed || status is Copied {
                opt_text(old_path)
            } else {
                None
            })
        }),
        ({
            let st2 = diff_step(st, DiffEvent::Binary);
            &&& st2.len() == st.len()
            &&& forall|i: int| 0 <= i < st.len() - 1 ==> #[trigger] st2[i] == st[i]
            &&& st.len() > 0 ==> st2.last().is_binary && st2.last().hunks == st.last().hunks && st2.last().path
                == st.last().path && st2.last().old_path == st.last().old_path && st2.last().status
                == st.last().status
        }),
{
}

/// A hunk event opens a new, empty hunk at the end of the last file when that
/// file is not binary, and changes nothing else.
pub proof fn lemma_hunk_opens_after_last(
    st: Seq<FileView>,
    header: Vec<u8>,
    old_start: u32,
    old_lines: u32,
    new_start: u32,
    new_lines: u32,
)
    ensures
        ({
            let st2 = diff_step(st, DiffEvent::Hunk { header, old_start, old_lines, new_start, new_lines });
            if st.len() > 0 && !st.last().is_binary {
                let f = st.last();
                let f2 = st2.last();
                let n = f.hunks.len() as int;
                &&& st2.len() == st.len()
                &&& forall|i: int| 0 <= i < st.len() - 1 ==> #[trigger] st2[i] == st[i]
                &&& f2.path == f.path && f2.old_path == f.old_path && f2.status == f.status && !f2.is_binary
                &&& f2.hunks.len() == n + 1
                &&& forall|k: int| 0 <= k < n ==> #[trigger] f2.hunks[k] == f.hunks[k]
                &&& f2.hunks[n].lines.len() == 0
                &&& f2.hunks[n].old_start == old_start && f2.hunks[n].old_lines == old_lines
                    && f2.hunks[n].new_start == new_start && f2.hunks[n].new_lines == new_lines
            } else {
                st2 == st
            }
        }),
{
}

/// The files after the first `k` events.
pub open spec fn diff_fold(events: Seq<DiffEvent>, k: int) -> Seq<FileView>
    decreases k,
{
    if k <= 0 {
        Seq::empty()
    } else {
        diff_step(diff_fold(events, k - 1), events[k - 1])
    }
}

/// The file diffs of a whole walk.
pub open spec fn spec_parse_diff(events: Seq<DiffEvent>) -> Seq<FileView> {
    diff_fold(events, events.len() as int)
}

// ---------------------------------------------------------------------------
// Implementation
// ---------------------------------------------------------------------------

fn file_status(s: DeltaStatus) -> (r: DiffFileStatus)
    ensures
        r == spec_file_status(s),
{
    match s {
        DeltaStatus::Added | DeltaStatus::Untracked => DiffFileStatus::Added,
        DeltaStatus::Deleted => DiffFileStatus::Deleted,
        DeltaStatus::Renamed => DiffFileStatus::Renamed,
        DeltaStatus::Copied => DiffFileStatus::Copied,
        _ => DiffFileStatus::Modified,
    }
}

fn clone_opt(o: &Option<String>) -> (r: Option<String>)
    ensures
        opt_text(r) == opt_text(*o),
{
    match o {
        Some(s) => Some(s.clone()),
        None => None,
    }
}

/// Apply one walk event to the file diffs gathered so far.
pub fn apply_diff_event(files: &mut Vec<FileDiff>, ev: &DiffEvent)
    ensures
        files_view(final(files)@) == diff_step(files_view(old(files)@), *ev),
{
    let ghost st = files_view(files@);
    match ev {
        DiffEvent::File { new_path, old_path, status, is_binary } => {
            let path = match new_path {
                Some(p) => p.clone(),
                None => match old_path {
                    Some(p) => p.clone(),
                    None => String::new(),
                },
            };
            let old = match status {
                DeltaStatus::Renamed | DeltaStatus::Copied => clone_opt(old_path),
                _ => None,
            };
            let f = FileDiff { path, old_path: old, status: file_status(*status), hunks: Vec::new(), is_binary: *is_binary };
            proof {
                assert(file_view(f).hunks =~= Seq::<HunkView>::empty());
                assert(file_view(f) == diff_step(st, *ev).last());
            }
            files.push(f);
            proof {
                assert(files_view(files@) =~= diff_step(st, *ev));
            }
        },
        DiffEvent::Binary => {
            if files.len() > 0 {
                let mut last = files.pop().unwrap();
                last.is_binary = true;
                files.push(last);
                proof {
                    assert(files_view(files@) =~= diff_step(st, *ev));
                }
            }
        },
        DiffEvent::Hunk { header, old_start, old_lines, new_start, new_lines } => {
            if files.len() > 0 && !files[files.len() - 1].is_binary {
                let mut last = files.pop().unwrap();
                let ghost last_old = last;
                let text = utf8_or_empty(header.as_slice());
                let header_text = trim_end(text.as_str());
                last.hunks.push(
                    DiffHunk {
                        header: header_text,
                        old_start: *old_start,
                        old_lines: *old_lines,
                        new_start: *new_start,
                        new_lines: *new_lines,
                        lines: Vec::new(),
                    },
                );
                proof {
                    assert(last.hunks@.map_values(|h: DiffHunk| hunk_view(h)) =~= last_old.hunks@.map_values(
                        |h: DiffHunk| hunk_view(h),
                    ).push(hunk_view(last.hunks@.last())));
                    assert(hunk_view(last.hunks@.last()).lines =~= Seq::<LineView>::empty());
                }
                files.push(last);
                proof {
                    assert(files_view(files@) =~= diff_step(st, *ev));
                }
            }
        },
        DiffEvent::Line { origin, old_lineno, new_lineno, content } => {
            if files.len() > 0 && !files[files.len() - 1].is_binary && files[files.len() - 1].hunks.len() > 0 {
                let kind = if *origin == '+' {
                    Some(DiffLineType::Addition)
                } else if *origin == '-' {
                    Some(DiffLineType::Deletion)
                } else if *origin == ' ' {
                    Some(DiffLineType::Context)
                } else {
                    None
                };
                match kind {
                    Some(k) => {
                        let mut last = files.pop().unwrap();
                        let ghost last_old = last;
                        let mut hunk = last.hunks.pop().unwrap();
                        let ghost hunk_old = hunk;
                        let text = utf8_or_empty(content.as_slice());
                        hunk.lines.push(DiffLine { origin: k, old_lineno: *old_lineno, new_lineno: *new_lineno, content: text });
                        proof {
                            assert(hunk.lines@.map_values(|l: DiffLine| line_view(l)) =~= hunk_old.lines@.map_values(
                                |l: DiffLine| line_view(l),
                            ).push(line_view(hunk.lines@.last())));
                        }
                        last.hunks.push(hunk);
                        proof {
                            assert(last.hunks@.map_values(|h: DiffHunk| hunk_view(h)) =~= last_old.hunks@.map_values(
                                |h: DiffHunk| hunk_view(h),
                            ).update(last_old.hunks@.len() - 1, hunk_view(hunk)));
                        }
                        files.push(last);
                        proof {
                            assert(files_view(files@) =~= diff_step(st, *ev));
                        }
                    },
                    None => {},
                }
            }
        },
    }
}

/// The file diffs of a whole diff walk.
pub fn parse_diff_events(events: &[DiffEvent]) -> (r: Vec<FileDiff>)
    ensures
        files_view(r@) == spec_parse_diff(events@),
{
    let mut files: Vec<FileDiff> = Vec::new();
    let mut k: usize = 0;
    assert(files_view(files@) =~= Seq::<FileView>::empty());
    while k < events.len()
        invariant
            k <= events@.len(),
            files_view(files@) == diff_fold(events@, k as int),
        decreases events@.len() - k,
    {
        apply_diff_event(&mut files, &events[k]);
        k = k + 1;
    }
    files
}

pub struct DiffService;

impl DiffService {
    pub fn new() -> Self {
        DiffService
    }

    /// Gather the file diffs of a diff walk from its events.
    pub fn parse_diff(&self, events: &[DiffEvent]) -> (r: Vec<FileDiff>)
        ensures
            files_view(r@) == spec_parse_diff(events@),
    {
        parse_diff_events(events)
    }
}

} // verus!
