//! Blame: the attribution of each line of a file to the commit that last changed it.
use vstd::prelude::*;

use crate::diff_service::{text_of, utf8_or_empty, utf8_str};
use crate::error::GitError;
use vstd::utf8::{decode_utf8_encode_utf8, valid_utf8};
use crate::models::{BlameInfo, BlameLine};
use crate::staging_service::{byte_lines, lines_of, split_lines};
use vstd::string::StringSliceAdditionalSpecFns;

verus! {

pub struct BlameService;

/// The blame hunk that covers a line: its commit, author, date and where it
/// starts in the original and in the final file (1-based).
#[derive(Debug, Clone)]
pub struct BlameHunk {
    pub commit_id: String,
    pub author: Option<String>,
    pub date: i64,
    pub orig_start: usize,
    pub final_start: usize,
}

/// The line number a hunk gives line `n` in its original file.
pub open spec fn original_line(h: BlameHunk, n: u32) -> int {
    (h.orig_start as u32) + (n - (h.final_start as u32))
}

/// The hunk of a line can be used: it starts at or before the line, and the
/// original line number fits.
pub open spec fn hunk_fits(h: BlameHunk, n: u32) -> bool {
    &&& (h.final_start as u32) <= n
    &&& original_line(h, n) <= u32::MAX
}

/// The attribution of line `i` (0-based) with text `content` to hunk `h`.
pub open spec fn blame_line_matches(l: BlameLine, i: int, content: Seq<char>, h: BlameHunk) -> bool {
    &&& l.line_number == (i + 1) as u32
    &&& l.content@ == content
    &&& l.commit_id@ == h.commit_id@
    &&& l.author@ == (match h.author {
        Some(a) => a@,
        None => "Unknown"@,
    })
    &&& l.date == h.date
    &&& l.original_line == original_line(h, (i + 1) as u32)
}

/// The lines that have a hunk, attributed, in order.
pub open spec fn spec_blame_lines(lines: Seq<String>, hunks: Seq<Option<BlameHunk>>, k: int) -> Seq<(int, Seq<char>, BlameHunk)>
    decreases k,
{
    if k <= 0 {
        Seq::empty()
    } else {
        let rest = spec_blame_lines(lines, hunks, k - 1);
        match hunks[k - 1] {
            Some(h) => rest.push((k - 1, lines[k - 1]@, h)),
            None => rest,
        }
    }
}

/// The lines of a file's content read from the repository: an invalid
/// argument, carrying the decoder's message, when the bytes are not UTF-8 text.
pub fn blob_lines(content: &[u8]) -> (r: Result<Vec<String>, GitError>)
    ensures
        r is Ok <==> valid_utf8(content@),
        r matches Ok(v) ==> v@.map_values(|s: String| s@) == lines_of(content@).map_values(|l: Seq<u8>| text_of(l)),
        r matches Err(e) ==> e is InvalidArgument,
{
    match utf8_str(content) {
        Ok(s) => {
            proof {
                decode_utf8_encode_utf8(content@);
            }
            let t = s.as_str();
            assert(t.spec_bytes() == content@);
            Ok(text_lines(t))
        },
        Err(m) => Err(GitError::InvalidArgument(m)),
    }
}

/// The text of a file split into lines as `str::lines` does; a line that is
/// not valid text on its own is empty.
pub fn text_lines(content: &str) -> (r: Vec<String>)
    ensures
        r@.map_values(|s: String| s@) == lines_of(content.spec_bytes()).map_values(|l: Seq<u8>| text_of(l)),
{
    let ls = split_lines(content.as_bytes());
    let ghost bl = byte_lines(ls@);
    let mut r: Vec<String> = Vec::new();
    let mut k: usize = 0;
    while k < ls.len()
        invariant
            k <= ls@.len(),
            bl == byte_lines(ls@),
            r@.map_values(|s: String| s@) == bl.take(k as int).map_values(|l: Seq<u8>| text_of(l)),
        decreases ls@.len() - k,
    {
        let t = utf8_or_empty(ls[k].as_slice());
        let ghost before = r@.map_values(|s: String| s@);
        r.push(t);
        assert(r@.map_values(|s: String| s@) =~= before.push(text_of(bl[k as int])));
        assert(bl.take(k + 1).map_values(|l: Seq<u8>| text_of(l)) =~= bl.take(k as int).map_values(
            |l: Seq<u8>| text_of(l),
        ).push(text_of(bl[k as int])));
        k = k + 1;
    }
    assert(bl.take(bl.len() as int) =~= bl);
    r
}


impl BlameService {
    pub fn new() -> Self {
        BlameService
    }

    /// Attribute each line of a file to the blame hunk that covers it; lines
    /// without a hunk are left out. A hunk without an author name shows "Unknown".
    pub fn blame(&self, path: String, lines: &Vec<String>, hunks: &Vec<Option<BlameHunk>>) -> (r: BlameInfo)
        requires
            hunks@.len() == lines@.len(),
            forall|i: int|
                0 <= i < hunks@.len() ==> (#[trigger] hunks@[i] matches Some(h) ==> hunk_fits(h, (i + 1) as u32)),
        ensures
            r.path == path,
            r.lines@.len() == spec_blame_lines(lines@, hunks@, lines@.len() as int).len(),
            forall|j: int|
                0 <= j < r.lines@.len() ==> {
                    let (i, c, h) = spec_blame_lines(lines@, hunks@, lines@.len() as int)[j];
                    blame_line_matches(#[trigger] r.lines@[j], i, c, h)
                },
    {
        let mut out: Vec<BlameLine> = Vec::new();
        let mut i: usize = 0;
        while i < lines.len()
            invariant
                i <= lines@.len(),
                hunks@.len() == lines@.len(),
                forall|m: int|
                    0 <= m < hunks@.len() ==> (#[trigger] hunks@[m] matches Some(h) ==> hunk_fits(h, (m + 1) as u32)),
                out@.len() == spec_blame_lines(lines@, hunks@, i as int).len(),
                forall|j: int|
                    0 <= j < out@.len() ==> {
                        let (m, c, h) = spec_blame_lines(lines@, hunks@, i as int)[j];
                        blame_line_matches(#[trigger] out@[j], m, c, h)
                    },
            decreases lines@.len() - i,
        {
            let line_no = (i as u64 + 1) as u32;
            assert(line_no == (i + 1) as u32) by (bit_vector)
                requires
                    line_no == (i as u64 + 1) as u32,
                    i < 0xffff_ffff_ffff_ffffu64,
            ;
            match &hunks[i] {
                Some(h) => {
                    assert(hunks@[i as int] matches Some(x) ==> hunk_fits(x, (i + 1) as u32));
                    let author = match &h.author {
                        Some(a) => a.clone(),
                        None => "Unknown".to_owned(),
                    };
                    let orig = h.orig_start as u32 + (line_no - h.final_start as u32);
                    out.push(
                        BlameLine {
                            line_number: line_no,
                            content: lines[i].clone(),
                            commit_id: h.commit_id.clone(),
                            author,
                            date: h.date,
                            original_line: orig,
                        },
                    );
                },
                None => {},
            }
            i = i + 1;
        }
        BlameInfo { path, lines: out }
    }
}

} // verus!
