//! Line-level staging: a longest-common-subsequence diff between two versions
//! of a file, and the version that results from applying (or reverting) only
//! the changed lines inside chosen ranges.
//!
//! Texts are handled as their UTF-8 bytes; lines are split as `str::lines`
//! splits them: at `\n`, with a `\r` just before it removed too.
use vstd::prelude::*;
use vstd::string::StringSliceAdditionalSpecFns;
use vstd::utf8::{
    decode_utf8, encode_utf8_valid_utf8, is_char_boundary_iff_not_is_continuation_byte, valid_utf8, valid_utf8_concat, valid_utf8_split,
};

use crate::diff_service::utf8_or_empty;
use crate::models::{FileStatus, FileStatusType, LineRange};

verus! {

// ---------------------------------------------------------------------------
// Lines
// ---------------------------------------------------------------------------

/// `l` without one trailing carriage return.
pub open spec fn strip_cr(l: Seq<u8>) -> Seq<u8> {
    if l.len() > 0 && l.last() == 13u8 {
        l.drop_last()
    } else {
        l
    }
}

/// The first position from `k` on where `s` holds a line feed.
pub open spec fn find_newline(s: Seq<u8>, k: int) -> Option<int>
    decreases s.len() - k,
{
    if 0 <= k < s.len() {
        if s[k] == 10u8 {
            Some(k)
        } else {
            find_newline(s, k + 1)
        }
    } else {
        None
    }
}

/// The lines of a text: each ends at a line feed, which is dropped together
/// with a carriage return just before it; the last line needs no line feed,
/// and a text that ends with one has no empty last line.
pub open spec fn lines_of(s: Seq<u8>) -> Seq<Seq<u8>>
    decreases s.len(),
{
    if s.len() == 0 {
        Seq::empty()
    } else {
        match find_newline(s, 0) {
            Some(k) => {
                if 0 <= k < s.len() {
                    seq![strip_cr(s.subrange(0, k))] + lines_of(s.subrange(k + 1, s.len() as int))
                } else {
                    Seq::empty()
                }
            },
            None => seq![s],
        }
    }
}

/// The bytes of each line.
pub open spec fn byte_lines(v: Seq<Vec<u8>>) -> Seq<Seq<u8>> {
    v.map_values(|l: Vec<u8>| l@)
}

proof fn lemma_find_newline(s: Seq<u8>, k: int)
    requires
        0 <= k,
    ensures
        find_newline(s, k) matches Some(i) ==> k <= i < s.len() && s[i] == 10u8 && forall|m: int|
            k <= m < i ==> s[m] != 10u8,
        find_newline(s, k) is None ==> forall|m: int| k <= m < s.len() ==> s[m] != 10u8,
    decreases s.len() - k,
{
    if 0 <= k < s.len() && s[k] != 10u8 {
        lemma_find_newline(s, k + 1);
    }
}

/// The first line feed of a window of `s`.
proof fn lemma_find_newline_window(s: Seq<u8>, from: int, to: int, r: int)
    requires
        0 <= from <= r <= to <= s.len(),
        forall|m: int| from <= m < r ==> s[m] != 10u8,
        r < to ==> s[r] == 10u8,
    ensures
        find_newline(s.subrange(from, to), 0) == (if r < to {
            Some(r - from)
        } else {
            None::<int>
        }),
{
    let w = s.subrange(from, to);
    lemma_find_newline(w, 0);
    match find_newline(w, 0) {
        Some(i) => {
            assert(w[i] == s[from + i]);
            if r < to && i > r - from {
                assert(w[r - from] == s[r]);
            }
        },
        None => {
            if r < to {
                assert(w[r - from] == s[r]);
            }
        },
    }
}

/// A copy of `s[from..to]`.
fn copy_range(s: &[u8], from: usize, to: usize) -> (r: Vec<u8>)
    requires
        from <= to <= s@.len(),
    ensures
        r@ == s@.subrange(from as int, to as int),
{
    let mut r: Vec<u8> = Vec::new();
    let mut k = from;
    while k < to
        invariant
            from <= k <= to <= s@.len(),
            r@ == s@.subrange(from as int, k as int),
        decreases to - k,
    {
        r.push(s[k]);
        assert(r@ =~= s@.subrange(from as int, k + 1));
        k = k + 1;
    }
    r
}

/// Split a text's bytes into lines as `str::lines` does.
pub fn split_lines(s: &[u8]) -> (r: Vec<Vec<u8>>)
    ensures
        byte_lines(r@) == lines_of(s@),
{
    let ghost t = s@;
    let mut r: Vec<Vec<u8>> = Vec::new();
    let mut start: usize = 0;
    let mut p: usize = 0;
    assert(t.subrange(0, t.len() as int) =~= t);
    while p < s.len()
        invariant
            t == s@,
            start <= p <= t.len(),
            forall|m: int| start <= m < p ==> t[m] != 10u8,
            byte_lines(r@) + lines_of(t.subrange(start as int, t.len() as int)) == lines_of(t),
        decreases t.len() - p,
    {
        if s[p] == 10u8 {
            let ghost rest = t.subrange(start as int, t.len() as int);
            proof {
                lemma_find_newline_window(t, start as int, t.len() as int, p as int);
                assert(rest.subrange(0, p - start) =~= t.subrange(start as int, p as int));
                assert(rest.subrange(p - start + 1, rest.len() as int) =~= t.subrange(p + 1, t.len() as int));
            }
            let mut line = copy_range(s, start, p);
            if line.len() > 0 && line[line.len() - 1] == 13u8 {
                line.pop();
            }
            let ghost r_old = byte_lines(r@);
            r.push(line);
            proof {
                assert(byte_lines(r@) =~= r_old.push(strip_cr(t.subrange(start as int, p as int))));
                assert(byte_lines(r@) + lines_of(t.subrange(p + 1, t.len() as int)) =~= r_old + lines_of(rest));
            }
            start = p + 1;
        }
        p = p + 1;
    }
    if start < s.len() {
        let ghost rest = t.subrange(start as int, t.len() as int);
        proof {
            lemma_find_newline_window(t, start as int, t.len() as int, t.len() as int);
        }
        let line = copy_range(s, start, s.len());
        let ghost r_old = byte_lines(r@);
        r.push(line);
        assert(byte_lines(r@) =~= r_old + lines_of(rest));
    } else {
        assert(byte_lines(r@) + lines_of(t.subrange(start as int, t.len() as int)) =~= byte_lines(r@));
    }
    r
}

// ---------------------------------------------------------------------------
// Line ranges
// ---------------------------------------------------------------------------

/// Line `line` lies in one of the inclusive `ranges`.
pub open spec fn in_ranges(line: u32, ranges: Seq<LineRange>) -> bool {
    exists|k: int| 0 <= k < ranges.len() && #[trigger] ranges[k].start <= line && line <= ranges[k].end
}

/// Check if a 1-based line number falls within any of the given ranges (inclusive).
pub fn line_in_ranges(line: u32, ranges: &[LineRange]) -> (b: bool)
    ensures
        b == in_ranges(line, ranges@),
{
    let mut k: usize = 0;
    while k < ranges.len()
        invariant
            k <= ranges@.len(),
            forall|m: int| 0 <= m < k ==> !(#[trigger] ranges@[m].start <= line && line <= ranges@[m].end),
        decreases ranges@.len() - k,
    {
        if line >= ranges[k].start && line <= ranges[k].end {
            assert(ranges@[k as int].start <= line && line <= ranges@[k as int].end);
            return true;
        }
        k = k + 1;
    }
    false
}


// ---------------------------------------------------------------------------
// Longest-common-subsequence diff
// ---------------------------------------------------------------------------

/// One step of a line diff, with a 1-based line number.
#[derive(Debug, Clone, Copy, PartialEq, Eq)]
pub enum DiffOp {
    /// The line is the same in both versions (its number in the changed version).
    Equal(u32),
    /// The line exists only in the changed version (its number there).
    Insert(u32),
    /// The line exists only in the base version (its number there).
    Delete(u32),
}

pub open spec fn max_nat(x: nat, y: nat) -> nat {
    if x >= y {
        x
    } else {
        y
    }
}

/// The length of a longest common subsequence of the first `i` lines of `a`
/// and the first `j` lines of `b`.
pub open spec fn lcs_len(a: Seq<Seq<u8>>, b: Seq<Seq<u8>>, i: int, j: int) -> nat
    decreases i, j,
{
    if i <= 0 || j <= 0 {
        0
    } else if a[i - 1] == b[j - 1] {
        lcs_len(a, b, i - 1, j - 1) + 1
    } else {
        max_nat(lcs_len(a, b, i - 1, j), lcs_len(a, b, i, j - 1))
    }
}

/// The diff of the first `i` lines of `a` against the first `j` of `b`, read
/// back from the table: a common last line is kept, else an insertion is
/// preferred when it keeps at least as long a common subsequence.
pub open spec fn diff_ops_upto(a: Seq<Seq<u8>>, b: Seq<Seq<u8>>, i: int, j: int) -> Seq<DiffOp>
    decreases j, i,
{
    if i <= 0 && j <= 0 {
        Seq::empty()
    } else if i > 0 && j > 0 && a[i - 1] == b[j - 1] {
        diff_ops_upto(a, b, i - 1, j - 1).push(DiffOp::Equal(j as u32))
    } else if j > 0 && (i <= 0 || lcs_len(a, b, i, j - 1) >= lcs_len(a, b, i - 1, j)) {
        diff_ops_upto(a, b, i, j - 1).push(DiffOp::Insert(j as u32))
    } else if i > 0 {
        diff_ops_upto(a, b, i - 1, j).push(DiffOp::Delete(i as u32))
    } else {
        Seq::empty()
    }
}

/// The diff of `a` against `b`.
pub open spec fn spec_diff_ops(a: Seq<Seq<u8>>, b: Seq<Seq<u8>>) -> Seq<DiffOp> {
    diff_ops_upto(a, b, a.len() as int, b.len() as int)
}

proof fn lemma_lcs_bounds(a: Seq<Seq<u8>>, b: Seq<Seq<u8>>, i: int, j: int)
    requires
        0 <= i,
        0 <= j,
    ensures
        lcs_len(a, b, i, j) <= i,
        lcs_len(a, b, i, j) <= j,
    decreases i, j,
{
    if i > 0 && j > 0 {
        lemma_lcs_bounds(a, b, i - 1, j - 1);
        lemma_lcs_bounds(a, b, i - 1, j);
        lemma_lcs_bounds(a, b, i, j - 1);
    }
}

/// Whether two lines hold the same bytes.
fn same_line(x: &Vec<u8>, y: &Vec<u8>) -> (b: bool)
    ensures
        b == (x@ == y@),
{
    if x.len() != y.len() {
        return false;
    }
    let mut k: usize = 0;
    while k < x.len()
        invariant
            k <= x@.len(),
            x@.len() == y@.len(),
            forall|m: int| 0 <= m < k ==> x@[m] == y@[m],
        decreases x@.len() - k,
    {
        if x[k] != y[k] {
            return false;
        }
        k = k + 1;
    }
    assert(x@ =~= y@);
    true
}

/// The table of longest-common-subsequence lengths, row `i` for the first `i` base lines.
fn lcs_table(base: &Vec<Vec<u8>>, changed: &Vec<Vec<u8>>) -> (dp: Vec<Vec<u32>>)
    requires
        base@.len() < u32::MAX,
        changed@.len() < u32::MAX,
    ensures
        dp@.len() == base@.len() + 1,
        forall|i: int| 0 <= i <= base@.len() ==> (#[trigger] dp@[i])@.len() == changed@.len() + 1,
        forall|i: int, j: int|
            0 <= i <= base@.len() && 0 <= j <= changed@.len() ==> #[trigger] dp@[i]@[j] == lcs_len(
                byte_lines(base@),
                byte_lines(changed@),
                i,
                j,
            ),
{
    let ghost a = byte_lines(base@);
    let ghost b = byte_lines(changed@);
    let m = base.len();
    let n = changed.len();
    let mut dp: Vec<Vec<u32>> = Vec::new();
    let mut row0: Vec<u32> = Vec::new();
    let mut j: usize = 0;
    while j <= n
        invariant
            j <= n + 1,
            n == changed@.len(),
            n < u32::MAX,
            row0@.len() == j,
            forall|c: int| 0 <= c < j ==> row0@[c] == 0,
        decreases n + 1 - j,
    {
        row0.push(0);
        j = j + 1;
    }
    dp.push(row0);
    let mut i: usize = 1;
    while i <= m
        invariant
            1 <= i <= m + 1,
            m == base@.len(),
            n == changed@.len(),
            m < u32::MAX,
            n < u32::MAX,
            a == byte_lines(base@),
            b == byte_lines(changed@),
            dp@.len() == i,
            forall|r: int| 0 <= r < i ==> (#[trigger] dp@[r])@.len() == n + 1,
            forall|r: int, c: int| 0 <= r < i && 0 <= c <= n ==> #[trigger] dp@[r]@[c] == lcs_len(a, b, r, c),
        decreases m + 1 - i,
    {
        let mut row: Vec<u32> = Vec::new();
        row.push(0);
        let mut j: usize = 1;
        while j <= n
            invariant
                1 <= i <= m,
                1 <= j <= n + 1,
                m == base@.len(),
                n == changed@.len(),
                m < u32::MAX,
            n < u32::MAX,
                a == byte_lines(base@),
                b == byte_lines(changed@),
                dp@.len() == i,
                forall|r: int| 0 <= r < i ==> (#[trigger] dp@[r])@.len() == n + 1,
                forall|r: int, c: int| 0 <= r < i && 0 <= c <= n ==> #[trigger] dp@[r]@[c] == lcs_len(a, b, r, c),
                row@.len() == j,
                forall|c: int| 0 <= c < j ==> row@[c] == lcs_len(a, b, i as int, c),
            decreases n + 1 - j,
        {
            let prev = &dp[i - 1];
            assert(dp@[i - 1]@.len() == n + 1);
            let v: u32 = if same_line(&base[i - 1], &changed[j - 1]) {
                proof {
                    lemma_lcs_bounds(a, b, i - 1, j - 1);
                    assert(dp@[i - 1]@[j - 1] == lcs_len(a, b, i - 1, j - 1));
                }
                prev[j - 1] + 1
            } else {
                let up = prev[j];
                let left = row[j - 1];
                assert(dp@[i - 1]@[j as int] == lcs_len(a, b, i - 1, j as int));
                if up >= left {
                    up
                } else {
                    left
                }
            };
            row.push(v);
            j = j + 1;
        }
        dp.push(row);
        i = i + 1;
    }
    dp
}

/// Compute diff operations between base and changed line arrays.
/// Returns a sequence of Equal/Insert/Delete operations with 1-based line numbers.
pub fn compute_diff_ops(base: &Vec<Vec<u8>>, changed: &Vec<Vec<u8>>) -> (ops: Vec<DiffOp>)
    requires
        base@.len() < u32::MAX,
        changed@.len() < u32::MAX,
    ensures
        ops@ == spec_diff_ops(byte_lines(base@), byte_lines(changed@)),
{
    let ghost a = byte_lines(base@);
    let ghost b = byte_lines(changed@);
    let dp = lcs_table(base, changed);
    let m = base.len();
    let n = changed.len();
    let mut rev: Vec<DiffOp> = Vec::new();
    let mut i = m;
    let mut j = n;
    while i > 0 || j > 0
        invariant
            i <= m,
            j <= n,
            m == base@.len(),
            n == changed@.len(),
            m < u32::MAX,
            n < u32::MAX,
            n <= u32::MAX,
            a == byte_lines(base@),
            b == byte_lines(changed@),
            dp@.len() == m + 1,
            forall|r: int| 0 <= r <= m ==> (#[trigger] dp@[r])@.len() == n + 1,
            forall|r: int, c: int| 0 <= r <= m && 0 <= c <= n ==> #[trigger] dp@[r]@[c] == lcs_len(a, b, r, c),
            diff_ops_upto(a, b, m as int, n as int) == diff_ops_upto(a, b, i as int, j as int) + Seq::new(
                rev@.len(),
                |k: int| rev@[rev@.len() - 1 - k],
            ),
        decreases i + j,
    {
        let ghost before = Seq::new(rev@.len(), |k: int| rev@[rev@.len() - 1 - k]);
        let op;
        if i > 0 && j > 0 && same_line(&base[i - 1], &changed[j - 1]) {
            op = DiffOp::Equal(j as u32);
            i = i - 1;
            j = j - 1;
        } else if j > 0 && (i == 0 || dp[i][j - 1] >= dp[i - 1][j]) {
            proof {
                assert(dp@[i as int]@.len() == n + 1);
                if i > 0 {
                    assert(dp@[i - 1]@.len() == n + 1);
                }
            }
            op = DiffOp::Insert(j as u32);
            j = j - 1;
        } else {
            proof {
                if j > 0 {
                    assert(dp@[i as int]@.len() == n + 1);
                    assert(dp@[i - 1]@.len() == n + 1);
                }
            }
            op = DiffOp::Delete(i as u32);
            i = i - 1;
        }
        rev.push(op);
        proof {
            let after = Seq::new(rev@.len(), |k: int| rev@[rev@.len() - 1 - k]);
            assert(after =~= seq![op] + before);
            assert(diff_ops_upto(a, b, i as int, j as int) + after =~= diff_ops_upto(a, b, i as int, j as int).push(op)
                + before);
        }
    }
    let mut ops: Vec<DiffOp> = Vec::new();
    let mut k = rev.len();
    while k > 0
        invariant
            k <= rev@.len(),
            ops@ == Seq::new((rev@.len() - k) as nat, |t: int| rev@[rev@.len() - 1 - t]),
        decreases k,
    {
        k = k - 1;
        ops.push(rev[k]);
        assert(ops@ =~= Seq::new((rev@.len() - k) as nat, |t: int| rev@[rev@.len() - 1 - t]));
    }
    assert(diff_ops_upto(a, b, 0, 0) =~= Seq::<DiffOp>::empty());
    assert(ops@ =~= Seq::new(rev@.len(), |t: int| rev@[rev@.len() - 1 - t]));
    assert(Seq::<DiffOp>::empty() + ops@ =~= ops@);
    ops
}


// ---------------------------------------------------------------------------
// The diff is an edit script
// ---------------------------------------------------------------------------

/// The line an operation carries: from the changed version for an equal or
/// inserted line, from the base version for a deleted one.
pub open spec fn op_text(op: DiffOp, a: Seq<Seq<u8>>, b: Seq<Seq<u8>>) -> Seq<u8> {
    match op {
        DiffOp::Equal(j) => b[j - 1],
        DiffOp::Insert(j) => b[j - 1],
        DiffOp::Delete(i) => a[i - 1],
    }
}

/// The lines an edit script reads from the base version: equal and deleted ones.
pub open spec fn base_side(ops: Seq<DiffOp>, a: Seq<Seq<u8>>, b: Seq<Seq<u8>>) -> Seq<Seq<u8>>
    decreases ops.len(),
{
    if ops.len() == 0 {
        Seq::empty()
    } else if ops.last() is Insert {
        base_side(ops.drop_last(), a, b)
    } else {
        base_side(ops.drop_last(), a, b).push(op_text(ops.last(), a, b))
    }
}

/// The lines an edit script writes to the changed version: equal and inserted ones.
pub open spec fn changed_side(ops: Seq<DiffOp>, a: Seq<Seq<u8>>, b: Seq<Seq<u8>>) -> Seq<Seq<u8>>
    decreases ops.len(),
{
    if ops.len() == 0 {
        Seq::empty()
    } else if ops.last() is Delete {
        changed_side(ops.drop_last(), a, b)
    } else {
        changed_side(ops.drop_last(), a, b).push(op_text(ops.last(), a, b))
    }
}

/// The diff of the first `i` lines of `a` against the first `j` of `b` reads
/// exactly those lines of `a` and writes exactly those lines of `b`.
proof fn lemma_diff_ops_upto_sides(a: Seq<Seq<u8>>, b: Seq<Seq<u8>>, i: int, j: int)
    requires
        0 <= i <= a.len() < u32::MAX,
        0 <= j <= b.len() < u32::MAX,
    ensures
        base_side(diff_ops_upto(a, b, i, j), a, b) == a.take(i),
        changed_side(diff_ops_upto(a, b, i, j), a, b) == b.take(j),
    decreases j, i,
{
    let ops = diff_ops_upto(a, b, i, j);
    if i == 0 && j == 0 {
        assert(a.take(0) =~= Seq::<Seq<u8>>::empty());
        assert(b.take(0) =~= Seq::<Seq<u8>>::empty());
    } else if i > 0 && j > 0 && a[i - 1] == b[j - 1] {
        lemma_diff_ops_upto_sides(a, b, i - 1, j - 1);
        assert(ops.drop_last() == diff_ops_upto(a, b, i - 1, j - 1));
        assert(a.take(i) =~= a.take(i - 1).push(a[i - 1]));
        assert(b.take(j) =~= b.take(j - 1).push(b[j - 1]));
    } else if j > 0 && (i <= 0 || lcs_len(a, b, i, j - 1) >= lcs_len(a, b, i - 1, j)) {
        lemma_diff_ops_upto_sides(a, b, i, j - 1);
        assert(ops.drop_last() == diff_ops_upto(a, b, i, j - 1));
        assert(b.take(j) =~= b.take(j - 1).push(b[j - 1]));
    } else {
        lemma_diff_ops_upto_sides(a, b, i - 1, j);
        assert(ops.drop_last() == diff_ops_upto(a, b, i - 1, j));
        assert(a.take(i) =~= a.take(i - 1).push(a[i - 1]));
    }
}

/// How many base lines and how many changed lines `ops` reads: an equal
/// line is one of each, a deletion a base line, an insertion a changed line.
pub open spec fn side_counts(ops: Seq<DiffOp>) -> (int, int)
    decreases ops.len(),
{
    if ops.len() == 0 {
        (0, 0)
    } else {
        let (x, y) = side_counts(ops.drop_last());
        match ops.last() {
            DiffOp::Equal(_) => (x + 1, y + 1),
            DiffOp::Delete(_) => (x + 1, y),
            DiffOp::Insert(_) => (x, y + 1),
        }
    }
}

/// Every operation carries the 1-based number of the line it reads: an equal
/// or inserted line the number of the next changed line, a deleted line the
/// number of the next base line.
pub open spec fn numbered(ops: Seq<DiffOp>) -> bool {
    forall|t: int|
        0 <= t < ops.len() ==> match #[trigger] ops[t] {
            DiffOp::Equal(j) => j == side_counts(ops.take(t)).1 + 1,
            DiffOp::Insert(j) => j == side_counts(ops.take(t)).1 + 1,
            DiffOp::Delete(i) => i == side_counts(ops.take(t)).0 + 1,
        }
}

proof fn lemma_numbered_upto(a: Seq<Seq<u8>>, b: Seq<Seq<u8>>, i: int, j: int)
    requires
        0 <= i <= a.len() < u32::MAX,
        0 <= j <= b.len() < u32::MAX,
    ensures
        side_counts(diff_ops_upto(a, b, i, j)) == (i, j),
        numbered(diff_ops_upto(a, b, i, j)),
    decreases j, i,
{
    let ops = diff_ops_upto(a, b, i, j);
    if i <= 0 && j <= 0 {
    } else {
        let (pi, pj) = if i > 0 && j > 0 && a[i - 1] == b[j - 1] {
            (i - 1, j - 1)
        } else if j > 0 && (i <= 0 || lcs_len(a, b, i, j - 1) >= lcs_len(a, b, i - 1, j)) {
            (i, j - 1)
        } else {
            (i - 1, j)
        };
        lemma_numbered_upto(a, b, pi, pj);
        let prev = diff_ops_upto(a, b, pi, pj);
        assert(ops.drop_last() == prev);
        assert(ops.len() == prev.len() + 1);
        assert forall|t: int| 0 <= t < ops.len() implies match #[trigger] ops[t] {
            DiffOp::Equal(x) => x == side_counts(ops.take(t)).1 + 1,
            DiffOp::Insert(x) => x == side_counts(ops.take(t)).1 + 1,
            DiffOp::Delete(x) => x == side_counts(ops.take(t)).0 + 1,
        } by {
            if t < prev.len() {
                assert(ops.take(t) =~= prev.take(t));
                assert(ops[t] == prev[t]);
            } else {
                assert(ops.take(t) =~= prev);
            }
        }
    }
}

/// The line diff numbers its operations correctly: each carries the number of
/// the line it reads, counted along the base or the changed version, and the
/// diff reads every line of both.
pub proof fn lemma_diff_ops_numbering(a: Seq<Seq<u8>>, b: Seq<Seq<u8>>)
    requires
        a.len() < u32::MAX,
        b.len() < u32::MAX,
    ensures
        numbered(spec_diff_ops(a, b)),
        side_counts(spec_diff_ops(a, b)) == (a.len() as int, b.len() as int),
{
    lemma_numbered_upto(a, b, a.len() as int, b.len() as int);
}

/// The number of kept (equal) lines among `ops`.
pub open spec fn equal_count(ops: Seq<DiffOp>) -> nat
    decreases ops.len(),
{
    if ops.len() == 0 {
        0
    } else {
        equal_count(ops.drop_last()) + if ops.last() is Equal {
            1nat
        } else {
            0nat
        }
    }
}

/// `ia` and `ib` pick, in increasing order, lines of `a` below `i` and lines
/// of `b` below `j` that are equal pair by pair: a common subsequence.
pub open spec fn common_within(a: Seq<Seq<u8>>, b: Seq<Seq<u8>>, ia: Seq<int>, ib: Seq<int>, i: int, j: int) -> bool {
    &&& ia.len() == ib.len()
    &&& forall|t: int|
        0 <= t < ia.len() ==> 0 <= #[trigger] ia[t] < i && i <= a.len() && 0 <= ib[t] < j && j <= b.len() && a[ia[t]]
            == b[ib[t]]
    &&& forall|s: int, t: int| 0 <= s < t < ia.len() ==> #[trigger] ia[s] < #[trigger] ia[t] && ib[s] < ib[t]
}

proof fn lemma_lcs_is_longest(a: Seq<Seq<u8>>, b: Seq<Seq<u8>>, ia: Seq<int>, ib: Seq<int>, i: int, j: int)
    requires
        common_within(a, b, ia, ib, i, j),
        0 <= i,
        0 <= j,
    ensures
        ia.len() <= lcs_len(a, b, i, j),
    decreases i + j,
{
    let l = ia.len() as int;
    if l > 0 {
        assert(0 <= ia[0] < i);
        let x = ia[l - 1];
        let y = ib[l - 1];
        assert(0 <= ia[l - 1] < i);
        if a[i - 1] == b[j - 1] {
            let ja = ia.drop_last();
            let jb = ib.drop_last();
            assert forall|t: int| 0 <= t < ja.len() implies 0 <= #[trigger] ja[t] < i - 1 && i - 1 <= a.len() && 0
                <= jb[t] < j - 1 && j - 1 <= b.len() && a[ja[t]] == b[jb[t]] by {
                assert(ia[t] < ia[l - 1]);
                assert(0 <= ia[t] < i);
                assert(0 <= ia[l - 1] < i);
            }
            assert forall|s: int, t: int| 0 <= s < t < ja.len() implies #[trigger] ja[s] < #[trigger] ja[t] && jb[s] < jb[t] by {
                assert(ia[s] < ia[t]);
            }
            lemma_lcs_is_longest(a, b, ja, jb, i - 1, j - 1);
        } else if x < i - 1 {
            assert forall|t: int| 0 <= t < ia.len() implies 0 <= #[trigger] ia[t] < i - 1 && i - 1 <= a.len() && 0
                <= ib[t] < j && j <= b.len() && a[ia[t]] == b[ib[t]] by {
                if t < l - 1 {
                    assert(ia[t] < ia[l - 1]);
                }
                assert(0 <= ia[t] < i);
            }
            lemma_lcs_is_longest(a, b, ia, ib, i - 1, j);
        } else {
            assert(0 <= ia[l - 1] < i && 0 <= ib[l - 1] < j && a[ia[l - 1]] == b[ib[l - 1]]);
            assert(y < j - 1);
            assert forall|t: int| 0 <= t < ia.len() implies 0 <= #[trigger] ia[t] < i && i <= a.len() && 0 <= ib[t]
                < j - 1 && j - 1 <= b.len() && a[ia[t]] == b[ib[t]] by {
                if t < l - 1 {
                    assert(ia[t] < ia[l - 1]);
                }
                assert(0 <= ia[t] < i);
            }
            lemma_lcs_is_longest(a, b, ia, ib, i, j - 1);
        }
    }
}

proof fn lemma_equal_count_upto(a: Seq<Seq<u8>>, b: Seq<Seq<u8>>, i: int, j: int)
    requires
        0 <= i <= a.len() < u32::MAX,
        0 <= j <= b.len() < u32::MAX,
    ensures
        equal_count(diff_ops_upto(a, b, i, j)) == lcs_len(a, b, i, j),
    decreases j, i,
{
    if i <= 0 && j <= 0 {
    } else if i > 0 && j > 0 && a[i - 1] == b[j - 1] {
        lemma_equal_count_upto(a, b, i - 1, j - 1);
        let ops = diff_ops_upto(a, b, i, j);
        assert(ops.drop_last() == diff_ops_upto(a, b, i - 1, j - 1));
    } else if j > 0 && (i <= 0 || lcs_len(a, b, i, j - 1) >= lcs_len(a, b, i - 1, j)) {
        lemma_equal_count_upto(a, b, i, j - 1);
        let ops = diff_ops_upto(a, b, i, j);
        assert(ops.drop_last() == diff_ops_upto(a, b, i, j - 1));
    } else {
        lemma_equal_count_upto(a, b, i - 1, j);
        let ops = diff_ops_upto(a, b, i, j);
        assert(ops.drop_last() == diff_ops_upto(a, b, i - 1, j));
    }
}

/// The line diff is minimal: it keeps as many lines as a longest common
/// subsequence of the two versions has, and no common subsequence is longer.
pub proof fn lemma_diff_is_minimal(a: Seq<Seq<u8>>, b: Seq<Seq<u8>>, ia: Seq<int>, ib: Seq<int>)
    requires
        a.len() < u32::MAX,
        b.len() < u32::MAX,
    ensures
        equal_count(spec_diff_ops(a, b)) == lcs_len(a, b, a.len() as int, b.len() as int),
        common_within(a, b, ia, ib, a.len() as int, b.len() as int) ==> ia.len() <= equal_count(spec_diff_ops(a, b)),
{
    lemma_equal_count_upto(a, b, a.len() as int, b.len() as int);
    if common_within(a, b, ia, ib, a.len() as int, b.len() as int) {
        lemma_lcs_is_longest(a, b, ia, ib, a.len() as int, b.len() as int);
    }
}

/// The line diff is an edit script from the base lines to the changed lines:
/// its equal and deleted lines are the base lines, in order, and its equal and
/// inserted lines are the changed lines, in order.
pub proof fn lemma_diff_ops_is_edit_script(a: Seq<Seq<u8>>, b: Seq<Seq<u8>>)
    requires
        a.len() < u32::MAX,
        b.len() < u32::MAX,
    ensures
        base_side(spec_diff_ops(a, b), a, b) == a,
        changed_side(spec_diff_ops(a, b), a, b) == b,
{
    lemma_diff_ops_upto_sides(a, b, a.len() as int, b.len() as int);
    assert(a.take(a.len() as int) =~= a);
    assert(b.take(b.len() as int) =~= b);
}


// ---------------------------------------------------------------------------
// Applying chosen lines
// ---------------------------------------------------------------------------

/// The line number an operation carries.
pub open spec fn op_line(op: DiffOp) -> u32 {
    match op {
        DiffOp::Equal(j) => j,
        DiffOp::Insert(j) => j,
        DiffOp::Delete(i) => i,
    }
}

/// The lines that result from an edit script when only the changes on lines
/// in `ranges` are applied (`stage`) or reverted (`!stage`): equal lines are
/// kept; an inserted line is kept when its being in a range agrees with
/// `stage`; a deleted line is kept when it does not.
pub open spec fn kept_lines(
    ops: Seq<DiffOp>,
    a: Seq<Seq<u8>>,
    b: Seq<Seq<u8>>,
    ranges: Seq<LineRange>,
    stage: bool,
) -> Seq<Seq<u8>>
    decreases ops.len(),
{
    if ops.len() == 0 {
        Seq::empty()
    } else {
        let rest = kept_lines(ops.drop_last(), a, b, ranges, stage);
        let op = ops.last();
        match op {
            DiffOp::Equal(_) => rest.push(op_text(op, a, b)),
            DiffOp::Insert(j) => if in_ranges(j, ranges) == stage {
                rest.push(op_text(op, a, b))
            } else {
                rest
            },
            DiffOp::Delete(i) => if in_ranges(i, ranges) != stage {
                rest.push(op_text(op, a, b))
            } else {
                rest
            },
        }
    }
}

/// Lines joined by line feeds.
pub open spec fn join_lines(ls: Seq<Seq<u8>>) -> Seq<u8>
    decreases ls.len(),
{
    if ls.len() == 0 {
        Seq::empty()
    } else if ls.len() == 1 {
        ls[0]
    } else {
        join_lines(ls.drop_last()) + seq![10u8] + ls.last()
    }
}

/// The text ends with a line feed.
pub open spec fn ends_with_newline(s: Seq<u8>) -> bool {
    s.len() > 0 && s.last() == 10u8
}

// ---------------------------------------------------------------------------
// Changed lines side by side
// ---------------------------------------------------------------------------

/// The first `k` slots of a run of deletions and a run of insertions side by
/// side: slot `t` holds the `t`-th deletion, then the `t`-th insertion, where
/// there is one.
pub open spec fn interleave_upto(d: Seq<DiffOp>, ins: Seq<DiffOp>, k: int) -> Seq<DiffOp>
    decreases k,
{
    if k <= 0 {
        Seq::empty()
    } else {
        interleave_upto(d, ins, k - 1) + (if k - 1 < d.len() {
            seq![d[k - 1]]
        } else {
            Seq::empty()
        }) + (if k - 1 < ins.len() {
            seq![ins[k - 1]]
        } else {
            Seq::empty()
        })
    }
}

/// A run of deletions and a run of insertions side by side, so that each
/// changed line is followed by the line that replaces it.
pub open spec fn interleave(d: Seq<DiffOp>, ins: Seq<DiffOp>) -> Seq<DiffOp> {
    interleave_upto(
        d,
        ins,
        if d.len() >= ins.len() {
            d.len() as int
        } else {
            ins.len() as int
        },
    )
}

/// One operation read while putting changed lines side by side: the state is
/// the operations settled so far and the pending deletions and insertions of
/// the current change; a kept line settles the change.
pub open spec fn pair_step(st: (Seq<DiffOp>, Seq<DiffOp>, Seq<DiffOp>), op: DiffOp) -> (
    Seq<DiffOp>,
    Seq<DiffOp>,
    Seq<DiffOp>,
) {
    match op {
        DiffOp::Equal(_) => ((st.0 + interleave(st.1, st.2)).push(op), Seq::empty(), Seq::empty()),
        DiffOp::Delete(_) => (st.0, st.1.push(op), st.2),
        DiffOp::Insert(_) => (st.0, st.1, st.2.push(op)),
    }
}

/// The state after the first `k` operations.
pub open spec fn pair_fold(ops: Seq<DiffOp>, k: int) -> (Seq<DiffOp>, Seq<DiffOp>, Seq<DiffOp>)
    decreases k,
{
    if k <= 0 {
        (Seq::empty(), Seq::empty(), Seq::empty())
    } else {
        pair_step(pair_fold(ops, k - 1), ops[k - 1])
    }
}

/// The operations with each change between two kept lines put side by side:
/// its `t`-th deleted line followed by its `t`-th inserted line, so that line
/// by line a changed line stands where it stood.
pub open spec fn paired_ops(ops: Seq<DiffOp>) -> Seq<DiffOp> {
    let st = pair_fold(ops, ops.len() as int);
    st.0 + interleave(st.1, st.2)
}

/// The operations line-level staging walks: the diff with its changes side by side.
pub open spec fn staging_ops(a: Seq<Seq<u8>>, b: Seq<Seq<u8>>) -> Seq<DiffOp> {
    paired_ops(spec_diff_ops(a, b))
}

/// Every operation is a deletion.
pub open spec fn all_deletes(s: Seq<DiffOp>) -> bool {
    forall|t: int| 0 <= t < s.len() ==> #[trigger] s[t] is Delete
}

/// Every operation is an insertion.
pub open spec fn all_inserts(s: Seq<DiffOp>) -> bool {
    forall|t: int| 0 <= t < s.len() ==> #[trigger] s[t] is Insert
}

/// Every operation carries a line of its version.
pub open spec fn all_in_bounds(s: Seq<DiffOp>, m: int, n: int) -> bool {
    forall|t: int| 0 <= t < s.len() ==> op_in_bounds(#[trigger] s[t], m, n)
}

proof fn lemma_sides_concat(x: Seq<DiffOp>, y: Seq<DiffOp>, a: Seq<Seq<u8>>, b: Seq<Seq<u8>>)
    ensures
        base_side(x + y, a, b) == base_side(x, a, b) + base_side(y, a, b),
        changed_side(x + y, a, b) == changed_side(x, a, b) + changed_side(y, a, b),
    decreases y.len(),
{
    if y.len() == 0 {
        assert(x + y =~= x);
        assert(base_side(x, a, b) + base_side(y, a, b) =~= base_side(x, a, b));
        assert(changed_side(x, a, b) + changed_side(y, a, b) =~= changed_side(x, a, b));
    } else {
        lemma_sides_concat(x, y.drop_last(), a, b);
        assert((x + y).drop_last() =~= x + y.drop_last());
        assert((x + y).last() == y.last());
        assert(base_side(x + y, a, b) =~= base_side(x, a, b) + base_side(y, a, b));
        assert(changed_side(x + y, a, b) =~= changed_side(x, a, b) + changed_side(y, a, b));
    }
}

proof fn lemma_sides_of_runs(s: Seq<DiffOp>, a: Seq<Seq<u8>>, b: Seq<Seq<u8>>)
    ensures
        all_deletes(s) ==> changed_side(s, a, b).len() == 0,
        all_inserts(s) ==> base_side(s, a, b).len() == 0,
    decreases s.len(),
{
    if s.len() > 0 {
        lemma_sides_of_runs(s.drop_last(), a, b);
        assert(all_deletes(s) ==> all_deletes(s.drop_last()));
        assert(all_inserts(s) ==> all_inserts(s.drop_last()));
        assert(s.last() == s[s.len() - 1]);
    }
}

proof fn lemma_sides_interleave(d: Seq<DiffOp>, ins: Seq<DiffOp>, a: Seq<Seq<u8>>, b: Seq<Seq<u8>>, k: int)
    requires
        all_deletes(d),
        all_inserts(ins),
        0 <= k,
    ensures
        base_side(interleave_upto(d, ins, k), a, b) == base_side(d.take(if k <= d.len() { k } else { d.len() as int }), a, b),
        changed_side(interleave_upto(d, ins, k), a, b) == changed_side(
            ins.take(if k <= ins.len() { k } else { ins.len() as int }),
            a,
            b,
        ),
    decreases k,
{
    if k == 0 {
        assert(d.take(0) =~= Seq::<DiffOp>::empty());
        assert(ins.take(0) =~= Seq::<DiffOp>::empty());
    } else {
        lemma_sides_interleave(d, ins, a, b, k - 1);
        let prev = interleave_upto(d, ins, k - 1);
        let dx: Seq<DiffOp> = if k - 1 < d.len() {
            seq![d[k - 1]]
        } else {
            Seq::empty()
        };
        let ix: Seq<DiffOp> = if k - 1 < ins.len() {
            seq![ins[k - 1]]
        } else {
            Seq::empty()
        };
        lemma_sides_concat(prev, dx, a, b);
        lemma_sides_concat(prev + dx, ix, a, b);
        let cd = if k - 1 <= d.len() { k - 1 } else { d.len() as int };
        let ci = if k - 1 <= ins.len() { k - 1 } else { ins.len() as int };
        let nd = if k <= d.len() { k } else { d.len() as int };
        let ni = if k <= ins.len() { k } else { ins.len() as int };
        if k - 1 < d.len() {
            assert(dx.drop_last() =~= Seq::<DiffOp>::empty());
            assert(dx.last() == d[k - 1]);
            assert(d[k - 1] is Delete);
            assert(base_side(dx, a, b) == base_side(Seq::<DiffOp>::empty(), a, b).push(op_text(d[k - 1], a, b)));
            assert(changed_side(dx, a, b) == changed_side(Seq::<DiffOp>::empty(), a, b));
            assert(d.take(k).drop_last() =~= d.take(k - 1));
            assert(d.take(k).last() == d[k - 1]);
            assert(base_side(d.take(nd), a, b) == base_side(d.take(cd), a, b).push(op_text(d[k - 1], a, b)));
        } else {
            assert(dx =~= Seq::<DiffOp>::empty());
            assert(nd == cd);
        }
        if k - 1 < ins.len() {
            assert(ix.drop_last() =~= Seq::<DiffOp>::empty());
            assert(ix.last() == ins[k - 1]);
            assert(ins[k - 1] is Insert);
            assert(changed_side(ix, a, b) == changed_side(Seq::<DiffOp>::empty(), a, b).push(op_text(ins[k - 1], a, b)));
            assert(base_side(ix, a, b) == base_side(Seq::<DiffOp>::empty(), a, b));
            assert(ins.take(k).drop_last() =~= ins.take(k - 1));
            assert(ins.take(k).last() == ins[k - 1]);
            assert(changed_side(ins.take(ni), a, b) == changed_side(ins.take(ci), a, b).push(op_text(ins[k - 1], a, b)));
        } else {
            assert(ix =~= Seq::<DiffOp>::empty());
            assert(ni == ci);
        }
        assert(base_side(Seq::<DiffOp>::empty(), a, b) =~= Seq::<Seq<u8>>::empty());
        assert(changed_side(Seq::<DiffOp>::empty(), a, b) =~= Seq::<Seq<u8>>::empty());
        assert(base_side(interleave_upto(d, ins, k), a, b) =~= base_side(d.take(nd), a, b));
        assert(changed_side(interleave_upto(d, ins, k), a, b) =~= changed_side(ins.take(ni), a, b));
    }
}

proof fn lemma_interleave_in_bounds(d: Seq<DiffOp>, ins: Seq<DiffOp>, m: int, n: int, k: int)
    requires
        all_in_bounds(d, m, n),
        all_in_bounds(ins, m, n),
        0 <= k,
    ensures
        all_in_bounds(interleave_upto(d, ins, k), m, n),
    decreases k,
{
    if k > 0 {
        lemma_interleave_in_bounds(d, ins, m, n, k - 1);
        let s = interleave_upto(d, ins, k);
        let prev = interleave_upto(d, ins, k - 1);
        assert forall|t: int| 0 <= t < s.len() implies op_in_bounds(#[trigger] s[t], m, n) by {
            if t < prev.len() {
                assert(s[t] == prev[t]);
            } else if k - 1 < d.len() && t == prev.len() {
                assert(s[t] == d[k - 1]);
            } else {
                assert(s[t] == ins[k - 1]);
            }
        }
    }
}

/// What putting changes side by side keeps: the base and changed sides of the
/// operations, and that each carries a line of its version.
proof fn lemma_pair_fold(ops: Seq<DiffOp>, a: Seq<Seq<u8>>, b: Seq<Seq<u8>>, m: int, n: int, k: int)
    requires
        0 <= k <= ops.len(),
        all_in_bounds(ops, m, n),
    ensures
        all_deletes(pair_fold(ops, k).1),
        all_inserts(pair_fold(ops, k).2),
        all_in_bounds(pair_fold(ops, k).0, m, n),
        all_in_bounds(pair_fold(ops, k).1, m, n),
        all_in_bounds(pair_fold(ops, k).2, m, n),
        base_side(pair_fold(ops, k).0, a, b) + base_side(pair_fold(ops, k).1, a, b) == base_side(ops.take(k), a, b),
        changed_side(pair_fold(ops, k).0, a, b) + changed_side(pair_fold(ops, k).2, a, b) == changed_side(
            ops.take(k),
            a,
            b,
        ),
    decreases k,
{
    if k == 0 {
        assert(ops.take(0) =~= Seq::<DiffOp>::empty());
        assert(base_side(Seq::<DiffOp>::empty(), a, b) + base_side(Seq::<DiffOp>::empty(), a, b) =~= Seq::<
            Seq<u8>,
        >::empty());
        assert(changed_side(Seq::<DiffOp>::empty(), a, b) + changed_side(Seq::<DiffOp>::empty(), a, b) =~= Seq::<
            Seq<u8>,
        >::empty());
    } else {
        lemma_pair_fold(ops, a, b, m, n, k - 1);
        let st = pair_fold(ops, k - 1);
        let op = ops[k - 1];
        assert(op_in_bounds(op, m, n));
        assert(ops.take(k).drop_last() =~= ops.take(k - 1));
        assert(ops.take(k).last() == op);
        lemma_sides_of_runs(st.1, a, b);
        lemma_sides_of_runs(st.2, a, b);
        match op {
            DiffOp::Equal(_) => {
                let mx = if st.1.len() >= st.2.len() {
                    st.1.len() as int
                } else {
                    st.2.len() as int
                };
                lemma_sides_interleave(st.1, st.2, a, b, mx);
                assert(st.1.take(st.1.len() as int) =~= st.1);
                assert(st.2.take(st.2.len() as int) =~= st.2);
                lemma_interleave_in_bounds(st.1, st.2, m, n, mx);
                let joined = st.0 + interleave(st.1, st.2);
                lemma_sides_concat(st.0, interleave(st.1, st.2), a, b);
                let next = joined.push(op);
                assert(next.drop_last() =~= joined);
                assert forall|t: int| 0 <= t < next.len() implies op_in_bounds(#[trigger] next[t], m, n) by {
                    if t < st.0.len() {
                        assert(next[t] == st.0[t]);
                    } else if t < joined.len() {
                        assert(next[t] == interleave(st.1, st.2)[t - st.0.len()]);
                    }
                }
                assert(base_side(Seq::<DiffOp>::empty(), a, b) =~= Seq::<Seq<u8>>::empty());
                assert(changed_side(Seq::<DiffOp>::empty(), a, b) =~= Seq::<Seq<u8>>::empty());
                assert(base_side(next, a, b) + base_side(Seq::<DiffOp>::empty(), a, b) =~= base_side(
                    ops.take(k),
                    a,
                    b,
                ));
                assert(changed_side(next, a, b) + changed_side(Seq::<DiffOp>::empty(), a, b) =~= changed_side(
                    ops.take(k),
                    a,
                    b,
                ));
            },
            DiffOp::Delete(_) => {
                let d2 = st.1.push(op);
                assert(d2.drop_last() =~= st.1);
                assert forall|t: int| 0 <= t < d2.len() implies #[trigger] d2[t] is Delete by {
                    if t < st.1.len() {
                        assert(d2[t] == st.1[t]);
                    }
                }
                assert forall|t: int| 0 <= t < d2.len() implies op_in_bounds(#[trigger] d2[t], m, n) by {
                    if t < st.1.len() {
                        assert(d2[t] == st.1[t]);
                    }
                }
                assert(base_side(st.0, a, b) + base_side(d2, a, b) =~= base_side(ops.take(k), a, b));
            },
            DiffOp::Insert(_) => {
                let i2 = st.2.push(op);
                assert(i2.drop_last() =~= st.2);
                assert forall|t: int| 0 <= t < i2.len() implies #[trigger] i2[t] is Insert by {
                    if t < st.2.len() {
                        assert(i2[t] == st.2[t]);
                    }
                }
                assert forall|t: int| 0 <= t < i2.len() implies op_in_bounds(#[trigger] i2[t], m, n) by {
                    if t < st.2.len() {
                        assert(i2[t] == st.2[t]);
                    }
                }
                assert(changed_side(st.0, a, b) + changed_side(i2, a, b) =~= changed_side(ops.take(k), a, b));
            },
        }
    }
}

/// Putting changes side by side keeps the base and the changed side of the
/// operations, and every operation carries a line of its version.
proof fn lemma_paired_ops(ops: Seq<DiffOp>, a: Seq<Seq<u8>>, b: Seq<Seq<u8>>, m: int, n: int)
    requires
        all_in_bounds(ops, m, n),
    ensures
        base_side(paired_ops(ops), a, b) == base_side(ops, a, b),
        changed_side(paired_ops(ops), a, b) == changed_side(ops, a, b),
        all_in_bounds(paired_ops(ops), m, n),
{
    let k = ops.len() as int;
    lemma_pair_fold(ops, a, b, m, n, k);
    let st = pair_fold(ops, k);
    let mx = if st.1.len() >= st.2.len() {
        st.1.len() as int
    } else {
        st.2.len() as int
    };
    lemma_sides_interleave(st.1, st.2, a, b, mx);
    assert(st.1.take(st.1.len() as int) =~= st.1);
    assert(st.2.take(st.2.len() as int) =~= st.2);
    lemma_sides_of_runs(st.1, a, b);
    lemma_sides_of_runs(st.2, a, b);
    lemma_sides_concat(st.0, interleave(st.1, st.2), a, b);
    assert(ops.take(k) =~= ops);
    lemma_interleave_in_bounds(st.1, st.2, m, n, mx);
    let p = paired_ops(ops);
    assert forall|t: int| 0 <= t < p.len() implies op_in_bounds(#[trigger] p[t], m, n) by {
        if t < st.0.len() {
            assert(p[t] == st.0[t]);
        } else {
            assert(p[t] == interleave(st.1, st.2)[t - st.0.len()]);
        }
    }
    assert(base_side(p, a, b) =~= base_side(ops, a, b));
    assert(changed_side(p, a, b) =~= changed_side(ops, a, b));
}

/// The operations line-level staging walks carry lines of their versions and
/// form an edit script from the base lines to the changed lines.
proof fn lemma_staging_ops(a: Seq<Seq<u8>>, b: Seq<Seq<u8>>)
    requires
        a.len() < u32::MAX,
        b.len() < u32::MAX,
    ensures
        all_in_bounds(staging_ops(a, b), a.len() as int, b.len() as int),
        base_side(staging_ops(a, b), a, b) == a,
        changed_side(staging_ops(a, b), a, b) == b,
{
    lemma_diff_ops_lines_in_bounds(a, b, a.len() as int, b.len() as int);
    lemma_diff_ops_is_edit_script(a, b);
    lemma_paired_ops(spec_diff_ops(a, b), a, b, a.len() as int, b.len() as int);
}

/// Append a run of deletions and a run of insertions side by side.
fn append_interleaved(out: &mut Vec<DiffOp>, d: &Vec<DiffOp>, ins: &Vec<DiffOp>)
    ensures
        final(out)@ == old(out)@ + interleave(d@, ins@),
{
    let ghost start = out@;
    let n = if d.len() >= ins.len() {
        d.len()
    } else {
        ins.len()
    };
    let mut k: usize = 0;
    while k < n
        invariant
            k <= n,
            n == (if d@.len() >= ins@.len() {
                d@.len()
            } else {
                ins@.len()
            }),
            out@ == start + interleave_upto(d@, ins@, k as int),
        decreases n - k,
    {
        let ghost before = out@;
        if k < d.len() {
            out.push(d[k]);
        }
        if k < ins.len() {
            out.push(ins[k]);
        }
        assert(out@ =~= start + interleave_upto(d@, ins@, k + 1));
        k = k + 1;
    }
}

/// The operations with each change put side by side.
fn pair_changes(ops: &Vec<DiffOp>) -> (r: Vec<DiffOp>)
    ensures
        r@ == paired_ops(ops@),
{
    let mut done: Vec<DiffOp> = Vec::new();
    let mut dels: Vec<DiffOp> = Vec::new();
    let mut ins: Vec<DiffOp> = Vec::new();
    let mut k: usize = 0;
    while k < ops.len()
        invariant
            k <= ops@.len(),
            (done@, dels@, ins@) == pair_fold(ops@, k as int),
        decreases ops@.len() - k,
    {
        let op = ops[k];
        match op {
            DiffOp::Equal(_) => {
                append_interleaved(&mut done, &dels, &ins);
                done.push(op);
                dels = Vec::new();
                ins = Vec::new();
            },
            DiffOp::Delete(_) => {
                dels.push(op);
            },
            DiffOp::Insert(_) => {
                ins.push(op);
            },
        }
        k = k + 1;
    }
    append_interleaved(&mut done, &dels, &ins);
    done
}

/// The bytes of the text that line-level staging produces from `base` and `changed`.
pub open spec fn staged_bytes(base: Seq<u8>, changed: Seq<u8>, ranges: Seq<LineRange>, stage: bool) -> Seq<u8> {
    let a = lines_of(base);
    let b = lines_of(changed);
    let kept = kept_lines(staging_ops(a, b), a, b, ranges, stage);
    let trailing = if stage {
        ends_with_newline(changed)
    } else if kept.len() == 0 {
        ends_with_newline(base)
    } else {
        ends_with_newline(changed)
    };
    let out = join_lines(kept);
    if trailing && out.len() > 0 {
        out.push(10u8)
    } else {
        out
    }
}

/// A text has at most as many lines as bytes.
proof fn lemma_lines_of_len(s: Seq<u8>)
    ensures
        lines_of(s).len() <= s.len(),
    decreases s.len(),
{
    if s.len() > 0 {
        lemma_find_newline(s, 0);
        match find_newline(s, 0) {
            Some(k) => {
                lemma_lines_of_len(s.subrange(k + 1, s.len() as int));
            },
            None => {},
        }
    }
}


// ---------------------------------------------------------------------------
// UTF-8
// ---------------------------------------------------------------------------

/// Every line is valid UTF-8.
pub open spec fn all_valid_utf8(ls: Seq<Seq<u8>>) -> bool {
    forall|i: int| 0 <= i < ls.len() ==> valid_utf8(#[trigger] ls[i])
}

/// A single line feed is valid UTF-8.
proof fn lemma_newline_valid()
    ensures
        valid_utf8(seq![10u8]),
{
    let s = seq![10u8];
    assert(s.subrange(1, 1) =~= Seq::<u8>::empty());
    reveal_with_fuel(valid_utf8, 2);
}

/// Dropping a leading ASCII byte of valid UTF-8 leaves valid UTF-8.
proof fn lemma_drop_ascii_first(s: Seq<u8>)
    requires
        valid_utf8(s),
        s.len() > 0,
        s[0] < 0x80,
    ensures
        valid_utf8(s.subrange(1, s.len() as int)),
{
}

/// The lines of valid UTF-8 text are valid UTF-8.
proof fn lemma_lines_valid(s: Seq<u8>)
    requires
        valid_utf8(s),
    ensures
        all_valid_utf8(lines_of(s)),
    decreases s.len(),
{
    if s.len() > 0 {
        lemma_find_newline(s, 0);
        match find_newline(s, 0) {
            Some(k) => {
                is_char_boundary_iff_not_is_continuation_byte(s, k);
                valid_utf8_split(s, k);
                let head = s.subrange(0, k);
                let tail = s.subrange(k, s.len() as int);
                lemma_drop_ascii_first(tail);
                let rest = s.subrange(k + 1, s.len() as int);
                assert(tail.subrange(1, tail.len() as int) =~= rest);
                lemma_lines_valid(rest);
                if head.len() > 0 && head.last() == 13u8 {
                    is_char_boundary_iff_not_is_continuation_byte(head, head.len() - 1);
                    valid_utf8_split(head, head.len() - 1);
                    assert(head.subrange(0, head.len() - 1) =~= head.drop_last());
                }
                let ls = lines_of(s);
                assert(ls == seq![strip_cr(head)] + lines_of(rest));
                assert forall|i: int| 0 <= i < ls.len() implies valid_utf8(#[trigger] ls[i]) by {
                    if i > 0 {
                        assert(ls[i] == lines_of(rest)[i - 1]);
                    }
                }
            },
            None => {},
        }
    }
}

/// Lines of valid UTF-8 joined by line feeds are valid UTF-8.
proof fn lemma_join_valid(ls: Seq<Seq<u8>>)
    requires
        all_valid_utf8(ls),
    ensures
        valid_utf8(join_lines(ls)),
    decreases ls.len(),
{
    if ls.len() == 0 {
        assert(valid_utf8(Seq::<u8>::empty()));
    } else if ls.len() == 1 {
        assert(valid_utf8(ls[0]));
    } else {
        let init = ls.drop_last();
        assert forall|i: int| 0 <= i < init.len() implies valid_utf8(#[trigger] init[i]) by {
            assert(init[i] == ls[i]);
        }
        lemma_join_valid(init);
        lemma_newline_valid();
        valid_utf8_concat(join_lines(init), seq![10u8]);
        assert(valid_utf8(ls.last()));
        valid_utf8_concat(join_lines(init) + seq![10u8], ls.last());
    }
}

/// The lines that line-level staging keeps come from the two versions, so
/// they are valid UTF-8 where those are.
proof fn lemma_kept_valid(ops: Seq<DiffOp>, a: Seq<Seq<u8>>, b: Seq<Seq<u8>>, ranges: Seq<LineRange>, stage: bool)
    requires
        all_valid_utf8(a),
        all_valid_utf8(b),
        all_in_bounds(ops, a.len() as int, b.len() as int),
    ensures
        all_valid_utf8(kept_lines(ops, a, b, ranges, stage)),
    decreases ops.len(),
{
    if ops.len() > 0 {
        let init = ops.drop_last();
        assert forall|t: int| 0 <= t < init.len() implies op_in_bounds(#[trigger] init[t], a.len() as int, b.len() as int) by {
            assert(init[t] == ops[t]);
        }
        lemma_kept_valid(init, a, b, ranges, stage);
        assert(op_in_bounds(ops[ops.len() - 1], a.len() as int, b.len() as int));
        let op = ops.last();
        assert(valid_utf8(op_text(op, a, b)));
        let rest = kept_lines(init, a, b, ranges, stage);
        let k = kept_lines(ops, a, b, ranges, stage);
        assert forall|i: int| 0 <= i < k.len() implies valid_utf8(#[trigger] k[i]) by {
            if i < rest.len() {
                assert(k[i] == rest[i]);
            }
        }
    }
}

/// Line-level staging of two valid UTF-8 texts gives valid UTF-8.
pub proof fn lemma_staged_bytes_valid_utf8(base: Seq<u8>, changed: Seq<u8>, ranges: Seq<LineRange>, stage: bool)
    requires
        valid_utf8(base),
        valid_utf8(changed),
        lines_of(base).len() < u32::MAX,
        lines_of(changed).len() < u32::MAX,
    ensures
        valid_utf8(staged_bytes(base, changed, ranges, stage)),
{
    let a = lines_of(base);
    let b = lines_of(changed);
    lemma_lines_valid(base);
    lemma_lines_valid(changed);
    lemma_staging_ops(a, b);
    let kept = kept_lines(staging_ops(a, b), a, b, ranges, stage);
    lemma_kept_valid(staging_ops(a, b), a, b, ranges, stage);
    lemma_join_valid(kept);
    lemma_newline_valid();
    valid_utf8_concat(join_lines(kept), seq![10u8]);
    assert(join_lines(kept).push(10u8) =~= join_lines(kept) + seq![10u8]);
}

/// Append `line` to `out`.
fn append_bytes(out: &mut Vec<u8>, line: &Vec<u8>)
    ensures
        final(out)@ == old(out)@ + line@,
{
    let mut k: usize = 0;
    while k < line.len()
        invariant
            k <= line@.len(),
            out@ == old(out)@ + line@.take(k as int),
        decreases line@.len() - k,
    {
        out.push(line[k]);
        assert(line@.take(k + 1) =~= line@.take(k as int).push(line@[k as int]));
        assert(out@ =~= old(out)@ + line@.take(k + 1));
        k = k + 1;
    }
    assert(line@.take(line@.len() as int) =~= line@);
}

/// Core line-level operation: given a "base" content and a "changed" content,
/// produce new content by selectively applying or reverting changes.
///
/// When `stage` is true (stage_lines): inserted lines within `line_ranges` (by
/// changed line number) are taken, deleted lines within them (by base line
/// number) are dropped; all other changes are left out.
///
/// When `stage` is false (unstage_lines / discard_lines): the changes on lines
/// within `line_ranges` are reverted to the base version; all others are kept.
///
/// Between two unchanged lines, the deleted and inserted lines of a change are
/// walked side by side (first deletion, first insertion, second deletion, ...),
/// so a changed line that is kept stands where the line it replaces stood.
/// The bytes of two texts give valid UTF-8 bytes, and the result is their text.
pub fn apply_line_ranges(base: &str, changed: &str, line_ranges: &[LineRange], stage: bool) -> (r: String)
    requires
        lines_of(base.spec_bytes()).len() < u32::MAX,
        lines_of(changed.spec_bytes()).len() < u32::MAX,
    ensures
        valid_utf8(staged_bytes(base.spec_bytes(), changed.spec_bytes(), line_ranges@, stage)),
        r@ == decode_utf8(staged_bytes(base.spec_bytes(), changed.spec_bytes(), line_ranges@, stage)),
{
    proof {
        encode_utf8_valid_utf8(base@);
        encode_utf8_valid_utf8(changed@);
        lemma_staged_bytes_valid_utf8(base.spec_bytes(), changed.spec_bytes(), line_ranges@, stage);
    }
    let base_bytes = base.as_bytes();
    let changed_bytes = changed.as_bytes();
    let base_lines = split_lines(base_bytes);
    let changed_lines = split_lines(changed_bytes);
    let ghost a = byte_lines(base_lines@);
    let ghost b = byte_lines(changed_lines@);
    let raw = compute_diff_ops(&base_lines, &changed_lines);
    let ops = pair_changes(&raw);
    proof {
        lemma_staging_ops(a, b);
    }
    let mut out: Vec<u8> = Vec::new();
    let mut count: usize = 0;
    let mut k: usize = 0;
    while k < ops.len()
        invariant
            k <= ops@.len(),
            a == byte_lines(base_lines@),
            b == byte_lines(changed_lines@),
            ops@ == staging_ops(a, b),
            forall|t: int| 0 <= t < ops@.len() ==> op_in_bounds(#[trigger] ops@[t], a.len() as int, b.len() as int),
            count == kept_lines(ops@.take(k as int), a, b, line_ranges@, stage).len(),
            count <= k,
            out@ == join_lines(kept_lines(ops@.take(k as int), a, b, line_ranges@, stage)),
        decreases ops@.len() - k,
    {
        let op = ops[k];
        let ghost prev = kept_lines(ops@.take(k as int), a, b, line_ranges@, stage);
        assert(ops@.take(k + 1).drop_last() =~= ops@.take(k as int));
        assert(op_in_bounds(ops@[k as int], a.len() as int, b.len() as int));
        let keep: Option<&Vec<u8>> = match op {
            DiffOp::Equal(j) => Some(&changed_lines[(j - 1) as usize]),
            DiffOp::Insert(j) => {
                if line_in_ranges(j, line_ranges) == stage {
                    Some(&changed_lines[(j - 1) as usize])
                } else {
                    None
                }
            },
            DiffOp::Delete(i) => {
                if line_in_ranges(i, line_ranges) != stage {
                    Some(&base_lines[(i - 1) as usize])
                } else {
                    None
                }
            },
        };
        match keep {
            Some(line) => {
                assert(line@ == op_text(op, a, b));
                if count > 0 {
                    out.push(10u8);
                }
                append_bytes(&mut out, line);
                proof {
                    let next = prev.push(line@);
                    assert(next.drop_last() =~= prev);
                    if prev.len() == 0 {
                        assert(next.len() == 1);
                    }
                }
                count = count + 1;
            },
            None => {},
        }
        k = k + 1;
    }
    assert(ops@.take(ops@.len() as int) =~= ops@);
    let trailing = if stage {
        changed_bytes.len() > 0 && changed_bytes[changed_bytes.len() - 1] == 10u8
    } else if count == 0 {
        base_bytes.len() > 0 && base_bytes[base_bytes.len() - 1] == 10u8
    } else {
        changed_bytes.len() > 0 && changed_bytes[changed_bytes.len() - 1] == 10u8
    };
    if trailing && out.len() > 0 {
        out.push(10u8);
    }
    utf8_or_empty(out.as_slice())
}

/// The line number an operation carries is a line of its version.
pub open spec fn op_in_bounds(op: DiffOp, m: int, n: int) -> bool {
    match op {
        DiffOp::Equal(j) => 1 <= j <= n,
        DiffOp::Insert(j) => 1 <= j <= n,
        DiffOp::Delete(i) => 1 <= i <= m,
    }
}

proof fn lemma_diff_ops_lines_in_bounds(a: Seq<Seq<u8>>, b: Seq<Seq<u8>>, i: int, j: int)
    requires
        0 <= i <= a.len() < u32::MAX,
        0 <= j <= b.len() < u32::MAX,
    ensures
        forall|t: int|
            0 <= t < diff_ops_upto(a, b, i, j).len() ==> op_in_bounds(
                #[trigger] diff_ops_upto(a, b, i, j)[t],
                a.len() as int,
                b.len() as int,
            ),
    decreases j, i,
{
    let ops = diff_ops_upto(a, b, i, j);
    if i == 0 && j == 0 {
    } else {
        let (pi, pj) = if i > 0 && j > 0 && a[i - 1] == b[j - 1] {
            (i - 1, j - 1)
        } else if j > 0 && (i <= 0 || lcs_len(a, b, i, j - 1) >= lcs_len(a, b, i - 1, j)) {
            (i, j - 1)
        } else {
            (i - 1, j)
        };
        lemma_diff_ops_lines_in_bounds(a, b, pi, pj);
        let prev = diff_ops_upto(a, b, pi, pj);
        assert(ops.len() == prev.len() + 1);
        assert forall|t: int| 0 <= t < ops.len() implies op_in_bounds(#[trigger] ops[t], a.len() as int, b.len() as int) by {
            if t < prev.len() {
                assert(ops[t] == prev[t]);
            }
        }
    }
}


proof fn lemma_kept_lines_uniform(
    ops: Seq<DiffOp>,
    a: Seq<Seq<u8>>,
    b: Seq<Seq<u8>>,
    ranges: Seq<LineRange>,
    stage: bool,
    selected: bool,
)
    requires
        forall|t: int| 0 <= t < ops.len() ==> in_ranges(op_line(#[trigger] ops[t]), ranges) == selected,
    ensures
        kept_lines(ops, a, b, ranges, stage) == (if stage == selected {
            changed_side(ops, a, b)
        } else {
            base_side(ops, a, b)
        }),
    decreases ops.len(),
{
    if ops.len() > 0 {
        let init = ops.drop_last();
        assert forall|t: int| 0 <= t < init.len() implies in_ranges(op_line(#[trigger] init[t]), ranges) == selected by {
            assert(init[t] == ops[t]);
        }
        lemma_kept_lines_uniform(init, a, b, ranges, stage, selected);
        assert(in_ranges(op_line(ops[ops.len() - 1]), ranges) == selected);
    }
}

/// When no changed line is selected, staging keeps the base lines and
/// reverting keeps the changed lines.
pub proof fn lemma_nothing_selected(a: Seq<Seq<u8>>, b: Seq<Seq<u8>>, ranges: Seq<LineRange>, stage: bool)
    requires
        a.len() < u32::MAX,
        b.len() < u32::MAX,
        forall|l: u32| 1 <= l && (l <= a.len() || l <= b.len()) ==> !in_ranges(l, ranges),
    ensures
        kept_lines(staging_ops(a, b), a, b, ranges, stage) == (if stage {
            a
        } else {
            b
        }),
{
    let ops = staging_ops(a, b);
    lemma_staging_ops(a, b);
    assert forall|t: int| 0 <= t < ops.len() implies in_ranges(op_line(#[trigger] ops[t]), ranges) == false by {
        assert(op_in_bounds(ops[t], a.len() as int, b.len() as int));
    }
    lemma_kept_lines_uniform(ops, a, b, ranges, stage, false);
}

/// When every line is selected, staging takes the changed lines and reverting
/// restores the base lines.
pub proof fn lemma_everything_selected(a: Seq<Seq<u8>>, b: Seq<Seq<u8>>, ranges: Seq<LineRange>, stage: bool)
    requires
        a.len() < u32::MAX,
        b.len() < u32::MAX,
        forall|l: u32| 1 <= l && (l <= a.len() || l <= b.len()) ==> in_ranges(l, ranges),
    ensures
        kept_lines(staging_ops(a, b), a, b, ranges, stage) == (if stage {
            b
        } else {
            a
        }),
{
    let ops = staging_ops(a, b);
    lemma_staging_ops(a, b);
    assert forall|t: int| 0 <= t < ops.len() implies in_ranges(op_line(#[trigger] ops[t]), ranges) == true by {
        assert(op_in_bounds(ops[t], a.len() as int, b.len() as int));
    }
    lemma_kept_lines_uniform(ops, a, b, ranges, stage, true);
}


// ---------------------------------------------------------------------------
// Changes made in place
// ---------------------------------------------------------------------------

/// The number of lines before `m` that are the same in both versions.
pub open spec fn same_before(a: Seq<Seq<u8>>, b: Seq<Seq<u8>>, m: int) -> nat
    decreases m,
{
    if m <= 0 {
        0
    } else {
        same_before(a, b, m - 1) + if a[m - 1] == b[m - 1] {
            1nat
        } else {
            0nat
        }
    }
}

/// `b` changes lines of `a` in place: both have as many lines, and a line of
/// `a` equals a line of `b` only at its own position.
pub open spec fn replaces_in_place(a: Seq<Seq<u8>>, b: Seq<Seq<u8>>) -> bool {
    &&& a.len() == b.len()
    &&& forall|p: int, q: int| 0 <= p < a.len() && 0 <= q < b.len() && #[trigger] a[p] == #[trigger] b[q] ==> p == q
}

/// No line occurs twice.
pub open spec fn distinct_lines(a: Seq<Seq<u8>>) -> bool {
    forall|p: int, q: int| 0 <= p < q < a.len() ==> #[trigger] a[p] != #[trigger] a[q]
}

/// The diff of an in-place change: each unchanged line kept, each changed line
/// deleted and then inserted, at its own line number.
pub open spec fn in_place_ops(a: Seq<Seq<u8>>, b: Seq<Seq<u8>>, i: int) -> Seq<DiffOp>
    decreases i,
{
    if i <= 0 {
        Seq::empty()
    } else if a[i - 1] == b[i - 1] {
        in_place_ops(a, b, i - 1).push(DiffOp::Equal(i as u32))
    } else {
        in_place_ops(a, b, i - 1).push(DiffOp::Delete(i as u32)).push(DiffOp::Insert(i as u32))
    }
}

/// The lines of an in-place change with only the changes on lines in
/// `ranges` applied (`stage`), or only those outside them kept (`!stage`).
pub open spec fn picked_lines(a: Seq<Seq<u8>>, b: Seq<Seq<u8>>, ranges: Seq<LineRange>, stage: bool, i: int) -> Seq<
    Seq<u8>,
> {
    Seq::new(
        i as nat,
        |k: int|
            if a[k] != b[k] && in_ranges((k + 1) as u32, ranges) == stage {
                b[k]
            } else {
                a[k]
            },
    )
}

/// For an in-place change the longest common subsequence of two prefixes is
/// made of the unchanged lines of the shorter one.
proof fn lemma_lcs_in_place(a: Seq<Seq<u8>>, b: Seq<Seq<u8>>, i: int, j: int)
    requires
        replaces_in_place(a, b),
        0 <= i <= a.len(),
        0 <= j <= b.len(),
    ensures
        lcs_len(a, b, i, j) == same_before(a, b, if i <= j { i } else { j }),
    decreases i, j,
{
    if i <= 0 || j <= 0 {
    } else if a[i - 1] == b[j - 1] {
        lemma_lcs_in_place(a, b, i - 1, j - 1);
    } else {
        lemma_lcs_in_place(a, b, i - 1, j);
        lemma_lcs_in_place(a, b, i, j - 1);
    }
}

/// What line-level staging keeps of an in-place diff, line by line.
proof fn lemma_kept_in_place(a: Seq<Seq<u8>>, b: Seq<Seq<u8>>, ranges: Seq<LineRange>, stage: bool, i: int)
    requires
        a.len() == b.len(),
        0 <= i <= a.len(),
        a.len() < u32::MAX,
    ensures
        kept_lines(in_place_ops(a, b, i), a, b, ranges, stage) == picked_lines(a, b, ranges, stage, i),
    decreases i,
{
    if i > 0 {
        lemma_kept_in_place(a, b, ranges, stage, i - 1);
        let prev = in_place_ops(a, b, i - 1);
        let kp = picked_lines(a, b, ranges, stage, i - 1);
        assert(picked_lines(a, b, ranges, stage, i).drop_last() =~= kp);
        if a[i - 1] == b[i - 1] {
            let ops = prev.push(DiffOp::Equal(i as u32));
            assert(ops.drop_last() =~= prev);
            assert(kept_lines(ops, a, b, ranges, stage) =~= kp.push(b[i - 1]));
            assert(picked_lines(a, b, ranges, stage, i) =~= kp.push(a[i - 1]));
        } else {
            let mid = prev.push(DiffOp::Delete(i as u32));
            let ops = mid.push(DiffOp::Insert(i as u32));
            assert(ops.drop_last() =~= mid);
            assert(mid.drop_last() =~= prev);
            if in_ranges(i as u32, ranges) == stage {
                assert(kept_lines(mid, a, b, ranges, stage) =~= kp);
                assert(kept_lines(ops, a, b, ranges, stage) =~= kp.push(b[i - 1]));
                assert(picked_lines(a, b, ranges, stage, i) =~= kp.push(b[i - 1]));
            } else {
                assert(kept_lines(mid, a, b, ranges, stage) =~= kp.push(a[i - 1]));
                assert(kept_lines(ops, a, b, ranges, stage) =~= kp.push(a[i - 1]));
                assert(picked_lines(a, b, ranges, stage, i) =~= kp.push(a[i - 1]));
            }
        }
    }
}

/// The first `k` steps of putting changes side by side read only the first `k` operations.
proof fn lemma_pair_fold_prefix(x: Seq<DiffOp>, y: Seq<DiffOp>, k: int)
    requires
        0 <= k <= x.len(),
    ensures
        pair_fold(x + y, k) == pair_fold(x, k),
    decreases k,
{
    if k > 0 {
        lemma_pair_fold_prefix(x, y, k - 1);
        assert((x + y)[k - 1] == x[k - 1]);
    }
}

/// The start of the run of changed lines that ends at line `i`: the number of
/// lines up to the last unchanged line before `i`.
pub open spec fn run_start(a: Seq<Seq<u8>>, b: Seq<Seq<u8>>, i: int) -> int
    decreases i,
{
    if i <= 0 {
        0
    } else if a[i - 1] == b[i - 1] {
        i
    } else {
        run_start(a, b, i - 1)
    }
}

/// Deletions of the lines `p + 1 ..= i`, in order.
pub open spec fn del_run(p: int, i: int) -> Seq<DiffOp> {
    Seq::new((i - p) as nat, |k: int| DiffOp::Delete((p + k + 1) as u32))
}

/// Insertions of the lines `p + 1 ..= i`, in order.
pub open spec fn ins_run(p: int, i: int) -> Seq<DiffOp> {
    Seq::new((i - p) as nat, |k: int| DiffOp::Insert((p + k + 1) as u32))
}

proof fn lemma_run_start(a: Seq<Seq<u8>>, b: Seq<Seq<u8>>, i: int)
    requires
        0 <= i <= a.len(),
        a.len() == b.len(),
    ensures
        0 <= run_start(a, b, i) <= i,
        run_start(a, b, i) == 0 || a[run_start(a, b, i) - 1] == b[run_start(a, b, i) - 1],
        forall|k: int| run_start(a, b, i) <= k < i ==> a[k] != b[k],
        run_start(a, b, run_start(a, b, i)) == run_start(a, b, i),
    decreases i,
{
    if i > 0 && a[i - 1] != b[i - 1] {
        lemma_run_start(a, b, i - 1);
    }
}

/// Inside a run of changed lines `p .. i`, the diff reads the insertions of
/// the run back to its start.
proof fn lemma_diff_run_inserts(a: Seq<Seq<u8>>, b: Seq<Seq<u8>>, p: int, i: int, j: int)
    requires
        replaces_in_place(a, b),
        0 <= p <= j <= i <= a.len(),
        p < i,
        a.len() < u32::MAX,
        forall|k: int| p <= k < i ==> a[k] != b[k],
    ensures
        diff_ops_upto(a, b, i, j) == diff_ops_upto(a, b, i, p) + ins_run(p, j),
    decreases j - p,
{
    if j == p {
        assert(ins_run(p, p) =~= Seq::<DiffOp>::empty());
        assert(diff_ops_upto(a, b, i, p) + ins_run(p, p) =~= diff_ops_upto(a, b, i, p));
    } else {
        lemma_diff_run_inserts(a, b, p, i, j - 1);
        assert(a[i - 1] != b[j - 1]);
        lemma_lcs_in_place(a, b, i, j - 1);
        lemma_lcs_in_place(a, b, i - 1, j);
        assert(a[j - 1] != b[j - 1]);
        assert(same_before(a, b, j) == same_before(a, b, j - 1));
        assert(diff_ops_upto(a, b, i, j) == diff_ops_upto(a, b, i, j - 1).push(DiffOp::Insert(j as u32)));
        assert(ins_run(p, j) =~= ins_run(p, j - 1).push(DiffOp::Insert(j as u32)));
        assert(diff_ops_upto(a, b, i, p) + ins_run(p, j) =~= (diff_ops_upto(a, b, i, p) + ins_run(p, j - 1)).push(
            DiffOp::Insert(j as u32),
        ));
    }
}

/// Before the run's insertions, the diff reads the deletions of the run back
/// to its start.
proof fn lemma_diff_run_deletes(a: Seq<Seq<u8>>, b: Seq<Seq<u8>>, p: int, k: int)
    requires
        replaces_in_place(a, b),
        0 <= p <= k <= a.len(),
        p == 0 || a[p - 1] == b[p - 1],
        a.len() < u32::MAX,
        forall|m: int| p <= m < k ==> a[m] != b[m],
    ensures
        diff_ops_upto(a, b, k, p) == diff_ops_upto(a, b, p, p) + del_run(p, k),
    decreases k - p,
{
    if k == p {
        assert(del_run(p, p) =~= Seq::<DiffOp>::empty());
        assert(diff_ops_upto(a, b, p, p) + del_run(p, p) =~= diff_ops_upto(a, b, p, p));
    } else {
        lemma_diff_run_deletes(a, b, p, k - 1);
        if p > 0 {
            assert(a[k - 1] != b[p - 1]);
            lemma_lcs_in_place(a, b, k, p - 1);
            lemma_lcs_in_place(a, b, k - 1, p);
            assert(same_before(a, b, p) == same_before(a, b, p - 1) + 1);
        }
        assert(diff_ops_upto(a, b, k, p) == diff_ops_upto(a, b, k - 1, p).push(DiffOp::Delete(k as u32)));
        assert(del_run(p, k) =~= del_run(p, k - 1).push(DiffOp::Delete(k as u32)));
        assert(diff_ops_upto(a, b, p, p) + del_run(p, k) =~= (diff_ops_upto(a, b, p, p) + del_run(p, k - 1)).push(
            DiffOp::Delete(k as u32),
        ));
    }
}

/// Folding deletions only adds them to the pending deletions.
proof fn lemma_pair_fold_deletes(x: Seq<DiffOp>, d: Seq<DiffOp>, k: int)
    requires
        all_deletes(d),
        0 <= k <= d.len(),
    ensures
        pair_fold(x + d, x.len() + k) == (pair_fold(x, x.len() as int).0, pair_fold(x, x.len() as int).1 + d.take(k), pair_fold(x, x.len() as int).2),
    decreases k,
{
    if k == 0 {
        lemma_pair_fold_prefix(x, d, x.len() as int);
        assert(pair_fold(x, x.len() as int).1 + d.take(0) =~= pair_fold(x, x.len() as int).1);
    } else {
        lemma_pair_fold_deletes(x, d, k - 1);
        assert((x + d)[x.len() + k - 1] == d[k - 1]);
        assert(d[k - 1] is Delete);
        assert(pair_fold(x, x.len() as int).1 + d.take(k) =~= (pair_fold(x, x.len() as int).1 + d.take(k - 1)).push(d[k - 1]));
    }
}

/// Folding insertions only adds them to the pending insertions.
proof fn lemma_pair_fold_inserts(x: Seq<DiffOp>, d: Seq<DiffOp>, k: int)
    requires
        all_inserts(d),
        0 <= k <= d.len(),
    ensures
        pair_fold(x + d, x.len() + k) == (pair_fold(x, x.len() as int).0, pair_fold(x, x.len() as int).1, pair_fold(x, x.len() as int).2 + d.take(k)),
    decreases k,
{
    if k == 0 {
        lemma_pair_fold_prefix(x, d, x.len() as int);
        assert(pair_fold(x, x.len() as int).2 + d.take(0) =~= pair_fold(x, x.len() as int).2);
    } else {
        lemma_pair_fold_inserts(x, d, k - 1);
        assert((x + d)[x.len() + k - 1] == d[k - 1]);
        assert(d[k - 1] is Insert);
        assert(pair_fold(x, x.len() as int).2 + d.take(k) =~= (pair_fold(x, x.len() as int).2 + d.take(k - 1)).push(d[k - 1]));
    }
}

/// The first `k` slots of two runs side by side read only their first `k` operations.
proof fn lemma_interleave_upto_prefix(d: Seq<DiffOp>, i: Seq<DiffOp>, d2: Seq<DiffOp>, i2: Seq<DiffOp>, k: int)
    requires
        0 <= k <= d.len(),
        k <= d2.len(),
        k <= i.len(),
        k <= i2.len(),
        d.take(k) == d2.take(k),
        i.take(k) == i2.take(k),
    ensures
        interleave_upto(d, i, k) == interleave_upto(d2, i2, k),
    decreases k,
{
    if k > 0 {
        assert(d.take(k - 1) =~= d.take(k).take(k - 1));
        assert(d2.take(k - 1) =~= d2.take(k).take(k - 1));
        assert(i.take(k - 1) =~= i.take(k).take(k - 1));
        assert(i2.take(k - 1) =~= i2.take(k).take(k - 1));
        lemma_interleave_upto_prefix(d, i, d2, i2, k - 1);
        assert(d[k - 1] == d.take(k)[k - 1]);
        assert(d2[k - 1] == d2.take(k)[k - 1]);
        assert(i[k - 1] == i.take(k)[k - 1]);
        assert(i2[k - 1] == i2.take(k)[k - 1]);
    }
}

/// A run of changed lines put side by side is the in-place diff of the run.
proof fn lemma_run_side_by_side(a: Seq<Seq<u8>>, b: Seq<Seq<u8>>, p: int, m: int)
    requires
        0 <= p <= m <= a.len(),
        a.len() == b.len(),
        a.len() < u32::MAX,
        forall|k: int| p <= k < m ==> a[k] != b[k],
    ensures
        in_place_ops(a, b, m) == in_place_ops(a, b, p) + interleave(del_run(p, m), ins_run(p, m)),
    decreases m - p,
{
    if m == p {
        assert(interleave(del_run(p, p), ins_run(p, p)) =~= Seq::<DiffOp>::empty());
        assert(in_place_ops(a, b, p) + Seq::<DiffOp>::empty() =~= in_place_ops(a, b, p));
    } else {
        lemma_run_side_by_side(a, b, p, m - 1);
        let n = m - p;
        let d = del_run(p, m);
        let i = ins_run(p, m);
        let d1 = del_run(p, m - 1);
        let i1 = ins_run(p, m - 1);
        assert(d.take(n - 1) =~= d1.take(n - 1));
        assert(i.take(n - 1) =~= i1.take(n - 1));
        lemma_interleave_upto_prefix(d, i, d1, i1, n - 1);
        assert(interleave(d, i) == interleave_upto(d, i, n));
        assert(interleave(d1, i1) == interleave_upto(d1, i1, n - 1));
        assert(interleave_upto(d, i, n) =~= interleave_upto(d1, i1, n - 1).push(DiffOp::Delete(m as u32)).push(
            DiffOp::Insert(m as u32),
        ));
        assert(in_place_ops(a, b, m) == in_place_ops(a, b, m - 1).push(DiffOp::Delete(m as u32)).push(
            DiffOp::Insert(m as u32),
        ));
        assert(in_place_ops(a, b, p) + interleave(d, i) =~= (in_place_ops(a, b, p) + interleave(d1, i1)).push(
            DiffOp::Delete(m as u32),
        ).push(DiffOp::Insert(m as u32)));
    }
}

/// Putting the changes of an in-place diff side by side up to line `i`: the
/// in-place diff up to the start of the last run of changed lines is settled,
/// and the run's deletions and insertions are pending.
proof fn lemma_pair_fold_in_place(a: Seq<Seq<u8>>, b: Seq<Seq<u8>>, i: int)
    requires
        replaces_in_place(a, b),
        0 <= i <= a.len(),
        a.len() < u32::MAX,
    ensures
        pair_fold(diff_ops_upto(a, b, i, i), diff_ops_upto(a, b, i, i).len() as int) == (
            in_place_ops(a, b, run_start(a, b, i)),
            del_run(run_start(a, b, i), i),
            ins_run(run_start(a, b, i), i),
        ),
    decreases i,
{
    lemma_run_start(a, b, i);
    let p = run_start(a, b, i);
    if i == 0 {
        assert(del_run(0, 0) =~= Seq::<DiffOp>::empty());
        assert(ins_run(0, 0) =~= Seq::<DiffOp>::empty());
    } else if a[i - 1] == b[i - 1] {
        lemma_pair_fold_in_place(a, b, i - 1);
        lemma_run_start(a, b, i - 1);
        let q = run_start(a, b, i - 1);
        let x = diff_ops_upto(a, b, i - 1, i - 1);
        let e = DiffOp::Equal(i as u32);
        assert(diff_ops_upto(a, b, i, i) == x.push(e));
        assert(x.push(e) == x + seq![e]);
        lemma_pair_fold_prefix(x, seq![e], x.len() as int);
        assert((x + seq![e])[x.len() as int] == e);
        lemma_run_side_by_side(a, b, q, i - 1);
        assert(del_run(i, i) =~= Seq::<DiffOp>::empty());
        assert(ins_run(i, i) =~= Seq::<DiffOp>::empty());
    } else {
        assert(p < i);
        lemma_pair_fold_in_place(a, b, p);
        lemma_diff_run_deletes(a, b, p, i);
        lemma_diff_run_inserts(a, b, p, i, i);
        let x = diff_ops_upto(a, b, p, p);
        let d = del_run(p, i);
        let n = ins_run(p, i);
        assert(diff_ops_upto(a, b, i, i) == x + d + n);
        assert(del_run(p, p) =~= Seq::<DiffOp>::empty());
        assert(ins_run(p, p) =~= Seq::<DiffOp>::empty());
        assert(all_deletes(d));
        assert(all_inserts(n));
        lemma_pair_fold_deletes(x, d, d.len() as int);
        lemma_pair_fold_inserts(x + d, n, n.len() as int);
        assert(d.take(d.len() as int) =~= d);
        assert(n.take(n.len() as int) =~= n);
        assert(Seq::<DiffOp>::empty() + d =~= d);
        assert(Seq::<DiffOp>::empty() + n =~= n);
        assert((x + d).len() + n.len() == (x + d + n).len());
    }
}

/// For a change made in place, the operations that line-level staging walks
/// are the in-place diff: each unchanged line kept, each changed line deleted
/// and then inserted, at its own line number.
proof fn lemma_staging_ops_in_place(a: Seq<Seq<u8>>, b: Seq<Seq<u8>>)
    requires
        replaces_in_place(a, b),
        a.len() < u32::MAX,
    ensures
        staging_ops(a, b) == in_place_ops(a, b, a.len() as int),
{
    let n = a.len() as int;
    lemma_pair_fold_in_place(a, b, n);
    lemma_run_start(a, b, n);
    lemma_run_side_by_side(a, b, run_start(a, b, n), n);
}

/// Staging precision: when the changed version changes lines in place,
/// neighbouring lines included, staging (or reverting) the lines
/// in `ranges` takes the changed version of exactly the changed lines whose
/// line number lies in the ranges (or outside them), and the base version of
/// every other line.
pub proof fn lemma_stage_in_place(a: Seq<Seq<u8>>, b: Seq<Seq<u8>>, ranges: Seq<LineRange>, stage: bool)
    requires
        replaces_in_place(a, b),
        a.len() < u32::MAX,
    ensures
        kept_lines(staging_ops(a, b), a, b, ranges, stage) == picked_lines(a, b, ranges, stage, a.len() as int),
{
    lemma_staging_ops_in_place(a, b);
    lemma_kept_in_place(a, b, ranges, stage, a.len() as int);
}

/// Stage/unstage round trip: staging the changed lines in `ranges` and then
/// unstaging the same ranges against the base gives the base lines back, when
/// the change is made in place (neighbouring lines may both change) and no
/// base line occurs twice.
pub proof fn lemma_stage_unstage_roundtrip(a: Seq<Seq<u8>>, b: Seq<Seq<u8>>, ranges: Seq<LineRange>)
    requires
        replaces_in_place(a, b),
        distinct_lines(a),
        a.len() < u32::MAX,
    ensures
        ({
            let s = kept_lines(staging_ops(a, b), a, b, ranges, true);
            kept_lines(staging_ops(a, s), a, s, ranges, false) == a
        }),
{
    let n = a.len() as int;
    lemma_stage_in_place(a, b, ranges, true);
    let s = picked_lines(a, b, ranges, true, n);
    assert forall|p: int, q: int| 0 <= p < a.len() && 0 <= q < s.len() && #[trigger] a[p] == #[trigger] s[q] implies p
        == q by {
        if s[q] == b[q] && a[q] != b[q] {
        } else if p != q {
            if p < q {
                assert(a[p] != a[q]);
            } else {
                assert(a[q] != a[p]);
            }
        }
    }
    assert(replaces_in_place(a, s));
    lemma_stage_in_place(a, s, ranges, false);
    assert(picked_lines(a, s, ranges, false, n) =~= a);
}


/// A line with no line feed and no carriage return.
pub open spec fn plain_line(l: Seq<u8>) -> bool {
    forall|m: int| 0 <= m < l.len() ==> #[trigger] l[m] != 10u8 && l[m] != 13u8
}

/// A text without carriage returns.
pub open spec fn no_cr(t: Seq<u8>) -> bool {
    forall|m: int| 0 <= m < t.len() ==> #[trigger] t[m] != 13u8
}

/// The first line feed from `k` on is at `r`.
proof fn lemma_find_newline_at(s: Seq<u8>, k: int, r: int)
    requires
        0 <= k <= r < s.len(),
        s[r] == 10u8,
        forall|m: int| k <= m < r ==> s[m] != 10u8,
    ensures
        find_newline(s, k) == Some(r),
    decreases r - k,
{
    if k < r {
        lemma_find_newline_at(s, k + 1, r);
    }
}

/// Joining at least two lines puts the first one, a line feed, and the rest joined.
proof fn lemma_join_front(ls: Seq<Seq<u8>>)
    requires
        ls.len() >= 2,
    ensures
        join_lines(ls) == ls[0] + seq![10u8] + join_lines(ls.drop_first()),
    decreases ls.len(),
{
    if ls.len() == 2 {
        assert(ls.drop_last() =~= seq![ls[0]]);
        assert(ls.drop_first() =~= seq![ls[1]]);
        assert(join_lines(ls.drop_last()) == ls[0]);
        assert(join_lines(ls.drop_first()) == ls[1]);
        assert(join_lines(ls) =~= ls[0] + seq![10u8] + join_lines(ls.drop_first()));
    } else {
        let init = ls.drop_last();
        lemma_join_front(init);
        assert(init.drop_first() =~= ls.drop_first().drop_last());
        assert(ls.drop_first().last() == ls.last());
        assert(join_lines(ls) =~= ls[0] + seq![10u8] + join_lines(ls.drop_first()));
    }
}

/// Plain lines joined and ended by a line feed split back into the same lines.
proof fn lemma_lines_of_join(ls: Seq<Seq<u8>>)
    requires
        ls.len() >= 1,
        forall|i: int| 0 <= i < ls.len() ==> plain_line(#[trigger] ls[i]),
    ensures
        lines_of(join_lines(ls) + seq![10u8]) == ls,
    decreases ls.len(),
{
    let first = ls[0];
    let rest_text = if ls.len() == 1 {
        Seq::<u8>::empty()
    } else {
        join_lines(ls.drop_first()) + seq![10u8]
    };
    let t = join_lines(ls) + seq![10u8];
    if ls.len() == 1 {
        assert(t =~= first + seq![10u8]);
    } else {
        lemma_join_front(ls);
        assert(t =~= first + seq![10u8] + rest_text);
    }
    assert(t =~= first + seq![10u8] + rest_text);
    assert(plain_line(first));
    assert forall|m: int| 0 <= m < first.len() implies t[m] != 10u8 by {
        assert(t[m] == first[m]);
    }
    lemma_find_newline_at(t, 0, first.len() as int);
    assert(t.subrange(0, first.len() as int) =~= first);
    if first.len() > 0 {
        assert(first.last() != 13u8);
    }
    assert(strip_cr(first) == first);
    assert(t.subrange(first.len() as int + 1, t.len() as int) =~= rest_text);
    if ls.len() == 1 {
        assert(lines_of(rest_text) =~= Seq::<Seq<u8>>::empty());
        assert(lines_of(t) =~= seq![first]);
        assert(ls =~= seq![first]);
    } else {
        let tail = ls.drop_first();
        assert forall|i: int| 0 <= i < tail.len() implies plain_line(#[trigger] tail[i]) by {
            assert(tail[i] == ls[i + 1]);
        }
        lemma_lines_of_join(tail);
        assert(ls =~= seq![first] + tail);
    }
}

/// A text without carriage returns that ends with a line feed is its lines
/// joined and ended by a line feed, and those lines are plain.
proof fn lemma_text_is_joined_lines(t: Seq<u8>)
    requires
        ends_with_newline(t),
        no_cr(t),
    ensures
        lines_of(t).len() >= 1,
        join_lines(lines_of(t)) + seq![10u8] == t,
        forall|i: int| 0 <= i < lines_of(t).len() ==> plain_line(#[trigger] lines_of(t)[i]),
    decreases t.len(),
{
    lemma_find_newline(t, 0);
    let k = find_newline(t, 0)->0;
    let first = t.subrange(0, k);
    let rest = t.subrange(k + 1, t.len() as int);
    if k > 0 {
        assert(first.last() == t[k - 1]);
    }
    assert(strip_cr(first) == first);
    assert forall|m: int| 0 <= m < first.len() implies #[trigger] first[m] != 10u8 && first[m] != 13u8 by {
        assert(first[m] == t[m]);
    }
    assert(lines_of(t) == seq![first] + lines_of(rest));
    if rest.len() == 0 {
        assert(lines_of(rest) =~= Seq::<Seq<u8>>::empty());
        assert(lines_of(t) =~= seq![first]);
        assert(t =~= first + seq![10u8]);
    } else {
        assert(rest.last() == t.last());
        assert forall|m: int| 0 <= m < rest.len() implies #[trigger] rest[m] != 13u8 by {
            assert(rest[m] == t[k + 1 + m]);
        }
        lemma_text_is_joined_lines(rest);
        let ls = lines_of(t);
        assert(ls.drop_first() =~= lines_of(rest));
        lemma_join_front(ls);
        assert(t =~= first + seq![10u8] + rest);
        assert(join_lines(ls) + seq![10u8] =~= first + seq![10u8] + (join_lines(lines_of(rest)) + seq![10u8]));
        assert forall|i: int| 0 <= i < ls.len() implies plain_line(#[trigger] ls[i]) by {
            if i > 0 {
                assert(ls[i] == lines_of(rest)[i - 1]);
            }
        }
    }
}

/// Nothing selected, on texts: for texts without carriage returns that end
/// with a line feed and are not a lone line feed, staging no line gives the
/// base text back, and unstaging or discarding no line gives the changed text.
pub proof fn lemma_nothing_selected_text(base: Seq<u8>, changed: Seq<u8>, ranges: Seq<LineRange>, stage: bool)
    requires
        ends_with_newline(base),
        ends_with_newline(changed),
        no_cr(base),
        no_cr(changed),
        base != seq![10u8],
        changed != seq![10u8],
        lines_of(base).len() < u32::MAX,
        lines_of(changed).len() < u32::MAX,
        forall|l: u32|
            1 <= l && (l <= lines_of(base).len() || l <= lines_of(changed).len()) ==> !in_ranges(l, ranges),
    ensures
        staged_bytes(base, changed, ranges, stage) == (if stage {
            base
        } else {
            changed
        }),
{
    let a = lines_of(base);
    let b = lines_of(changed);
    lemma_nothing_selected(a, b, ranges, stage);
    lemma_text_is_joined_lines(base);
    lemma_text_is_joined_lines(changed);
    let kept = kept_lines(staging_ops(a, b), a, b, ranges, stage);
    let t = if stage {
        base
    } else {
        changed
    };
    assert(join_lines(kept) + seq![10u8] == t);
    if join_lines(kept).len() == 0 {
        assert(join_lines(kept) + seq![10u8] =~= seq![10u8]);
    }
    assert(join_lines(kept).push(10u8) =~= join_lines(kept) + seq![10u8]);
}

/// Stage/unstage round trip on texts: for texts without carriage returns that
/// end with a line feed, whose line lists satisfy the conditions of the
/// round trip on lines and hold at least two lines, staging the lines in
/// `ranges` and unstaging the same ranges against the base gives the base
/// text back byte for byte.
pub proof fn lemma_stage_unstage_text_roundtrip(base: Seq<u8>, changed: Seq<u8>, ranges: Seq<LineRange>)
    requires
        ends_with_newline(base),
        ends_with_newline(changed),
        no_cr(base),
        no_cr(changed),
        lines_of(base).len() >= 2,
        replaces_in_place(lines_of(base), lines_of(changed)),
        distinct_lines(lines_of(base)),
        base.len() < u32::MAX,
    ensures
        staged_bytes(base, staged_bytes(base, changed, ranges, true), ranges, false) == base,
{
    let a = lines_of(base);
    let b = lines_of(changed);
    let n = a.len() as int;
    lemma_lines_of_len(base);
    lemma_text_is_joined_lines(base);
    lemma_text_is_joined_lines(changed);
    lemma_stage_in_place(a, b, ranges, true);
    let s = picked_lines(a, b, ranges, true, n);
    assert forall|i: int| 0 <= i < s.len() implies plain_line(#[trigger] s[i]) by {
        assert(plain_line(a[i]));
        assert(plain_line(b[i]));
    }
    lemma_join_front(s);
    let staged = join_lines(s) + seq![10u8];
    assert(join_lines(s).len() > 0);
    assert(staged_bytes(base, changed, ranges, true) == staged);
    lemma_lines_of_join(s);
    assert(lines_of(staged) == s);
    lemma_stage_unstage_roundtrip(a, b, ranges);
    assert(kept_lines(staging_ops(a, s), a, s, ranges, false) == a);
    lemma_join_front(a);
    assert(join_lines(a).len() > 0);
    assert(staged_bytes(base, staged, ranges, false) == join_lines(a) + seq![10u8]);
}


// ---------------------------------------------------------------------------
// File status
// ---------------------------------------------------------------------------

/// The status bits a repository reports for one path.
#[derive(Debug, Clone, Copy, PartialEq, Eq)]
pub struct StatusFlags {
    pub conflicted: bool,
    pub index_new: bool,
    pub index_modified: bool,
    pub index_deleted: bool,
    pub index_renamed: bool,
    pub wt_new: bool,
    pub wt_modified: bool,
    pub wt_deleted: bool,
    pub wt_renamed: bool,
}

/// A path with its status bits.
#[derive(Debug, Clone)]
pub struct StatusEntry {
    pub path: String,
    pub flags: StatusFlags,
}

/// The status shown for a path, in order of precedence: a conflict, a staged
/// change, a deletion, a rename, a modification, an untracked file; `None`
/// for a path with none of these.
pub open spec fn spec_status_type(f: StatusFlags) -> Option<FileStatusType> {
    if f.conflicted {
        Some(FileStatusType::Conflict)
    } else if f.index_new || f.index_modified || f.index_deleted || f.index_renamed {
        Some(FileStatusType::Staged)
    } else if f.wt_deleted || f.index_deleted {
        Some(FileStatusType::Deleted)
    } else if f.index_renamed || f.wt_renamed {
        Some(FileStatusType::Renamed)
    } else if f.wt_modified {
        Some(FileStatusType::Modified)
    } else if f.wt_new {
        Some(FileStatusType::Untracked)
    } else {
        None
    }
}

/// The status shown for a path with the status bits `f`.
pub fn classify_status(f: &StatusFlags) -> (r: Option<FileStatusType>)
    ensures
        r == spec_status_type(*f),
{
    if f.conflicted {
        Some(FileStatusType::Conflict)
    } else if f.index_new || f.index_modified || f.index_deleted || f.index_renamed {
        Some(FileStatusType::Staged)
    } else if f.wt_deleted || f.index_deleted {
        Some(FileStatusType::Deleted)
    } else if f.index_renamed || f.wt_renamed {
        Some(FileStatusType::Renamed)
    } else if f.wt_modified {
        Some(FileStatusType::Modified)
    } else if f.wt_new {
        Some(FileStatusType::Untracked)
    } else {
        None
    }
}

/// The shown entries of a status list: those with a status, in order, as path and status.
pub open spec fn spec_status_list(es: Seq<StatusEntry>) -> Seq<(Seq<char>, FileStatusType)>
    decreases es.len(),
{
    if es.len() == 0 {
        Seq::empty()
    } else {
        let rest = spec_status_list(es.drop_last());
        match spec_status_type(es.last().flags) {
            Some(t) => rest.push((es.last().path@, t)),
            None => rest,
        }
    }
}

/// Paths with their shown status.
pub open spec fn status_views(v: Seq<FileStatus>) -> Seq<(Seq<char>, FileStatusType)> {
    v.map_values(|f: FileStatus| (f.path@, f.status))
}

pub struct StagingService;

impl StagingService {
    pub fn new() -> Self {
        StagingService
    }

    /// The list of file statuses from the status entries of a repository, in
    /// order, leaving out paths whose status is not shown.
    pub fn status(&self, entries: &[StatusEntry]) -> (r: Vec<FileStatus>)
        ensures
            status_views(r@) == spec_status_list(entries@),
    {
        let mut r: Vec<FileStatus> = Vec::new();
        let mut k: usize = 0;
        while k < entries.len()
            invariant
                k <= entries@.len(),
                status_views(r@) == spec_status_list(entries@.take(k as int)),
            decreases entries@.len() - k,
        {
            assert(entries@.take(k + 1).drop_last() =~= entries@.take(k as int));
            let e = &entries[k];
            match classify_status(&e.flags) {
                Some(t) => {
                    let ghost before = status_views(r@);
                    r.push(FileStatus { path: e.path.clone(), status: t });
                    assert(status_views(r@) =~= before.push((e.path@, t)));
                },
                None => {},
            }
            k = k + 1;
        }
        assert(entries@.take(entries@.len() as int) =~= entries@);
        r
    }

    /// Line-level staging of the changes between `base` and `changed`; see
    /// `apply_line_ranges`.
    pub fn apply_line_ranges(&self, base: &str, changed: &str, line_ranges: &[LineRange], stage: bool) -> (r: String)
        requires
            lines_of(base.spec_bytes()).len() < u32::MAX,
            lines_of(changed.spec_bytes()).len() < u32::MAX,
        ensures
            valid_utf8(staged_bytes(base.spec_bytes(), changed.spec_bytes(), line_ranges@, stage)),
            r@ == decode_utf8(staged_bytes(base.spec_bytes(), changed.spec_bytes(), line_ranges@, stage)),
    {
        apply_line_ranges(base, changed, line_ranges, stage)
    }
}

} // verus!
