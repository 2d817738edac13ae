//! In-memory commit search: free text, author, date range and hash prefix.
//!
//! Matching is case-insensitive: both sides are lowercased with
//! `str::to_lowercase` and then compared byte by byte in their UTF-8 form.
//! Highlight positions are byte offsets in the lowercased field.
use vstd::prelude::*;
use vstd::utf8::encode_utf8;

use crate::models::{same_commit, CommitInfo};

verus! {

// ---------------------------------------------------------------------------
// Lowercasing
// ---------------------------------------------------------------------------

/// The lowercase form of a string, as `str::to_lowercase` computes it.
pub uninterp spec fn lowercased(s: Seq<char>) -> Seq<char>;

/// Calls `str::to_lowercase`. Its result is named `lowercased` of the input;
/// nothing is claimed of what the Unicode lowercase mapping does.
#[verifier::external_body]
pub(crate) fn to_lowercase(s: &str) -> (r: String)
    ensures
        r@ == lowercased(s@),
{
    s.to_lowercase()
}

/// The UTF-8 bytes of the lowercase form of `s`.
pub open spec fn lowered(s: Seq<char>) -> Seq<u8> {
    encode_utf8(lowercased(s))
}

// ---------------------------------------------------------------------------
// Byte-level matching
// ---------------------------------------------------------------------------

/// `needle` occurs in `hay` at byte offset `p`.
pub open spec fn occurs_at(hay: Seq<u8>, needle: Seq<u8>, p: int) -> bool {
    &&& 0 <= p
    &&& p + needle.len() <= hay.len()
    &&& hay.subrange(p, p + needle.len()) == needle
}

/// `hay` contains `needle` (every string contains the empty one).
pub open spec fn contains_bytes(hay: Seq<u8>, needle: Seq<u8>) -> bool {
    exists|p: int| occurs_at(hay, needle, p)
}

/// `hay` begins with `prefix`.
pub open spec fn starts_with_bytes(hay: Seq<u8>, prefix: Seq<u8>) -> bool {
    occurs_at(hay, prefix, 0)
}

/// The offsets from `k` on at which a non-empty `needle` occurs in `hay`,
/// in increasing order, overlapping occurrences included.
pub open spec fn occurrences_from(hay: Seq<u8>, needle: Seq<u8>, k: int) -> Seq<usize>
    decreases hay.len() - k,
{
    if needle.len() == 0 || k < 0 || k + needle.len() > hay.len() {
        Seq::empty()
    } else if occurs_at(hay, needle, k) {
        seq![k as usize] + occurrences_from(hay, needle, k + 1)
    } else {
        occurrences_from(hay, needle, k + 1)
    }
}

/// The occurrences of a non-empty needle from `k` on are exactly the offsets
/// at or after `k` where it stands in `hay`, in strictly increasing order:
/// overlapping occurrences included, none repeated, none missed.
pub proof fn lemma_occurrences_exact(hay: Seq<u8>, nd: Seq<u8>, k: int)
    requires
        nd.len() > 0,
        0 <= k,
        hay.len() <= usize::MAX,
    ensures
        forall|p: int|
            (#[trigger] occurrences_from(hay, nd, k).contains(p as usize) && 0 <= p <= usize::MAX) <==> (k <= p
                && p + nd.len() <= hay.len() && p <= usize::MAX && hay.subrange(p, p + nd.len()) == nd),
        forall|a: int, b: int|
            0 <= a < b < occurrences_from(hay, nd, k).len() ==> occurrences_from(hay, nd, k)[a]
                < occurrences_from(hay, nd, k)[b],
        forall|a: int| 0 <= a < occurrences_from(hay, nd, k).len() ==> k <= #[trigger] occurrences_from(hay, nd, k)[a],
    decreases hay.len() - k,
{
    let o = occurrences_from(hay, nd, k);
    if k + nd.len() > hay.len() {
        assert(o.len() == 0);
        assert forall|p: int|
            (#[trigger] o.contains(p as usize) && 0 <= p <= usize::MAX) <==> (k <= p && p + nd.len() <= hay.len()
                && p <= usize::MAX && hay.subrange(p, p + nd.len()) == nd) by {}
    } else {
        lemma_occurrences_exact(hay, nd, k + 1);
        let r = occurrences_from(hay, nd, k + 1);
        if occurs_at(hay, nd, k) {
            assert(o == seq![k as usize] + r);
            assert forall|p: int|
                (#[trigger] o.contains(p as usize) && 0 <= p <= usize::MAX) <==> (k <= p && p + nd.len() <= hay.len()
                    && p <= usize::MAX && hay.subrange(p, p + nd.len()) == nd) by {
                if o.contains(p as usize) && 0 <= p <= usize::MAX {
                    let i = choose|i: int| 0 <= i < o.len() && o[i] == p as usize;
                    if i > 0 {
                        assert(o[i] == r[i - 1]);
                        assert(r.contains(p as usize));
                    } else {
                        assert(o[0] == k as usize);
                        assert(p == k);
                    }
                }
                if k <= p && p + nd.len() <= hay.len() && p <= usize::MAX && hay.subrange(p, p + nd.len()) == nd {
                    if p == k {
                        assert(o[0] == p as usize);
                    } else {
                        assert(r.contains(p as usize));
                        let i = choose|i: int| 0 <= i < r.len() && r[i] == p as usize;
                        assert(o[i + 1] == r[i]);
                    }
                }
            }
            assert forall|a: int, b: int| 0 <= a < b < o.len() implies o[a] < o[b] by {
                if a > 0 {
                    assert(o[a] == r[a - 1] && o[b] == r[b - 1]);
                } else {
                    assert(o[b] == r[b - 1]);
                    assert(k + 1 <= r[b - 1]);
                }
            }
            assert forall|a: int| 0 <= a < o.len() implies k <= #[trigger] o[a] by {
                if a > 0 {
                    assert(o[a] == r[a - 1]);
                } else {
                    assert(o[0] == k as usize);
                }
            }
        } else {
            assert(o == r);
            assert forall|p: int|
                (#[trigger] o.contains(p as usize) && 0 <= p <= usize::MAX) <==> (k <= p && p + nd.len() <= hay.len()
                    && p <= usize::MAX && hay.subrange(p, p + nd.len()) == nd) by {
                if p == k && k + nd.len() <= hay.len() && hay.subrange(p, p + nd.len()) == nd {
                    assert(occurs_at(hay, nd, k));
                }
            }
        }
    }
}

/// Whether `needle` occurs in `hay` at offset `p`.
fn bytes_match_at(hay: &[u8], needle: &[u8], p: usize) -> (b: bool)
    requires
        p + needle.len() <= hay.len(),
    ensures
        b == occurs_at(hay@, needle@, p as int),
{
    let mut k: usize = 0;
    while k < needle.len()
        invariant
            k <= needle@.len(),
            p + needle.len() <= hay.len(),
            forall|m: int| 0 <= m < k ==> hay@[p + m] == needle@[m],
        decreases needle@.len() - k,
    {
        if hay[p + k] != needle[k] {
            assert(hay@.subrange(p as int, p + needle@.len())[k as int] != needle@[k as int]);
            return false;
        }
        k = k + 1;
    }
    assert(hay@.subrange(p as int, p + needle@.len()) =~= needle@);
    true
}

/// All offsets at which a non-empty `needle` occurs in `hay`, overlapping ones included.
pub(crate) fn occurrences(hay: &[u8], needle: &[u8]) -> (r: Vec<usize>)
    ensures
        r@ == occurrences_from(hay@, needle@, 0),
{
    let mut r: Vec<usize> = Vec::new();
    if needle.len() == 0 || needle.len() > hay.len() {
        return r;
    }
    let last = hay.len() - needle.len();
    let mut k: usize = 0;
    while k <= last
        invariant
            needle@.len() > 0,
            last == hay.len() - needle.len(),
            k <= last + 1,
            r@ + occurrences_from(hay@, needle@, k as int) == occurrences_from(hay@, needle@, 0),
        decreases last + 1 - k,
    {
        let ghost rest = occurrences_from(hay@, needle@, k + 1);
        if bytes_match_at(hay, needle, k) {
            let ghost r_old = r@;
            r.push(k);
            assert(r_old + (seq![k as usize] + rest) =~= r@ + rest);
        }
        k = k + 1;
    }
    assert(occurrences_from(hay@, needle@, k as int) =~= Seq::<usize>::empty());
    assert(r@ + Seq::<usize>::empty() =~= r@);
    r
}

/// Whether `needle` occurs anywhere in `hay`.
pub(crate) fn contains_bytes_exec(hay: &[u8], needle: &[u8]) -> (b: bool)
    ensures
        b == contains_bytes(hay@, needle@),
{
    if needle.len() > hay.len() {
        assert forall|p: int| !occurs_at(hay@, needle@, p) by {}
        return false;
    }
    if needle.len() == 0 {
        assert(hay@.subrange(0, 0) =~= needle@);
        assert(occurs_at(hay@, needle@, 0));
        return true;
    }
    let last = hay.len() - needle.len();
    let mut k: usize = 0;
    while k <= last
        invariant
            needle@.len() > 0,
            last == hay.len() - needle.len(),
            k <= last + 1,
            forall|p: int| 0 <= p < k ==> !occurs_at(hay@, needle@, p),
        decreases last + 1 - k,
    {
        if bytes_match_at(hay, needle, k) {
            assert(occurs_at(hay@, needle@, k as int));
            return true;
        }
        k = k + 1;
    }
    assert forall|p: int| !occurs_at(hay@, needle@, p) by {
        if 0 <= p < k {
        }
    }
    false
}

/// Whether `hay` begins with `prefix`.
fn starts_with_exec(hay: &[u8], prefix: &[u8]) -> (b: bool)
    ensures
        b == starts_with_bytes(hay@, prefix@),
{
    if prefix.len() > hay.len() {
        return false;
    }
    bytes_match_at(hay, prefix, 0)
}

/// Find all byte-offset positions of `needle_lower` (already lowercased) in
/// `haystack`, case-insensitively: the offsets are those in the lowercased haystack.
fn find_all_case_insensitive(haystack: &str, needle_lower: &str) -> (r: Vec<usize>)
    ensures
        r@ == occurrences_from(lowered(haystack@), encode_utf8(needle_lower@), 0),
{
    if needle_lower.is_empty() {
        let empty: Vec<usize> = Vec::new();
        assert(encode_utf8(needle_lower@).len() == 0);
        return empty;
    }
    let hay_lower = to_lowercase(haystack);
    occurrences(hay_lower.as_str().as_bytes(), needle_lower.as_bytes())
}


// ---------------------------------------------------------------------------
// Queries and results
// ---------------------------------------------------------------------------

/// A single highlight indicating where a match was found.
#[derive(Debug, Clone, PartialEq)]
pub struct SearchHighlight {
    /// The field name: "message", "author", "email", "id"
    pub field: String,
    /// Start byte position of the match within the field value.
    pub start: usize,
    /// Length (in bytes) of the match.
    pub length: usize,
}

/// A commit together with its match highlights.
#[derive(Debug, Clone, PartialEq)]
pub struct SearchResult {
    pub commit: CommitInfo,
    pub highlights: Vec<SearchHighlight>,
}

/// Query parameters for in-memory commit search.
#[derive(Debug, Clone, PartialEq)]
pub struct SearchQuery {
    /// Free-text search across message, author name/email, and commit hash (case-insensitive).
    pub text: Option<String>,
    /// Filter by author name or email (case-insensitive substring match).
    pub author: Option<String>,
    /// Epoch timestamp lower bound (inclusive) on author timestamp.
    pub since: Option<i64>,
    /// Epoch timestamp upper bound (inclusive) on author timestamp.
    pub until: Option<i64>,
    /// File path filter: not applicable for in-memory search, ignored.
    pub path: Option<String>,
    /// Filter by commit hash prefix (case-insensitive).
    pub commit_hash: Option<String>,
}

impl Default for SearchQuery {
    fn default() -> (q: Self)
        ensures
            q.text is None,
            q.author is None,
            q.since is None,
            q.until is None,
            q.path is None,
            q.commit_hash is None,
    {
        SearchQuery { text: None, author: None, since: None, until: None, path: None, commit_hash: None }
    }
}

pub struct SearchEngine;

/// A highlight as its field name, start and length.
pub open spec fn hl_view(h: SearchHighlight) -> (Seq<char>, usize, usize) {
    (h.field@, h.start, h.length)
}

/// The highlights of a list, as field name, start and length each.
pub open spec fn hl_views(hs: Seq<SearchHighlight>) -> Seq<(Seq<char>, usize, usize)> {
    hs.map_values(|h: SearchHighlight| hl_view(h))
}

/// One highlight in `field` at each of `positions`, all of length `len`.
pub open spec fn field_hits(field: Seq<char>, positions: Seq<usize>, len: usize) -> Seq<(Seq<char>, usize, usize)> {
    positions.map_values(|p: usize| (field, p, len))
}

/// The highlights of the free-text search for `needle` in commit `c`: the
/// message, the author's name, the author's email and the id, in that order.
pub open spec fn text_highlights(c: CommitInfo, needle: Seq<u8>, len: usize) -> Seq<(Seq<char>, usize, usize)> {
    field_hits("message"@, occurrences_from(lowered(c.message@), needle, 0), len) + field_hits(
        "author"@,
        occurrences_from(lowered(c.author.name@), needle, 0),
        len,
    ) + field_hits("email"@, occurrences_from(lowered(c.author.email@), needle, 0), len) + field_hits(
        "id"@,
        occurrences_from(lowered(c.id@), needle, 0),
        len,
    )
}

/// The highlights a query gives for commit `c`: those of its free text, if any.
/// Each has the length in bytes of the query text as typed.
pub open spec fn expected_highlights(c: CommitInfo, q: SearchQuery) -> Seq<(Seq<char>, usize, usize)> {
    match q.text {
        Some(t) => text_highlights(c, lowered(t@), encode_utf8(t@).len() as usize),
        None => Seq::empty(),
    }
}

/// The lowercased `needle` occurs in the lowercased message, author name,
/// author email or id of `c` (an empty needle occurs in every field).
pub open spec fn text_found(c: CommitInfo, needle: Seq<u8>) -> bool {
    ||| contains_bytes(lowered(c.message@), needle)
    ||| contains_bytes(lowered(c.author.name@), needle)
    ||| contains_bytes(lowered(c.author.email@), needle)
    ||| contains_bytes(lowered(c.id@), needle)
}

/// Commit `c` meets every criterion of `q` (AND logic).
pub open spec fn commit_matches(c: CommitInfo, q: SearchQuery) -> bool {
    &&& (q.text matches Some(t) ==> text_found(c, lowered(t@)))
    &&& (q.author matches Some(a) ==> contains_bytes(lowered(c.author.name@), lowered(a@))
        || contains_bytes(lowered(c.author.email@), lowered(a@)))
    &&& (q.since matches Some(s) ==> c.author.timestamp >= s)
    &&& (q.until matches Some(u) ==> c.author.timestamp <= u)
    &&& (q.commit_hash matches Some(h) ==> starts_with_bytes(lowered(c.id@), lowered(h@)))
}

/// `r` is the result for commit `c` under `q`: the same commit with the expected highlights.
pub open spec fn result_for(r: SearchResult, c: CommitInfo, q: SearchQuery) -> bool {
    &&& same_commit(r.commit, c)
    &&& hl_views(r.highlights@) == expected_highlights(c, q)
}

/// `rs` holds, in order, one result for each commit of `cs` that matches `q`.
pub open spec fn search_results(rs: Seq<SearchResult>, cs: Seq<CommitInfo>, q: SearchQuery) -> bool {
    let m = cs.filter(|c: CommitInfo| commit_matches(c, q));
    &&& rs.len() == m.len()
    &&& forall|i: int| 0 <= i < rs.len() ==> result_for(#[trigger] rs[i], m[i], q)
}

/// Where `needle` occurs at or after `k`, the list of its occurrences from
/// `k` on is not empty, and the other way round.
proof fn lemma_occurrences_from_nonempty(hay: Seq<u8>, needle: Seq<u8>, k: int)
    requires
        needle.len() > 0,
        0 <= k,
    ensures
        occurrences_from(hay, needle, k).len() > 0 <==> exists|p: int| k <= p && occurs_at(hay, needle, p),
    decreases hay.len() - k,
{
    if k + needle.len() > hay.len() {
        assert forall|p: int| k <= p implies !occurs_at(hay, needle, p) by {}
    } else if !occurs_at(hay, needle, k) {
        lemma_occurrences_from_nonempty(hay, needle, k + 1);
        if exists|p: int| k <= p && occurs_at(hay, needle, p) {
            let p = choose|p: int| k <= p && occurs_at(hay, needle, p);
            assert(p != k);
            assert(k + 1 <= p && occurs_at(hay, needle, p));
        }
    } else {
        assert(occurs_at(hay, needle, k));
    }
}

/// A non-empty needle is found in `hay` exactly when it has an occurrence;
/// an empty needle is found in every string.
proof fn lemma_found_iff_occurrences(hay: Seq<u8>, needle: Seq<u8>)
    ensures
        needle.len() > 0 ==> (occurrences_from(hay, needle, 0).len() > 0 <==> contains_bytes(hay, needle)),
        needle.len() == 0 ==> contains_bytes(hay, needle) && occurrences_from(hay, needle, 0).len() == 0,
{
    if needle.len() > 0 {
        lemma_occurrences_from_nonempty(hay, needle, 0);
        if contains_bytes(hay, needle) {
            let p = choose|p: int| occurs_at(hay, needle, p);
            assert(0 <= p && occurs_at(hay, needle, p));
        }
    } else {
        assert(hay.subrange(0, 0) =~= needle);
        assert(occurs_at(hay, needle, 0));
    }
}

/// Append one highlight in `field` at each of `positions`.
fn push_hits(highlights: &mut Vec<SearchHighlight>, field: &str, positions: &Vec<usize>, len: usize)
    ensures
        hl_views(final(highlights)@) == hl_views(old(highlights)@) + field_hits(field@, positions@, len),
{
    let ghost start = hl_views(highlights@);
    let mut k: usize = 0;
    while k < positions.len()
        invariant
            k <= positions@.len(),
            hl_views(highlights@) == start + field_hits(field@, positions@.take(k as int), len),
        decreases positions@.len() - k,
    {
        let ghost before = highlights@;
        highlights.push(SearchHighlight { field: field.to_owned(), start: positions[k], length: len });
        assert(hl_views(highlights@) =~= hl_views(before).push((field@, positions@[k as int], len)));
        assert(field_hits(field@, positions@.take(k + 1), len) =~= field_hits(field@, positions@.take(k as int), len).push(
            (field@, positions@[k as int], len),
        ));
        k = k + 1;
    }
    assert(positions@.take(positions@.len() as int) =~= positions@);
}

impl SearchEngine {
    pub fn new() -> Self {
        SearchEngine
    }

    fn match_commit(&self, commit: &CommitInfo, query: &SearchQuery) -> (r: Option<SearchResult>)
        ensures
            r is Some <==> commit_matches(*commit, *query),
            r matches Some(x) ==> result_for(x, *commit, *query),
    {
        let mut highlights: Vec<SearchHighlight> = Vec::new();
        // --- text filter ---
        match &query.text {
            Some(text) => {
                let needle = to_lowercase(text.as_str());
                let len = text.as_str().len();
                let m = find_all_case_insensitive(commit.message.as_str(), needle.as_str());
                push_hits(&mut highlights, "message", &m, len);
                let a = find_all_case_insensitive(commit.author.name.as_str(), needle.as_str());
                push_hits(&mut highlights, "author", &a, len);
                let e = find_all_case_insensitive(commit.author.email.as_str(), needle.as_str());
                push_hits(&mut highlights, "email", &e, len);
                let i = find_all_case_insensitive(commit.id.as_str(), needle.as_str());
                push_hits(&mut highlights, "id", &i, len);
                assert(hl_views(highlights@) =~= expected_highlights(*commit, *query));
                proof {
                    let nb = lowered(text@);
                    lemma_found_iff_occurrences(lowered(commit.message@), nb);
                    lemma_found_iff_occurrences(lowered(commit.author.name@), nb);
                    lemma_found_iff_occurrences(lowered(commit.author.email@), nb);
                    lemma_found_iff_occurrences(lowered(commit.id@), nb);
                }
                if highlights.len() == 0 && needle.as_str().as_bytes().len() != 0 {
                    return None;
                }
            },
            None => {
                assert(hl_views(highlights@) =~= expected_highlights(*commit, *query));
            },
        }
        // --- author filter ---
        match &query.author {
            Some(author) => {
                let needle = to_lowercase(author.as_str());
                let name_lower = to_lowercase(commit.author.name.as_str());
                let email_lower = to_lowercase(commit.author.email.as_str());
                if !contains_bytes_exec(name_lower.as_str().as_bytes(), needle.as_str().as_bytes())
                    && !contains_bytes_exec(email_lower.as_str().as_bytes(), needle.as_str().as_bytes()) {
                    return None;
                }
            },
            None => {},
        }
        // --- date range filter ---
        match query.since {
            Some(since) => {
                if commit.author.timestamp < since {
                    return None;
                }
            },
            None => {},
        }
        match query.until {
            Some(until) => {
                if commit.author.timestamp > until {
                    return None;
                }
            },
            None => {},
        }
        // --- commit hash prefix filter ---
        match &query.commit_hash {
            Some(hash) => {
                let hash_lower = to_lowercase(hash.as_str());
                let id_lower = to_lowercase(commit.id.as_str());
                if !starts_with_exec(id_lower.as_str().as_bytes(), hash_lower.as_str().as_bytes()) {
                    return None;
                }
            },
            None => {},
        }
        Some(SearchResult { commit: commit.clone(), highlights })
    }

    /// Search `commits` using the given `query`. All non-None criteria must match (AND logic).
    /// Returns matching commits with highlight positions.
    pub fn search(&self, commits: &[CommitInfo], query: &SearchQuery) -> (r: Vec<SearchResult>)
        ensures
            search_results(r@, commits@, *query),
    {
        let ghost pred = |c: CommitInfo| commit_matches(c, *query);
        let mut r: Vec<SearchResult> = Vec::new();
        let mut i: usize = 0;
        while i < commits.len()
            invariant
                i <= commits@.len(),
                pred == (|c: CommitInfo| commit_matches(c, *query)),
                r@.len() == commits@.take(i as int).filter(pred).len(),
                forall|k: int| 0 <= k < r@.len() ==> result_for(#[trigger] r@[k], commits@.take(i as int).filter(pred)[k], *query),
            decreases commits@.len() - i,
        {
            proof {
                reveal(Seq::filter);
                assert(commits@.take(i + 1).drop_last() =~= commits@.take(i as int));
                assert(commits@.take(i + 1).last() == commits@[i as int]);
            }
            let found = self.match_commit(&commits[i], query);
            match found {
                Some(x) => {
                    r.push(x);
                },
                None => {},
            }
            i = i + 1;
        }
        assert(commits@.take(commits@.len() as int) =~= commits@);
        r
    }

}


/// `nd` is a run of consecutive bytes of `hay`, at some offset.
pub open spec fn is_substring(hay: Seq<u8>, nd: Seq<u8>) -> bool {
    exists|p: int| 0 <= p && p + nd.len() <= hay.len() && #[trigger] hay.subrange(p, p + nd.len()) == nd
}

/// Finding bytes anywhere in a text is the same as their being a run of it.
pub proof fn lemma_contains_is_substring(hay: Seq<u8>, nd: Seq<u8>)
    ensures
        contains_bytes(hay, nd) <==> is_substring(hay, nd),
{
    if contains_bytes(hay, nd) {
        let p = choose|p: int| occurs_at(hay, nd, p);
        assert(hay.subrange(p, p + nd.len()) == nd);
    }
    if is_substring(hay, nd) {
        let p = choose|p: int| 0 <= p && p + nd.len() <= hay.len() && #[trigger] hay.subrange(p, p + nd.len()) == nd;
        assert(occurs_at(hay, nd, p));
    }
}

/// What a search query asks of a commit, criterion by criterion (AND logic):
/// the lowercased text is a run of the lowercased message, author name,
/// author email or id; the lowercased author a run of the lowercased name or
/// email; the author time lies within `since` and `until`, both included; and
/// the lowercased id begins with the lowercased hash. The path is not used.
pub proof fn lemma_search_criteria(c: CommitInfo, q: SearchQuery)
    ensures
        commit_matches(c, q) <==> {
            &&& (q.text matches Some(t) ==> is_substring(lowered(c.message@), lowered(t@)) || is_substring(
                lowered(c.author.name@),
                lowered(t@),
            ) || is_substring(lowered(c.author.email@), lowered(t@)) || is_substring(lowered(c.id@), lowered(t@)))
            &&& (q.author matches Some(a) ==> is_substring(lowered(c.author.name@), lowered(a@)) || is_substring(
                lowered(c.author.email@),
                lowered(a@),
            ))
            &&& (q.since matches Some(s) ==> s <= c.author.timestamp)
            &&& (q.until matches Some(u) ==> c.author.timestamp <= u)
            &&& (q.commit_hash matches Some(h) ==> lowered(h@).len() <= lowered(c.id@).len() && lowered(
                c.id@,
            ).subrange(0, lowered(h@).len() as int) == lowered(h@))
        },
{
    match q.text {
        Some(t) => {
            lemma_contains_is_substring(lowered(c.message@), lowered(t@));
            lemma_contains_is_substring(lowered(c.author.name@), lowered(t@));
            lemma_contains_is_substring(lowered(c.author.email@), lowered(t@));
            lemma_contains_is_substring(lowered(c.id@), lowered(t@));
        },
        None => {},
    }
    match q.author {
        Some(a) => {
            lemma_contains_is_substring(lowered(c.author.name@), lowered(a@));
            lemma_contains_is_substring(lowered(c.author.email@), lowered(a@));
        },
        None => {},
    }
}

/// The hash criterion is a prefix test on the lowercased id: a commit that a
/// query with a hash matches has a lowercased id beginning with the lowercased
/// hash, and when the hash is the only criterion, every such commit matches.
pub proof fn lemma_hash_is_a_prefix(c: CommitInfo, q: SearchQuery)
    requires
        q.commit_hash is Some,
    ensures
        ({
            let id = lowered(c.id@);
            let h = lowered(q.commit_hash->0@);
            &&& commit_matches(c, q) ==> h.len() <= id.len() && id.subrange(0, h.len() as int) == h
            &&& (q.text is None && q.author is None && q.since is None && q.until is None && h.len() <= id.len()
                && id.subrange(0, h.len() as int) == h) ==> commit_matches(c, q)
        }),
{
}

/// Every commit that a search with a hash returns has a lowercased id that
/// begins with the lowercased hash: no other commit is ever returned.
pub proof fn lemma_search_hash_results(rs: Seq<SearchResult>, cs: Seq<CommitInfo>, q: SearchQuery)
    requires
        q.commit_hash is Some,
        search_results(rs, cs, q),
    ensures
        forall|i: int|
            0 <= i < rs.len() ==> {
                let id = lowered((#[trigger] rs[i]).commit.id@);
                let h = lowered(q.commit_hash->0@);
                h.len() <= id.len() && id.subrange(0, h.len() as int) == h
            },
{
    let pred = |c: CommitInfo| commit_matches(c, q);
    assert forall|i: int| 0 <= i < rs.len() implies {
        let id = lowered((#[trigger] rs[i]).commit.id@);
        let h = lowered(q.commit_hash->0@);
        h.len() <= id.len() && id.subrange(0, h.len() as int) == h
    } by {
        let m = cs.filter(pred);
        assert(result_for(rs[i], m[i], q));
        cs.lemma_filter_pred(pred, i);
        lemma_hash_is_a_prefix(m[i], q);
        assert(rs[i].commit.id@ == m[i].id@);
    }
}

/// A query with no criterion matches every commit, with no highlight.
pub proof fn lemma_empty_query_matches_all(c: CommitInfo, q: SearchQuery)
    requires
        q.text is None,
        q.author is None,
        q.since is None,
        q.until is None,
        q.commit_hash is None,
    ensures
        commit_matches(c, q),
        expected_highlights(c, q).len() == 0,
{
}

/// A query with no criterion returns every commit, in order.
pub proof fn lemma_empty_query_returns_all(rs: Seq<SearchResult>, cs: Seq<CommitInfo>, q: SearchQuery)
    requires
        q.text is None,
        q.author is None,
        q.since is None,
        q.until is None,
        q.commit_hash is None,
        search_results(rs, cs, q),
    ensures
        rs.len() == cs.len(),
        forall|i: int| 0 <= i < rs.len() ==> same_commit(#[trigger] rs[i].commit, cs[i]),
{
    let pred = |c: CommitInfo| commit_matches(c, q);
    assert(cs.filter(pred) == cs) by {
        lemma_filter_all(cs, pred);
    }
    assert forall|i: int| 0 <= i < rs.len() implies same_commit(#[trigger] rs[i].commit, cs[i]) by {
        assert(result_for(rs[i], cs.filter(pred)[i], q));
    }
}

/// Filtering by a predicate that holds of every element keeps the sequence.
proof fn lemma_filter_all<A>(s: Seq<A>, p: spec_fn(A) -> bool)
    requires
        forall|i: int| 0 <= i < s.len() ==> p(#[trigger] s[i]),
    ensures
        s.filter(p) == s,
    decreases s.len(),
{
    reveal(Seq::filter);
    if s.len() > 0 {
        lemma_filter_all(s.drop_last(), p);
        assert(s.drop_last().push(s.last()) =~= s);
    } else {
        assert(s.filter(p) =~= s);
    }
}

} // verus!
