//! Integration with the GitHub and GitLab hosting platforms: web addresses of
//! repositories, commits and branches derived from a remote URL, and the
//! (not yet connected) platform API operations.
use vstd::prelude::*;

use crate::error::{prefixed, GitError, IpcError};
use crate::text::concat3;
use crate::models::{CreatePrParams, PullRequest};

verus! {

// ---------------------------------------------------------------------------
// URL parsing
// ---------------------------------------------------------------------------

/// `s` with every trailing `c` removed.
pub open spec fn trim_end_char(s: Seq<char>, c: char) -> Seq<char>
    decreases s.len(),
{
    if s.len() > 0 && s.last() == c {
        trim_end_char(s.drop_last(), c)
    } else {
        s
    }
}

/// `s` ends with `.git`.
pub open spec fn ends_with_git(s: Seq<char>) -> bool {
    &&& s.len() >= 4
    &&& s[s.len() - 4] == '.'
    &&& s[s.len() - 3] == 'g'
    &&& s[s.len() - 2] == 'i'
    &&& s[s.len() - 1] == 't'
}

/// `s` with every trailing `.git` removed.
pub open spec fn trim_end_git(s: Seq<char>) -> Seq<char>
    decreases s.len(),
{
    if ends_with_git(s) {
        trim_end_git(s.subrange(0, s.len() - 4))
    } else {
        s
    }
}

/// The first position from `k` on where `s` holds `c`.
pub open spec fn find_char_from(s: Seq<char>, c: char, k: int) -> Option<int>
    decreases s.len() - k,
{
    if 0 <= k < s.len() {
        if s[k] == c {
            Some(k)
        } else {
            find_char_from(s, c, k + 1)
        }
    } else {
        None
    }
}

/// `s` begins with `p`.
pub open spec fn has_prefix(s: Seq<char>, p: Seq<char>) -> bool {
    p.len() <= s.len() && s.subrange(0, p.len() as int) == p
}

/// `owner/repo[/...]` with trailing slashes and `.git` suffixes removed from
/// the repository name; `None` when there is no slash or either part is empty.
pub open spec fn spec_parse_path_segments(path: Seq<char>) -> Option<(Seq<char>, Seq<char>)> {
    let p = trim_end_char(path, '/');
    match find_char_from(p, '/', 0) {
        None => None,
        Some(i) => {
            let rest = p.subrange(i + 1, p.len() as int);
            let seg = match find_char_from(rest, '/', 0) {
                Some(j) => rest.subrange(0, j),
                None => rest,
            };
            let owner = p.subrange(0, i);
            let repo = trim_end_git(seg);
            if owner.len() == 0 || repo.len() == 0 {
                None
            } else {
                Some((owner, repo))
            }
        },
    }
}

/// `k` copies of `.git`.
pub open spec fn git_suffixes(k: nat) -> Seq<char>
    decreases k,
{
    if k == 0 {
        Seq::empty()
    } else {
        git_suffixes((k - 1) as nat) + seq!['.', 'g', 'i', 't']
    }
}

/// No character of `s` is `c`.
pub open spec fn free_of(s: Seq<char>, c: char) -> bool {
    forall|i: int| 0 <= i < s.len() ==> s[i] != c
}

proof fn lemma_trim_git_suffixes(name: Seq<char>, k: nat)
    requires
        !(name.len() >= 4 && name.subrange(name.len() - 4, name.len() as int) == seq!['.', 'g', 'i', 't']),
    ensures
        trim_end_git(name + git_suffixes(k)) == name,
    decreases k,
{
    if k == 0 {
        assert(name + git_suffixes(0) =~= name);
        if ends_with_git(name) {
            assert(name.subrange(name.len() - 4, name.len() as int) =~= seq!['.', 'g', 'i', 't']);
        }
    } else {
        lemma_trim_git_suffixes(name, (k - 1) as nat);
        let w = name + git_suffixes(k);
        let v = name + git_suffixes((k - 1) as nat);
        assert(w =~= v + seq!['.', 'g', 'i', 't']);
        assert(ends_with_git(w));
        assert(w.subrange(0, w.len() - 4) =~= v);
    }
}

/// The path `owner/name` followed by any number of `.git` suffixes names
/// exactly that owner and that repository name, when neither holds a slash,
/// both are non-empty and the name does not itself end in `.git`: only
/// trailing `.git` suffixes are removed, nothing else of the name.
pub proof fn lemma_path_names_owner_and_repo(owner: Seq<char>, name: Seq<char>, k: nat)
    requires
        owner.len() > 0,
        name.len() > 0,
        free_of(owner, '/'),
        free_of(name, '/'),
        !(name.len() >= 4 && name.subrange(name.len() - 4, name.len() as int) == seq!['.', 'g', 'i', 't']),
    ensures
        spec_parse_path_segments(owner + seq!['/'] + name + git_suffixes(k)) == Some((owner, name)),
{
    let path = owner + seq!['/'] + name + git_suffixes(k);
    let tail = name + git_suffixes(k);
    assert(path =~= owner + seq!['/'] + tail);
    assert forall|i: int| 0 <= i < git_suffixes(k).len() implies git_suffixes(k)[i] != '/' by {
        lemma_git_suffixes_chars(k, i);
    }
    assert forall|i: int| 0 <= i < tail.len() implies tail[i] != '/' by {
        if i >= name.len() {
            assert(tail[i] == git_suffixes(k)[i - name.len()]);
        }
    }
    assert(path.last() != '/') by {
        assert(path.last() == tail[tail.len() - 1]);
    }
    assert(trim_end_char(path, '/') == path);
    let i = owner.len() as int;
    assert forall|m: int| 0 <= m < i implies path[m] != '/' by {
        assert(path[m] == owner[m]);
    }
    lemma_find_in_window(path, '/', 0, path.len() as int, i);
    assert(path.subrange(0, path.len() as int) =~= path);
    let rest = path.subrange(i + 1, path.len() as int);
    assert(rest =~= tail);
    lemma_find_char_from(rest, '/', 0);
    assert(path.subrange(0, i) =~= owner);
    lemma_trim_git_suffixes(name, k);
}

/// A remote `git@host:path` (the host holding no colon) names what its path
/// names, and so does `https://host/path` (the host holding no slash).
pub proof fn lemma_remote_names_its_path(host: Seq<char>, path: Seq<char>)
    ensures
        free_of(host, ':') ==> spec_parse_owner_repo(seq!['g', 'i', 't', '@'] + host + seq![':'] + path)
            == spec_parse_path_segments(path),
        free_of(host, '/') ==> spec_parse_owner_repo(
            seq!['h', 't', 't', 'p', 's', ':', '/', '/'] + host + seq!['/'] + path,
        ) == spec_parse_path_segments(path),
{
    if free_of(host, ':') {
        let url = seq!['g', 'i', 't', '@'] + host + seq![':'] + path;
        assert(has_prefix(url, seq!['g', 'i', 't', '@'])) by {
            assert(url.subrange(0, 4) =~= seq!['g', 'i', 't', '@']);
        }
        let rest = url.subrange(4, url.len() as int);
        assert(rest =~= host + seq![':'] + path);
        let c = host.len() as int;
        assert forall|m: int| 0 <= m < c implies rest[m] != ':' by {
            assert(rest[m] == host[m]);
        }
        lemma_find_in_window(rest, ':', 0, rest.len() as int, c);
        assert(rest.subrange(0, rest.len() as int) =~= rest);
        assert(rest.subrange(c + 1, rest.len() as int) =~= path);
    }
    if free_of(host, '/') {
        let url = seq!['h', 't', 't', 'p', 's', ':', '/', '/'] + host + seq!['/'] + path;
        assert(!has_prefix(url, seq!['g', 'i', 't', '@'])) by {
            assert(url[0] == 'h');
            if has_prefix(url, seq!['g', 'i', 't', '@']) {
                assert(url.subrange(0, 4)[0] == url[0]);
            }
        }
        assert(has_prefix(url, seq!['h', 't', 't', 'p', 's', ':', '/', '/'])) by {
            assert(url.subrange(0, 8) =~= seq!['h', 't', 't', 'p', 's', ':', '/', '/']);
        }
        let w = url.subrange(8, url.len() as int);
        assert(w =~= host + seq!['/'] + path);
        let sl = host.len() as int;
        assert forall|m: int| 0 <= m < sl implies w[m] != '/' by {
            assert(w[m] == host[m]);
        }
        lemma_find_in_window(w, '/', 0, w.len() as int, sl);
        assert(w.subrange(0, w.len() as int) =~= w);
        assert(w.subrange(sl + 1, w.len() as int) =~= path);
    }
}

/// The GitHub page of `git@host:owner/name.git` is `https://github.com/owner/name`:
/// the repository name is kept whole, dots included, and only `.git` suffixes go.
pub proof fn lemma_github_page_keeps_repo_name(host: Seq<char>, owner: Seq<char>, name: Seq<char>, k: nat)
    requires
        free_of(host, ':'),
        owner.len() > 0,
        name.len() > 0,
        free_of(owner, '/'),
        free_of(name, '/'),
        !(name.len() >= 4 && name.subrange(name.len() - 4, name.len() as int) == seq!['.', 'g', 'i', 't']),
    ensures
        web_url(
            "https://github.com/"@,
            seq!['g', 'i', 't', '@'] + host + seq![':'] + owner + seq!['/'] + name + git_suffixes(k),
            Seq::empty(),
        ) == Some("https://github.com/"@ + owner + "/"@ + name),
{
    let path = owner + seq!['/'] + name + git_suffixes(k);
    lemma_path_names_owner_and_repo(owner, name, k);
    lemma_remote_names_its_path(host, path);
    let url = seq!['g', 'i', 't', '@'] + host + seq![':'] + owner + seq!['/'] + name + git_suffixes(k);
    assert(url =~= seq!['g', 'i', 't', '@'] + host + seq![':'] + path);
    assert("https://github.com/"@ + owner + "/"@ + name + Seq::<char>::empty() =~= "https://github.com/"@ + owner
        + "/"@ + name);
}

proof fn lemma_trim_end_char_concat(x: Seq<char>, y: Seq<char>, c: char)
    requires
        x.len() > 0,
        x.last() != c,
    ensures
        x.len() <= trim_end_char(x + y, c).len() <= x.len() + y.len(),
        trim_end_char(x + y, c) == x + y.subrange(0, trim_end_char(x + y, c).len() - x.len()),
    decreases y.len(),
{
    if y.len() == 0 {
        assert(x + y =~= x);
        assert(y.subrange(0, 0) =~= y);
    } else if y.last() == c {
        assert((x + y).last() == c);
        assert((x + y).drop_last() =~= x + y.drop_last());
        lemma_trim_end_char_concat(x, y.drop_last(), c);
        let t = trim_end_char(x + y.drop_last(), c);
        assert(y.drop_last().subrange(0, t.len() - x.len()) =~= y.subrange(0, t.len() - x.len()));
    } else {
        assert((x + y).last() == y.last());
        assert(y.subrange(0, y.len() as int) =~= y);
    }
}

/// What follows the repository name after a slash (a branch page, a file
/// path, trailing slashes) does not change the owner and repository named.
pub proof fn lemma_path_ignores_what_follows(owner: Seq<char>, name: Seq<char>, k: nat, more: Seq<char>)
    requires
        owner.len() > 0,
        name.len() > 0,
        free_of(owner, '/'),
        free_of(name, '/'),
        !(name.len() >= 4 && name.subrange(name.len() - 4, name.len() as int) == seq!['.', 'g', 'i', 't']),
    ensures
        spec_parse_path_segments(owner + seq!['/'] + name + git_suffixes(k) + seq!['/'] + more) == Some((owner, name)),
{
    let head = owner + seq!['/'] + name + git_suffixes(k);
    let tail = seq!['/'] + more;
    let path = head + tail;
    assert(owner + seq!['/'] + name + git_suffixes(k) + seq!['/'] + more =~= path);
    let nt = name + git_suffixes(k);
    assert(head =~= owner + seq!['/'] + nt);
    assert forall|i: int| 0 <= i < git_suffixes(k).len() implies git_suffixes(k)[i] != '/' by {
        lemma_git_suffixes_chars(k, i);
    }
    assert forall|i: int| 0 <= i < nt.len() implies nt[i] != '/' by {
        if i >= name.len() {
            assert(nt[i] == git_suffixes(k)[i - name.len()]);
        }
    }
    assert(head.last() != '/') by {
        assert(head.last() == nt[nt.len() - 1]);
    }
    lemma_trim_end_char_concat(head, tail, '/');
    let p = trim_end_char(path, '/');
    let t = tail.subrange(0, p.len() - head.len());
    assert(p == head + t);
    let i = owner.len() as int;
    assert forall|m: int| 0 <= m < i implies p[m] != '/' by {
        assert(p[m] == owner[m]);
    }
    assert(p[i] == '/');
    lemma_find_in_window(p, '/', 0, p.len() as int, i);
    assert(p.subrange(0, p.len() as int) =~= p);
    let rest = p.subrange(i + 1, p.len() as int);
    assert(rest =~= nt + t);
    assert(p.subrange(0, i) =~= owner);
    let ln = nt.len() as int;
    assert forall|m: int| 0 <= m < ln implies rest[m] != '/' by {
        assert(rest[m] == nt[m]);
    }
    if t.len() > 0 {
        assert(t[0] == tail[0]);
        assert(rest[ln] == t[0]);
        lemma_find_in_window(rest, '/', 0, rest.len() as int, ln);
        assert(rest.subrange(0, rest.len() as int) =~= rest);
        assert(rest.subrange(0, ln) =~= nt);
    } else {
        assert(rest =~= nt);
        lemma_find_char_from(rest, '/', 0);
    }
    lemma_trim_git_suffixes(name, k);
}

proof fn lemma_git_suffixes_chars(k: nat, i: int)
    requires
        0 <= i < git_suffixes(k).len(),
    ensures
        git_suffixes(k)[i] != '/',
        git_suffixes(k).len() == 4 * k,
    decreases k,
{
    if k > 0 {
        let prev = git_suffixes((k - 1) as nat);
        lemma_git_suffixes_len((k - 1) as nat);
        if i < prev.len() {
            lemma_git_suffixes_chars((k - 1) as nat, i);
        }
    }
}

proof fn lemma_git_suffixes_len(k: nat)
    ensures
        git_suffixes(k).len() == 4 * k,
    decreases k,
{
    if k > 0 {
        lemma_git_suffixes_len((k - 1) as nat);
    }
}

/// The owner and repository named by a remote URL: `git@host:owner/repo.git`
/// or `http(s)://host/owner/repo.git`.
pub open spec fn spec_parse_owner_repo(url: Seq<char>) -> Option<(Seq<char>, Seq<char>)> {
    if has_prefix(url, seq!['g', 'i', 't', '@']) {
        let rest = url.subrange(4, url.len() as int);
        match find_char_from(rest, ':', 0) {
            Some(c) => spec_parse_path_segments(rest.subrange(c + 1, rest.len() as int)),
            None => None,
        }
    } else {
        let without_scheme = if has_prefix(url, seq!['h', 't', 't', 'p', 's', ':', '/', '/']) {
            Some(url.subrange(8, url.len() as int))
        } else if has_prefix(url, seq!['h', 't', 't', 'p', ':', '/', '/']) {
            Some(url.subrange(7, url.len() as int))
        } else {
            None
        };
        match without_scheme {
            Some(w) => match find_char_from(w, '/', 0) {
                Some(sl) => spec_parse_path_segments(w.subrange(sl + 1, w.len() as int)),
                None => None,
            },
            None => None,
        }
    }
}

proof fn lemma_find_char_from(s: Seq<char>, c: char, k: int)
    requires
        0 <= k,
    ensures
        find_char_from(s, c, k) matches Some(i) ==> k <= i < s.len() && s[i] == c && forall|m: int|
            k <= m < i ==> s[m] != c,
        find_char_from(s, c, k) is None ==> forall|m: int| k <= m < s.len() ==> s[m] != c,
    decreases s.len() - k,
{
    if 0 <= k < s.len() && s[k] != c {
        lemma_find_char_from(s, c, k + 1);
    }
}

/// The first position in `from..to` of `s` that holds `c`, or `to`.
pub(crate) fn find_char_in(s: &str, c: char, from: usize, to: usize) -> (r: usize)
    requires
        from <= to <= s@.len(),
    ensures
        from <= r <= to,
        forall|m: int| from <= m < r ==> s@[m] != c,
        r < to ==> s@[r as int] == c,
{
    let mut k = from;
    while k < to
        invariant
            from <= k <= to <= s@.len(),
            forall|m: int| from <= m < k ==> s@[m] != c,
        decreases to - k,
    {
        if s.get_char(k) == c {
            return k;
        }
        k = k + 1;
    }
    k
}

/// Where the first `c` of a sequence lies, seen through a window of it.
pub(crate) proof fn lemma_find_in_window(s: Seq<char>, c: char, from: int, to: int, r: int)
    requires
        0 <= from <= r <= to <= s.len(),
        forall|m: int| from <= m < r ==> s[m] != c,
        r < to ==> s[r] == c,
    ensures
        find_char_from(s.subrange(from, to), c, 0) == (if r < to {
            Some(r - from)
        } else {
            None::<int>
        }),
{
    let w = s.subrange(from, to);
    lemma_find_char_from(w, c, 0);
    if r < to {
        assert(w[r - from] == c);
        match find_char_from(w, c, 0) {
            Some(i) => {
                if i < r - from {
                    assert(w[i] == s[from + i]);
                }
            },
            None => {},
        }
    } else {
        match find_char_from(w, c, 0) {
            Some(i) => {
                assert(w[i] == s[from + i]);
            },
            None => {},
        }
    }
}

proof fn lemma_trim_end_char_step(s: Seq<char>, c: char, end: int)
    requires
        0 < end <= s.len(),
        s[end - 1] == c,
    ensures
        trim_end_char(s.subrange(0, end), c) == trim_end_char(s.subrange(0, end - 1), c),
{
    assert(s.subrange(0, end).drop_last() =~= s.subrange(0, end - 1));
}

proof fn lemma_trim_end_git_step(s: Seq<char>, from: int, end: int)
    requires
        0 <= from,
        from + 4 <= end <= s.len(),
        s[end - 4] == '.',
        s[end - 3] == 'g',
        s[end - 2] == 'i',
        s[end - 1] == 't',
    ensures
        trim_end_git(s.subrange(from, end)) == trim_end_git(s.subrange(from, end - 4)),
{
    let w = s.subrange(from, end);
    assert(ends_with_git(w));
    assert(w.subrange(0, w.len() - 4) =~= s.subrange(from, end - 4));
}

/// The length of `path` without its trailing `c` characters.
fn trimmed_end(path: &str, c: char) -> (end: usize)
    ensures
        end <= path@.len(),
        path@.subrange(0, end as int) == trim_end_char(path@, c),
{
    let ghost s = path@;
    let n = path.unicode_len();
    let mut end = n;
    let mut done = false;
    assert(s.subrange(0, n as int) =~= s);
    while !done
        invariant
            s == path@,
            end <= n,
            n == s.len(),
            trim_end_char(s.subrange(0, end as int), c) == trim_end_char(s, c),
            done ==> end == 0 || s[end - 1] != c,
        decreases end + (if done { 0int } else { 1int }),
    {
        if end > 0 && path.get_char(end - 1) == c {
            proof {
                lemma_trim_end_char_step(s, c, end as int);
            }
            end = end - 1;
        } else {
            done = true;
        }
    }
    assert(trim_end_char(s.subrange(0, end as int), c) == s.subrange(0, end as int));
    end
}

/// The end of the window `from..to` of `path` once every trailing `.git` is removed.
fn trimmed_git_end(path: &str, from: usize, to: usize) -> (end: usize)
    requires
        from <= to <= path@.len(),
    ensures
        from <= end <= to,
        path@.subrange(from as int, end as int) == trim_end_git(path@.subrange(from as int, to as int)),
{
    let ghost s = path@;
    let mut r_end = to;
    let mut stripped = false;
    while !stripped
        invariant
            s == path@,
            from <= r_end <= to <= s.len(),
            trim_end_git(s.subrange(from as int, r_end as int)) == trim_end_git(s.subrange(from as int, to as int)),
            stripped ==> !(r_end - from >= 4 && s[r_end - 4] == '.' && s[r_end - 3] == 'g' && s[r_end - 2] == 'i'
                && s[r_end - 1] == 't'),
        decreases r_end + (if stripped { 0int } else { 1int }),
    {
        if r_end - from >= 4 && path.get_char(r_end - 4) == '.' && path.get_char(r_end - 3) == 'g'
            && path.get_char(r_end - 2) == 'i' && path.get_char(r_end - 1) == 't' {
            proof {
                lemma_trim_end_git_step(s, from as int, r_end as int);
            }
            r_end = r_end - 4;
        } else {
            stripped = true;
        }
    }
    proof {
        let w = s.subrange(from as int, r_end as int);
        if ends_with_git(w) {
            assert(w[w.len() - 4] == s[r_end - 4]);
            assert(w[w.len() - 3] == s[r_end - 3]);
            assert(w[w.len() - 2] == s[r_end - 2]);
            assert(w[w.len() - 1] == s[r_end - 1]);
        }
        assert(trim_end_git(w) == w);
    }
    r_end
}

/// Parses "owner/repo.git" or "owner/repo" into (owner, repo).
pub fn parse_path_segments(path: &str) -> (r: Option<(String, String)>)
    ensures
        match r {
            Some((o, p)) => spec_parse_path_segments(path@) == Some((o@, p@)),
            None => spec_parse_path_segments(path@) is None,
        },
{
    let ghost s = path@;
    let end = trimmed_end(path, '/');
    let ghost p = s.subrange(0, end as int);
    let i = find_char_in(path, '/', 0, end);
    proof {
        lemma_find_in_window(s, '/', 0, end as int, i as int);
    }
    if i == end {
        return None;
    }
    let j = find_char_in(path, '/', i + 1, end);
    proof {
        let rest = p.subrange(i + 1, p.len() as int);
        assert(rest =~= s.subrange(i + 1, end as int));
        lemma_find_in_window(s, '/', i + 1, end as int, j as int);
        if j < end {
            assert(rest.subrange(0, j - (i + 1)) =~= s.subrange(i + 1, j as int));
        }
    }
    let r_end = trimmed_git_end(path, i + 1, j);
    assert(p.subrange(0, i as int) =~= s.subrange(0, i as int));
    if i == 0 || r_end == i + 1 {
        return None;
    }
    let owner = path.substring_char(0, i).to_owned();
    let repo = path.substring_char(i + 1, r_end).to_owned();
    Some((owner, repo))
}

/// Whether `s` begins with the characters of `p`.
pub(crate) fn starts_with_chars(s: &str, p: &Vec<char>) -> (b: bool)
    ensures
        b == has_prefix(s@, p@),
{
    let n = s.unicode_len();
    if p.len() > n {
        return false;
    }
    let mut k: usize = 0;
    while k < p.len()
        invariant
            k <= p@.len() <= n,
            n == s@.len(),
            forall|m: int| 0 <= m < k ==> s@[m] == p@[m],
        decreases p@.len() - k,
    {
        if s.get_char(k) != p[k] {
            assert(s@.subrange(0, p@.len() as int)[k as int] != p@[k as int]);
            return false;
        }
        k = k + 1;
    }
    assert(s@.subrange(0, p@.len() as int) =~= p@);
    true
}

/// Extracts (owner, repo) from a remote URL.
/// Supports both SSH (git@host:owner/repo.git) and HTTPS (https://host/owner/repo.git) formats.
pub fn parse_owner_repo(remote_url: &str) -> (r: Option<(String, String)>)
    ensures
        match r {
            Some((o, p)) => spec_parse_owner_repo(remote_url@) == Some((o@, p@)),
            None => spec_parse_owner_repo(remote_url@) is None,
        },
{
    let ghost u = remote_url@;
    let n = remote_url.unicode_len();
    let ssh = vec!['g', 'i', 't', '@'];
    let https = vec!['h', 't', 't', 'p', 's', ':', '/', '/'];
    let http = vec!['h', 't', 't', 'p', ':', '/', '/'];
    assert(ssh@ =~= seq!['g', 'i', 't', '@']);
    assert(https@ =~= seq!['h', 't', 't', 'p', 's', ':', '/', '/']);
    assert(http@ =~= seq!['h', 't', 't', 'p', ':', '/', '/']);
    // SSH format: git@github.com:owner/repo.git
    if starts_with_chars(remote_url, &ssh) {
        let colon = find_char_in(remote_url, ':', 4, n);
        proof {
            lemma_find_in_window(u, ':', 4, n as int, colon as int);
        }
        if colon == n {
            return None;
        }
        let path = remote_url.substring_char(colon + 1, n);
        assert(path@ =~= u.subrange(4, n as int).subrange(colon - 4 + 1, n - 4));
        return parse_path_segments(path);
    }
    // HTTPS format: https://github.com/owner/repo.git
    let start: usize = if starts_with_chars(remote_url, &https) {
        8
    } else if starts_with_chars(remote_url, &http) {
        7
    } else {
        return None;
    };
    let slash = find_char_in(remote_url, '/', start, n);
    proof {
        lemma_find_in_window(u, '/', start as int, n as int, slash as int);
    }
    if slash == n {
        return None;
    }
    let path = remote_url.substring_char(slash + 1, n);
    assert(path@ =~= u.subrange(start as int, n as int).subrange(slash - start + 1, n - start));
    parse_path_segments(path)
}


// ---------------------------------------------------------------------------
// Errors and user information
// ---------------------------------------------------------------------------

#[derive(Debug, Clone)]
pub enum HostError {
    AuthFailed { reason: String },
    NotImplemented { message: String },
    InvalidUrl { url: String },
}

/// The text of a hosting-platform error.
pub open spec fn spec_host_error_message(e: HostError) -> Seq<char> {
    match e {
        HostError::AuthFailed { reason } => "Authentication failed: "@ + reason@,
        HostError::NotImplemented { message } => "API not implemented: "@ + message@,
        HostError::InvalidUrl { url } => "Invalid remote URL: "@ + url@,
    }
}

impl HostError {
    /// The human-readable text of the error.
    pub fn to_string(&self) -> (r: String)
        ensures
            r@ == spec_host_error_message(*self),
    {
        match self {
            HostError::AuthFailed { reason } => prefixed("Authentication failed: ", reason.as_str()),
            HostError::NotImplemented { message } => prefixed("API not implemented: ", message.as_str()),
            HostError::InvalidUrl { url } => prefixed("Invalid remote URL: ", url.as_str()),
        }
    }
}

/// `g` is the Git error that the hosting error `e` becomes: a failed
/// authentication stays one, anything else is an invalid argument with the
/// error's message (for a bad URL, prefixed by what was wrong).
pub open spec fn host_error_as_git(e: HostError, g: GitError) -> bool {
    match e {
        HostError::AuthFailed { .. } => g is AuthenticationFailed,
        HostError::NotImplemented { message } => g matches GitError::InvalidArgument(m) && m@ == message@,
        HostError::InvalidUrl { url } => g matches GitError::InvalidArgument(m) && m@ == "Invalid remote URL: "@
            + url@,
    }
}

impl From<HostError> for GitError {
    fn from(e: HostError) -> (r: Self)
        ensures
            host_error_as_git(e, r),
    {
        match e {
            HostError::AuthFailed { .. } => GitError::AuthenticationFailed,
            HostError::NotImplemented { message } => GitError::InvalidArgument(message),
            HostError::InvalidUrl { url } => GitError::InvalidArgument(prefixed("Invalid remote URL: ", url.as_str())),
        }
    }
}

/// The conversion builds a new message for a bad URL, which no spec function
/// can produce as a `String`; `from` states its result through
/// `host_error_as_git` instead.
impl vstd::std_specs::convert::FromSpecImpl<HostError> for GitError {
    open spec fn obeys_from_spec() -> bool {
        false
    }

    open spec fn from_spec(v: HostError) -> GitError {
        choose|g: GitError| host_error_as_git(v, g)
    }
}

#[derive(Debug, Clone)]
pub struct UserInfo {
    pub username: String,
    pub display_name: Option<String>,
    pub email: Option<String>,
}


// ---------------------------------------------------------------------------
// Providers
// ---------------------------------------------------------------------------

/// The text of an optional string.
pub open spec fn opt_view(o: Option<String>) -> Option<Seq<char>> {
    match o {
        Some(s) => Some(s@),
        None => None,
    }
}

/// The web address `base/owner/repo` followed by `tail`, for a remote URL that names an owner and a repository.
pub open spec fn web_url(base: Seq<char>, remote_url: Seq<char>, tail: Seq<char>) -> Option<Seq<char>> {
    match spec_parse_owner_repo(remote_url) {
        Some((o, r)) => Some(base + o + "/"@ + r + tail),
        None => None,
    }
}

/// A hosting platform: the web addresses it gives for a remote, and its API.
pub trait HostProvider: Sized {
    /// The web page of the repository behind `remote_url`, where one can be derived.
    spec fn repo_web_url_of(&self, remote_url: Seq<char>) -> Option<Seq<char>>;

    /// The web page of commit `sha` of the repository behind `remote_url`.
    spec fn commit_web_url_of(&self, remote_url: Seq<char>, sha: Seq<char>) -> Option<Seq<char>>;

    /// The web page of `branch` of the repository behind `remote_url`.
    spec fn branch_web_url_of(&self, remote_url: Seq<char>, branch: Seq<char>) -> Option<Seq<char>>;

    /// What an authentication with `token` may leave behind (`after`) and answer.
    spec fn authenticate_outcome(&self, token: Seq<char>, after: Self, r: Result<UserInfo, HostError>) -> bool;

    /// What listing the pull requests of `repo_url` may answer.
    spec fn list_outcome(&self, repo_url: Seq<char>, r: Result<Vec<PullRequest>, HostError>) -> bool;

    /// What creating a pull request from `params` may answer.
    spec fn create_outcome(&self, params: CreatePrParams, r: Result<PullRequest, HostError>) -> bool;

    fn authenticate(&mut self, token: &str) -> (r: Result<UserInfo, HostError>)
        ensures
            old(self).authenticate_outcome(token@, *final(self), r),
    ;

    fn list_pull_requests(&self, repo_url: &str) -> (r: Result<Vec<PullRequest>, HostError>)
        ensures
            self.list_outcome(repo_url@, r),
    ;

    fn create_pull_request(&self, params: CreatePrParams) -> (r: Result<PullRequest, HostError>)
        ensures
            self.create_outcome(params, r),
    ;

    fn repo_web_url(&self, remote_url: &str) -> (r: Option<String>)
        ensures
            opt_view(r) == self.repo_web_url_of(remote_url@),
    ;

    fn commit_web_url(&self, remote_url: &str, sha: &str) -> (r: Option<String>)
        ensures
            opt_view(r) == self.commit_web_url_of(remote_url@, sha@),
    ;

    fn branch_web_url(&self, remote_url: &str, branch: &str) -> (r: Option<String>)
        ensures
            opt_view(r) == self.branch_web_url_of(remote_url@, branch@),
    ;
}

/// `r` is the error "not implemented" with message `msg`.
pub open spec fn not_implemented<T>(r: Result<T, HostError>, msg: Seq<char>) -> bool {
    r matches Err(HostError::NotImplemented { message }) && message@ == msg
}

/// `base` + `owner/repo` + `tail` for the owner and repository of `remote_url`.
fn build_web_url(base: &str, remote_url: &str, tail1: &str, tail2: &str) -> (r: Option<String>)
    ensures
        opt_view(r) == web_url(base@, remote_url@, tail1@ + tail2@),
{
    match parse_owner_repo(remote_url) {
        Some((owner, repo)) => {
            let mut s = base.to_owned();
            s.append(owner.as_str());
            s.append("/");
            s.append(repo.as_str());
            s.append(tail1);
            s.append(tail2);
            assert(s@ =~= base@ + owner@ + "/"@ + repo@ + (tail1@ + tail2@));
            Some(s)
        },
        None => None,
    }
}

#[derive(Debug, Clone)]
pub struct GitHubProvider {
    token: Option<String>,
}

impl GitHubProvider {
    pub fn new() -> (p: Self)
        ensures
            p.stored_token() is None,
    {
        GitHubProvider { token: None }
    }

    /// The token the provider holds.
    pub closed spec fn stored_token(self) -> Option<Seq<char>> {
        opt_view(self.token)
    }
}

impl HostProvider for GitHubProvider {
    open spec fn repo_web_url_of(&self, remote_url: Seq<char>) -> Option<Seq<char>> {
        web_url("https://github.com/"@, remote_url, Seq::empty())
    }

    open spec fn commit_web_url_of(&self, remote_url: Seq<char>, sha: Seq<char>) -> Option<Seq<char>> {
        web_url("https://github.com/"@, remote_url, "/commit/"@ + sha)
    }

    open spec fn branch_web_url_of(&self, remote_url: Seq<char>, branch: Seq<char>) -> Option<Seq<char>> {
        web_url("https://github.com/"@, remote_url, "/tree/"@ + branch)
    }

    open spec fn authenticate_outcome(&self, token: Seq<char>, after: Self, r: Result<UserInfo, HostError>) -> bool {
        &&& after.stored_token() == Some(token)
        &&& not_implemented(r, "GitHub authentication requires HTTP client (not yet integrated)"@)
    }

    open spec fn list_outcome(&self, repo_url: Seq<char>, r: Result<Vec<PullRequest>, HostError>) -> bool {
        not_implemented(r, "GitHub list_pull_requests requires HTTP client (not yet integrated)"@)
    }

    open spec fn create_outcome(&self, params: CreatePrParams, r: Result<PullRequest, HostError>) -> bool {
        not_implemented(r, "GitHub create_pull_request requires HTTP client (not yet integrated)"@)
    }

    fn authenticate(&mut self, token: &str) -> (r: Result<UserInfo, HostError>) {
        // The token is kept; the request itself needs an HTTP client.
        self.token = Some(token.to_owned());
        Err(
            HostError::NotImplemented {
                message: "GitHub authentication requires HTTP client (not yet integrated)".to_owned(),
            },
        )
    }

    fn list_pull_requests(&self, repo_url: &str) -> (r: Result<Vec<PullRequest>, HostError>) {
        Err(
            HostError::NotImplemented {
                message: "GitHub list_pull_requests requires HTTP client (not yet integrated)".to_owned(),
            },
        )
    }

    fn create_pull_request(&self, params: CreatePrParams) -> (r: Result<PullRequest, HostError>) {
        Err(
            HostError::NotImplemented {
                message: "GitHub create_pull_request requires HTTP client (not yet integrated)".to_owned(),
            },
        )
    }

    fn repo_web_url(&self, remote_url: &str) -> (r: Option<String>) {
        let r = build_web_url("https://github.com/", remote_url, "", "");
        proof {
            reveal_strlit("");
            assert(""@ + ""@ =~= Seq::<char>::empty());
        }
        r
    }

    fn commit_web_url(&self, remote_url: &str, sha: &str) -> (r: Option<String>) {
        build_web_url("https://github.com/", remote_url, "/commit/", sha)
    }

    fn branch_web_url(&self, remote_url: &str, branch: &str) -> (r: Option<String>) {
        build_web_url("https://github.com/", remote_url, "/tree/", branch)
    }
}

#[derive(Debug, Clone)]
pub struct GitLabProvider {
    token: Option<String>,
}

impl GitLabProvider {
    pub fn new() -> (p: Self)
        ensures
            p.stored_token() is None,
    {
        GitLabProvider { token: None }
    }

    /// The token the provider holds.
    pub closed spec fn stored_token(self) -> Option<Seq<char>> {
        opt_view(self.token)
    }
}

impl HostProvider for GitLabProvider {
    open spec fn repo_web_url_of(&self, remote_url: Seq<char>) -> Option<Seq<char>> {
        web_url("https://gitlab.com/"@, remote_url, Seq::empty())
    }

    open spec fn commit_web_url_of(&self, remote_url: Seq<char>, sha: Seq<char>) -> Option<Seq<char>> {
        web_url("https://gitlab.com/"@, remote_url, "/-/commit/"@ + sha)
    }

    open spec fn branch_web_url_of(&self, remote_url: Seq<char>, branch: Seq<char>) -> Option<Seq<char>> {
        web_url("https://gitlab.com/"@, remote_url, "/-/tree/"@ + branch)
    }

    open spec fn authenticate_outcome(&self, token: Seq<char>, after: Self, r: Result<UserInfo, HostError>) -> bool {
        &&& after.stored_token() == Some(token)
        &&& not_implemented(r, "GitLab authentication requires HTTP client (not yet integrated)"@)
    }

    open spec fn list_outcome(&self, repo_url: Seq<char>, r: Result<Vec<PullRequest>, HostError>) -> bool {
        not_implemented(r, "GitLab list_pull_requests requires HTTP client (not yet integrated)"@)
    }

    open spec fn create_outcome(&self, params: CreatePrParams, r: Result<PullRequest, HostError>) -> bool {
        not_implemented(r, "GitLab create_pull_request requires HTTP client (not yet integrated)"@)
    }

    fn authenticate(&mut self, token: &str) -> (r: Result<UserInfo, HostError>) {
        self.token = Some(token.to_owned());
        Err(
            HostError::NotImplemented {
                message: "GitLab authentication requires HTTP client (not yet integrated)".to_owned(),
            },
        )
    }

    fn list_pull_requests(&self, repo_url: &str) -> (r: Result<Vec<PullRequest>, HostError>) {
        Err(
            HostError::NotImplemented {
                message: "GitLab list_pull_requests requires HTTP client (not yet integrated)".to_owned(),
            },
        )
    }

    fn create_pull_request(&self, params: CreatePrParams) -> (r: Result<PullRequest, HostError>) {
        Err(
            HostError::NotImplemented {
                message: "GitLab create_pull_request requires HTTP client (not yet integrated)".to_owned(),
            },
        )
    }

    fn repo_web_url(&self, remote_url: &str) -> (r: Option<String>) {
        let r = build_web_url("https://gitlab.com/", remote_url, "", "");
        proof {
            reveal_strlit("");
            assert(""@ + ""@ =~= Seq::<char>::empty());
        }
        r
    }

    fn commit_web_url(&self, remote_url: &str, sha: &str) -> (r: Option<String>) {
        build_web_url("https://gitlab.com/", remote_url, "/-/commit/", sha)
    }

    fn branch_web_url(&self, remote_url: &str, branch: &str) -> (r: Option<String>) {
        build_web_url("https://gitlab.com/", remote_url, "/-/tree/", branch)
    }
}

// ---------------------------------------------------------------------------
// HostIntegration (facade)
// ---------------------------------------------------------------------------

/// Forwards every request to the provider it holds.
pub struct HostIntegration<P: HostProvider> {
    provider: Box<P>,
}

impl<P: HostProvider> HostIntegration<P> {
    /// The provider the facade forwards to.
    pub closed spec fn provider_of(self) -> P {
        *self.provider
    }

    pub fn new(provider: Box<P>) -> (r: Self)
        ensures
            r.provider_of() == *provider,
    {
        HostIntegration { provider }
    }

    pub fn authenticate(&mut self, token: &str) -> (r: Result<UserInfo, HostError>)
        ensures
            old(self).provider_of().authenticate_outcome(token@, final(self).provider_of(), r),
    {
        (&mut *self.provider).authenticate(token)
    }

    pub fn list_pull_requests(&self, repo_url: &str) -> (r: Result<Vec<PullRequest>, HostError>)
        ensures
            self.provider_of().list_outcome(repo_url@, r),
    {
        self.provider.list_pull_requests(repo_url)
    }

    pub fn create_pull_request(&self, params: CreatePrParams) -> (r: Result<PullRequest, HostError>)
        ensures
            self.provider_of().create_outcome(params, r),
    {
        self.provider.create_pull_request(params)
    }

    pub fn repo_web_url(&self, remote_url: &str) -> (r: Option<String>)
        ensures
            opt_view(r) == self.provider_of().repo_web_url_of(remote_url@),
    {
        self.provider.repo_web_url(remote_url)
    }

    pub fn commit_web_url(&self, remote_url: &str, sha: &str) -> (r: Option<String>)
        ensures
            opt_view(r) == self.provider_of().commit_web_url_of(remote_url@, sha@),
    {
        self.provider.commit_web_url(remote_url, sha)
    }

    pub fn branch_web_url(&self, remote_url: &str, branch: &str) -> (r: Option<String>)
        ensures
            opt_view(r) == self.provider_of().branch_web_url_of(remote_url@, branch@),
    {
        self.provider.branch_web_url(remote_url, branch)
    }
}


/// A hosting platform that web addresses can be made for.
#[derive(Debug, Clone, Copy, PartialEq, Eq)]
pub enum HostPlatform {
    GitHub,
    GitLab,
}

/// The web address prefix of a platform.
pub open spec fn platform_base(p: HostPlatform) -> Seq<char> {
    match p {
        HostPlatform::GitHub => "https://github.com/"@,
        HostPlatform::GitLab => "https://gitlab.com/"@,
    }
}

/// The path segment before a commit id in a platform's commit address.
pub open spec fn platform_commit_path(p: HostPlatform) -> Seq<char> {
    match p {
        HostPlatform::GitHub => "/commit/"@,
        HostPlatform::GitLab => "/-/commit/"@,
    }
}

/// The path segment before a branch name in a platform's branch address.
pub open spec fn platform_tree_path(p: HostPlatform) -> Seq<char> {
    match p {
        HostPlatform::GitHub => "/tree/"@,
        HostPlatform::GitLab => "/-/tree/"@,
    }
}

impl HostPlatform {
    /// The web page of the repository behind `remote_url`, from the provider
    /// of this platform.
    pub fn repo_web_url(&self, remote_url: &str) -> (r: Option<String>)
        ensures
            opt_view(r) == web_url(platform_base(*self), remote_url@, Seq::empty()),
    {
        match self {
            HostPlatform::GitHub => GitHubProvider::new().repo_web_url(remote_url),
            HostPlatform::GitLab => GitLabProvider::new().repo_web_url(remote_url),
        }
    }

    /// The web page of commit `sha` of the repository behind `remote_url`.
    pub fn commit_web_url(&self, remote_url: &str, sha: &str) -> (r: Option<String>)
        ensures
            opt_view(r) == web_url(platform_base(*self), remote_url@, platform_commit_path(*self) + sha@),
    {
        match self {
            HostPlatform::GitHub => GitHubProvider::new().commit_web_url(remote_url, sha),
            HostPlatform::GitLab => GitLabProvider::new().commit_web_url(remote_url, sha),
        }
    }

    /// The web page of `branch` of the repository behind `remote_url`.
    pub fn branch_web_url(&self, remote_url: &str, branch: &str) -> (r: Option<String>)
        ensures
            opt_view(r) == web_url(platform_base(*self), remote_url@, platform_tree_path(*self) + branch@),
    {
        match self {
            HostPlatform::GitHub => GitHubProvider::new().branch_web_url(remote_url, branch),
            HostPlatform::GitLab => GitLabProvider::new().branch_web_url(remote_url, branch),
        }
    }
}

/// The platform named by `platform`: `github` or `gitlab`.
pub open spec fn spec_host_platform(platform: Seq<char>) -> Option<HostPlatform> {
    if platform == "github"@ {
        Some(HostPlatform::GitHub)
    } else if platform == "gitlab"@ {
        Some(HostPlatform::GitLab)
    } else {
        None
    }
}

/// Parse the name of a hosting platform; any name but `github` or `gitlab`
/// is an invalid argument.
pub fn get_host_provider(platform: &str) -> (r: Result<HostPlatform, IpcError>)
    ensures
        match spec_host_platform(platform@) {
            Some(p) => r == Ok::<HostPlatform, IpcError>(p),
            None => r matches Err(e) && e.error_type@ == "InvalidArgument"@ && e.message@ == "Unknown platform: '"@
                + platform@ + "'. Expected 'github' or 'gitlab'."@,
        },
{
    let p = platform.to_owned();
    if p == "github".to_owned() {
        Ok(HostPlatform::GitHub)
    } else if p == "gitlab".to_owned() {
        Ok(HostPlatform::GitLab)
    } else {
        Err(
            IpcError {
                error_type: "InvalidArgument".to_owned(),
                message: concat3("Unknown platform: '", platform, "'. Expected 'github' or 'gitlab'."),
            },
        )
    }
}

} // verus!
