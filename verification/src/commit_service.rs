//! Commit history: commit records and their reference labels, log filtering
//! and pagination, commit details and statistics, and the messages of
//! cherry-picks and reverts.
use vstd::prelude::*;
use vstd::string::StringSliceAdditionalSpecFns;
use vstd::utf8::{encode_utf8, is_char_boundary};

use crate::diff_service::{DeltaStatus, DiffEvent};
use crate::host_integration::{find_char_from, find_char_in, lemma_find_in_window};
use crate::models::{
    CherryPickResult, CommitDetail, CommitInfo, RevertResult, DiffStats, FileStatus, FileStatusType, LogOptions, RefLabel, RefType,
    SignatureInfo,
};
use crate::search_engine::{
    contains_bytes, contains_bytes_exec, is_substring, lemma_contains_is_substring, lowered, occurs_at, to_lowercase,
};
use crate::text::{
    append_slice, copy_bytes, decimal_string, decimal_text, find_byte, find_byte_from, skip_byte,
    trim_leading_byte, two_digit_string, two_digit_text,
};

verus! {

pub struct CommitService;

impl CommitService {
    pub fn new() -> Self {
        CommitService
    }
}

// ---------------------------------------------------------------------------
// Commit details
// ---------------------------------------------------------------------------

/// The status a file change is listed with in a commit's details.
pub open spec fn spec_detail_status(s: DeltaStatus) -> FileStatusType {
    match s {
        DeltaStatus::Added => FileStatusType::Untracked,
        DeltaStatus::Deleted => FileStatusType::Deleted,
        DeltaStatus::Renamed => FileStatusType::Renamed,
        _ => FileStatusType::Modified,
    }
}

/// The path of a reported file: its new path, else its old path, else empty.
pub open spec fn event_path(new_path: Option<String>, old_path: Option<String>) -> Seq<char> {
    match new_path {
        Some(p) => p@,
        None => match old_path {
            Some(p) => p@,
            None => Seq::empty(),
        },
    }
}

/// The files of a commit's diff walk with their statuses, in order.
pub open spec fn detail_files(events: Seq<DiffEvent>) -> Seq<(Seq<char>, FileStatusType)>
    decreases events.len(),
{
    if events.len() == 0 {
        Seq::empty()
    } else {
        let rest = detail_files(events.drop_last());
        match events.last() {
            DiffEvent::File { new_path, old_path, status, .. } => rest.push(
                (event_path(new_path, old_path), spec_detail_status(status)),
            ),
            _ => rest,
        }
    }
}

/// The number of diff lines with origin `c` in a walk.
pub open spec fn count_lines(events: Seq<DiffEvent>, c: char) -> nat
    decreases events.len(),
{
    if events.len() == 0 {
        0
    } else {
        count_lines(events.drop_last(), c) + match events.last() {
            DiffEvent::Line { origin, .. } => if origin == c {
                1nat
            } else {
                0nat
            },
            _ => 0nat,
        }
    }
}

pub open spec fn file_status_views(v: Seq<FileStatus>) -> Seq<(Seq<char>, FileStatusType)> {
    v.map_values(|f: FileStatus| (f.path@, f.status))
}

proof fn lemma_counts_bounded(events: Seq<DiffEvent>, c: char)
    ensures
        count_lines(events, c) <= events.len(),
        detail_files(events).len() <= events.len(),
    decreases events.len(),
{
    if events.len() > 0 {
        lemma_counts_bounded(events.drop_last(), c);
    }
}

/// The details of a commit from its record and the events of its diff walk:
/// the changed files with their statuses, and how many files, added lines and
/// deleted lines there are.
pub fn commit_detail_from(commit: CommitInfo, events: &[DiffEvent]) -> (r: CommitDetail)
    ensures
        r.commit == commit,
        file_status_views(r.files@) == detail_files(events@),
        r.stats.files_changed == detail_files(events@).len(),
        r.stats.insertions == count_lines(events@, '+'),
        r.stats.deletions == count_lines(events@, '-'),
{
    let mut files: Vec<FileStatus> = Vec::new();
    let mut insertions: usize = 0;
    let mut deletions: usize = 0;
    let mut k: usize = 0;
    while k < events.len()
        invariant
            k <= events@.len(),
            file_status_views(files@) == detail_files(events@.take(k as int)),
            insertions == count_lines(events@.take(k as int), '+'),
            deletions == count_lines(events@.take(k as int), '-'),
        decreases events@.len() - k,
    {
        proof {
            assert(events@.take(k + 1).drop_last() =~= events@.take(k as int));
            lemma_counts_bounded(events@.take(k as int), '+');
            lemma_counts_bounded(events@.take(k as int), '-');
        }
        match &events[k] {
            DiffEvent::File { new_path, old_path, status, .. } => {
                let path = match new_path {
                    Some(p) => p.clone(),
                    None => match old_path {
                        Some(p) => p.clone(),
                        None => String::new(),
                    },
                };
                let st = match status {
                    DeltaStatus::Added => FileStatusType::Untracked,
                    DeltaStatus::Deleted => FileStatusType::Deleted,
                    DeltaStatus::Renamed => FileStatusType::Renamed,
                    _ => FileStatusType::Modified,
                };
                let ghost before = file_status_views(files@);
                files.push(FileStatus { path, status: st });
                assert(file_status_views(files@) =~= before.push((files@.last().path@, st)));
            },
            DiffEvent::Line { origin, .. } => {
                if *origin == '+' {
                    insertions = insertions + 1;
                } else if *origin == '-' {
                    deletions = deletions + 1;
                }
            },
            _ => {},
        }
        k = k + 1;
    }
    assert(events@.take(events@.len() as int) =~= events@);
    let stats = DiffStats { files_changed: files.len(), insertions, deletions };
    CommitDetail { commit, files, stats }
}

// ---------------------------------------------------------------------------
// Reference labels
// ---------------------------------------------------------------------------

/// A reference: the commit it points at and its name.
#[derive(Debug, Clone)]
pub struct RefTarget {
    pub target: String,
    pub name: String,
}

/// A label as its name, its kind (0 local branch, 1 remote branch, 2 tag),
/// its remote and whether it is the checked-out branch.
pub open spec fn label_view(l: RefLabel) -> (Seq<char>, int, Seq<char>, bool) {
    match l.ref_type {
        RefType::LocalBranch => (l.name@, 0, Seq::empty(), l.is_head),
        RefType::RemoteBranch { remote } => (l.name@, 1, remote@, l.is_head),
        RefType::Tag => (l.name@, 2, Seq::empty(), l.is_head),
    }
}

/// A remote branch's full name split at its first slash into remote and
/// branch; without a slash the remote is empty.
pub open spec fn split_remote_name(full: Seq<char>) -> (Seq<char>, Seq<char>) {
    match find_char_from(full, '/', 0) {
        Some(pos) => (full.subrange(0, pos), full.subrange(pos + 1, full.len() as int)),
        None => (Seq::empty(), full),
    }
}

/// The label of a local branch; it is the head when its name is the head's short name.
pub open spec fn local_label(name: Seq<char>, head: Option<Seq<char>>) -> (Seq<char>, int, Seq<char>, bool) {
    (name, 0, Seq::empty(), head == Some(name))
}

/// The label of a remote branch.
pub open spec fn remote_label(full: Seq<char>) -> (Seq<char>, int, Seq<char>, bool) {
    (split_remote_name(full).1, 1, split_remote_name(full).0, false)
}

/// The label of a tag.
pub open spec fn tag_label(name: Seq<char>) -> (Seq<char>, int, Seq<char>, bool) {
    (name, 2, Seq::empty(), false)
}

/// Every label with the commit it points at: local branches, then remote
/// branches, then tags, each in the order given.
pub open spec fn spec_ref_entries(
    locals: Seq<RefTarget>,
    remotes: Seq<RefTarget>,
    tags: Seq<RefTarget>,
    head: Option<Seq<char>>,
) -> Seq<(Seq<char>, (Seq<char>, int, Seq<char>, bool))> {
    locals.map_values(|t: RefTarget| (t.target@, local_label(t.name@, head))) + remotes.map_values(
        |t: RefTarget| (t.target@, remote_label(t.name@)),
    ) + tags.map_values(|t: RefTarget| (t.target@, tag_label(t.name@)))
}

/// The labels of the references to every commit, as a list of commit and label.
pub struct RefMap {
    entries: Vec<(String, RefLabel)>,
}

impl RefMap {
    /// The commit and label of each entry, in order.
    pub closed spec fn view_entries(&self) -> Seq<(Seq<char>, (Seq<char>, int, Seq<char>, bool))> {
        self.entries@.map_values(|e: (String, RefLabel)| (e.0@, label_view(e.1)))
    }

    /// The labels of the references to commit `id`, in order.
    pub fn refs_for(&self, id: &String) -> (r: Vec<RefLabel>)
        ensures
            r@.map_values(|l: RefLabel| label_view(l)) == self.view_entries().filter(
                |e: (Seq<char>, (Seq<char>, int, Seq<char>, bool))| e.0 == id@,
            ).map_values(|e: (Seq<char>, (Seq<char>, int, Seq<char>, bool))| e.1),
    {
        let ghost all = self.view_entries();
        let ghost pred = |e: (Seq<char>, (Seq<char>, int, Seq<char>, bool))| e.0 == id@;
        let mut r: Vec<RefLabel> = Vec::new();
        let mut k: usize = 0;
        while k < self.entries.len()
            invariant
                k <= self.entries@.len(),
                all == self.view_entries(),
                pred == (|e: (Seq<char>, (Seq<char>, int, Seq<char>, bool))| e.0 == id@),
                r@.map_values(|l: RefLabel| label_view(l)) == all.take(k as int).filter(pred).map_values(
                    |e: (Seq<char>, (Seq<char>, int, Seq<char>, bool))| e.1,
                ),
            decreases self.entries@.len() - k,
        {
            proof {
                reveal(Seq::filter);
                assert(all.take(k + 1).drop_last() =~= all.take(k as int));
                assert(all.take(k + 1).last() == all[k as int]);
            }
            let e = &self.entries[k];
            if e.0 == *id {
                let ghost before = r@.map_values(|l: RefLabel| label_view(l));
                r.push(clone_label(&e.1));
                assert(r@.map_values(|l: RefLabel| label_view(l)) =~= before.push(label_view(e.1)));
            }
            proof {
                let f = all.take(k + 1).filter(pred);
                let g = all.take(k as int).filter(pred);
                if pred(all[k as int]) {
                    assert(f =~= g.push(all[k as int]));
                    assert(f.map_values(|e: (Seq<char>, (Seq<char>, int, Seq<char>, bool))| e.1) =~= g.map_values(
                        |e: (Seq<char>, (Seq<char>, int, Seq<char>, bool))| e.1,
                    ).push(all[k as int].1));
                } else {
                    assert(f =~= g);
                }
            }
            k = k + 1;
        }
        assert(all.take(all.len() as int) =~= all);
        r
    }
}

fn clone_label(l: &RefLabel) -> (r: RefLabel)
    ensures
        label_view(r) == label_view(*l),
{
    l.clone()
}

/// Split a remote branch's full name into remote and branch.
pub fn split_remote_branch(full: &str) -> (r: (String, String))
    ensures
        (r.0@, r.1@) == split_remote_name(full@),
{
    let n = full.unicode_len();
    let pos = find_char_in(full, '/', 0, n);
    proof {
        lemma_find_in_window(full@, '/', 0, n as int, pos as int);
        assert(full@.subrange(0, n as int) =~= full@);
    }
    if pos == n {
        return (String::new(), full.to_owned());
    }
    (full.substring_char(0, pos).to_owned(), full.substring_char(pos + 1, n).to_owned())
}

impl CommitService {
    /// The labels of all references, by the commit they point at: local
    /// branches (the head's one marked), remote branches split into remote and
    /// branch name, then tags.
    pub fn build_ref_map(
        &self,
        locals: &[RefTarget],
        remotes: &[RefTarget],
        tags: &[RefTarget],
        head_shorthand: &Option<String>,
    ) -> (m: RefMap)
        ensures
            m.view_entries() == spec_ref_entries(
                locals@,
                remotes@,
                tags@,
                match head_shorthand {
                    Some(h) => Some(h@),
                    None => None,
                },
            ),
    {
        let ghost head = match head_shorthand {
            Some(h) => Some(h@),
            None => None::<Seq<char>>,
        };
        let mut entries: Vec<(String, RefLabel)> = Vec::new();
        let ghost vw = |e: (String, RefLabel)| (e.0@, label_view(e.1));
        let mut k: usize = 0;
        while k < locals.len()
            invariant
                k <= locals@.len(),
                vw == (|e: (String, RefLabel)| (e.0@, label_view(e.1))),
                head == (match head_shorthand {
                    Some(h) => Some(h@),
                    None => None::<Seq<char>>,
                }),
                entries@.map_values(vw) == locals@.take(k as int).map_values(
                    |t: RefTarget| (t.target@, local_label(t.name@, head)),
                ),
            decreases locals@.len() - k,
        {
            let t = &locals[k];
            let is_head = match head_shorthand {
                Some(h) => *h == t.name,
                None => false,
            };
            let ghost before = entries@.map_values(vw);
            entries.push((t.target.clone(), RefLabel { name: t.name.clone(), ref_type: RefType::LocalBranch, is_head }));
            assert(entries@.map_values(vw) =~= before.push((t.target@, local_label(t.name@, head))));
            assert(locals@.take(k + 1).map_values(|t: RefTarget| (t.target@, local_label(t.name@, head))) =~= locals@.take(
                k as int,
            ).map_values(|t: RefTarget| (t.target@, local_label(t.name@, head))).push((t.target@, local_label(t.name@, head))));
            k = k + 1;
        }
        assert(locals@.take(locals@.len() as int) =~= locals@);
        let ghost after_locals = entries@.map_values(vw);
        let mut k: usize = 0;
        while k < remotes.len()
            invariant
                k <= remotes@.len(),
                vw == (|e: (String, RefLabel)| (e.0@, label_view(e.1))),
                entries@.map_values(vw) == after_locals + remotes@.take(k as int).map_values(
                    |t: RefTarget| (t.target@, remote_label(t.name@)),
                ),
            decreases remotes@.len() - k,
        {
            let t = &remotes[k];
            let (remote, name) = split_remote_branch(t.name.as_str());
            let ghost before = entries@.map_values(vw);
            entries.push((t.target.clone(), RefLabel { name, ref_type: RefType::RemoteBranch { remote }, is_head: false }));
            assert(entries@.map_values(vw) =~= before.push((t.target@, remote_label(t.name@))));
            assert(remotes@.take(k + 1).map_values(|t: RefTarget| (t.target@, remote_label(t.name@))) =~= remotes@.take(
                k as int,
            ).map_values(|t: RefTarget| (t.target@, remote_label(t.name@))).push((t.target@, remote_label(t.name@))));
            k = k + 1;
        }
        assert(remotes@.take(remotes@.len() as int) =~= remotes@);
        let ghost after_remotes = entries@.map_values(vw);
        let mut k: usize = 0;
        while k < tags.len()
            invariant
                k <= tags@.len(),
                vw == (|e: (String, RefLabel)| (e.0@, label_view(e.1))),
                entries@.map_values(vw) == after_remotes + tags@.take(k as int).map_values(
                    |t: RefTarget| (t.target@, tag_label(t.name@)),
                ),
            decreases tags@.len() - k,
        {
            let t = &tags[k];
            let ghost before = entries@.map_values(vw);
            entries.push((t.target.clone(), RefLabel { name: t.name.clone(), ref_type: RefType::Tag, is_head: false }));
            assert(entries@.map_values(vw) =~= before.push((t.target@, tag_label(t.name@))));
            assert(tags@.take(k + 1).map_values(|t: RefTarget| (t.target@, tag_label(t.name@))) =~= tags@.take(
                k as int,
            ).map_values(|t: RefTarget| (t.target@, tag_label(t.name@))).push((t.target@, tag_label(t.name@))));
            k = k + 1;
        }
        assert(tags@.take(tags@.len() as int) =~= tags@);
        let m = RefMap { entries };
        assert(m.view_entries() =~= spec_ref_entries(locals@, remotes@, tags@, head));
        m
    }
}


// ---------------------------------------------------------------------------
// Commit records
// ---------------------------------------------------------------------------

/// The length in bytes of the short form of an id: its first seven bytes.
pub open spec fn short_len(id: Seq<char>) -> int {
    if encode_utf8(id).len() < 7 {
        encode_utf8(id).len() as int
    } else {
        7
    }
}

/// The short form of an id can be cut from it: it ends on a character boundary.
pub open spec fn short_id_cuttable(id: Seq<char>) -> bool {
    is_char_boundary(encode_utf8(id), short_len(id))
}

/// The first seven bytes of `id` (all of it when it is shorter).
pub fn short_id_of(id: &str) -> (r: String)
    requires
        short_id_cuttable(id@),
    ensures
        encode_utf8(r@) == encode_utf8(id@).subrange(0, short_len(id@)),
{
    let n = id.as_bytes().len();
    let k: usize = if n < 7 {
        n
    } else {
        7
    };
    let (head, _) = id.split_at(k);
    head.to_owned()
}

/// The message marks a cherry-picked commit.
pub open spec fn marks_cherry_pick(message: Seq<char>) -> bool {
    contains_bytes(encode_utf8(message), encode_utf8("cherry picked from"@))
}

/// Convert the parts of a commit to our domain CommitInfo: the short id is
/// the first seven bytes of the id, and a commit whose message mentions
/// "cherry picked from" is marked as cherry-picked.
pub fn commit_info_from(
    id: String,
    message: String,
    author: SignatureInfo,
    committer: SignatureInfo,
    parent_ids: Vec<String>,
    refs: Vec<RefLabel>,
) -> (c: CommitInfo)
    requires
        short_id_cuttable(id@),
    ensures
        c.id == id,
        encode_utf8(c.short_id@) == encode_utf8(id@).subrange(0, short_len(id@)),
        c.message == message,
        c.author == author,
        c.committer == committer,
        c.parent_ids == parent_ids,
        c.refs == refs,
        c.is_cherry_picked == marks_cherry_pick(message@),
{
    let short_id = short_id_of(id.as_str());
    let is_cherry_picked = contains_bytes_exec(message.as_str().as_bytes(), "cherry picked from".as_bytes());
    CommitInfo { id, short_id, message, author, committer, parent_ids, refs, is_cherry_picked }
}

// ---------------------------------------------------------------------------
// Log filters and pages
// ---------------------------------------------------------------------------

/// A commit meets the author, date and message criteria of a log query; the
/// author and the message are matched case-insensitively.
pub open spec fn log_filters_match(name: Seq<char>, email: Seq<char>, time: i64, message: Seq<char>, o: LogOptions) -> bool {
    &&& (o.author matches Some(a) ==> contains_bytes(lowered(name), lowered(a@)) || contains_bytes(
        lowered(email),
        lowered(a@),
    ))
    &&& (o.since matches Some(s) ==> time >= s)
    &&& (o.until matches Some(u) ==> time <= u)
    &&& (o.search matches Some(q) ==> contains_bytes(lowered(message), lowered(q@)))
}

/// The message criterion is case-insensitive: it depends on the message only
/// through its lowercase form, so two messages that lowercase alike get the
/// same answer; and with the message text as the only criterion, a commit
/// matches exactly when the lowercased text occurs in the lowercased message.
pub proof fn lemma_message_search_ignores_case(
    name: Seq<char>,
    email: Seq<char>,
    time: i64,
    m1: Seq<char>,
    m2: Seq<char>,
    o: LogOptions,
)
    requires
        lowered(m1) == lowered(m2),
    ensures
        log_filters_match(name, email, time, m1, o) == log_filters_match(name, email, time, m2, o),
        (o.author is None && o.since is None && o.until is None && o.search is Some) ==> (log_filters_match(
            name,
            email,
            time,
            m1,
            o,
        ) <==> exists|p: int|
            0 <= p && p + lowered(o.search->0@).len() <= lowered(m1).len() && #[trigger] lowered(m1).subrange(
                p,
                p + lowered(o.search->0@).len(),
            ) == lowered(o.search->0@)),
{
    if o.search is Some {
        let hay = lowered(m1);
        let nd = lowered(o.search->0@);
        if contains_bytes(hay, nd) {
            let p = choose|p: int| occurs_at(hay, nd, p);
            assert(0 <= p && p + nd.len() <= hay.len() && hay.subrange(p, p + nd.len()) == nd);
        }
        if exists|p: int| 0 <= p && p + nd.len() <= hay.len() && #[trigger] hay.subrange(p, p + nd.len()) == nd {
            let p = choose|p: int| 0 <= p && p + nd.len() <= hay.len() && #[trigger] hay.subrange(p, p + nd.len()) == nd;
            assert(occurs_at(hay, nd, p));
        }
    }
}

/// What a log query asks of a commit, criterion by criterion (AND logic):
/// the lowercased author is a run of the lowercased name or email, the time
/// lies within `since` and `until`, both included, and the lowercased search
/// text is a run of the lowercased message.
pub proof fn lemma_log_criteria(name: Seq<char>, email: Seq<char>, time: i64, message: Seq<char>, o: LogOptions)
    ensures
        log_filters_match(name, email, time, message, o) <==> {
            &&& (o.author matches Some(a) ==> is_substring(lowered(name), lowered(a@)) || is_substring(
                lowered(email),
                lowered(a@),
            ))
            &&& (o.since matches Some(s) ==> s <= time)
            &&& (o.until matches Some(u) ==> time <= u)
            &&& (o.search matches Some(q) ==> is_substring(lowered(message), lowered(q@)))
        },
{
    match o.author {
        Some(a) => {
            lemma_contains_is_substring(lowered(name), lowered(a@));
            lemma_contains_is_substring(lowered(email), lowered(a@));
        },
        None => {},
    }
    match o.search {
        Some(q) => {
            lemma_contains_is_substring(lowered(message), lowered(q@));
        },
        None => {},
    }
}

/// The author criterion is case-insensitive in the same way: names and emails
/// that lowercase alike get the same answer.
pub proof fn lemma_author_filter_ignores_case(
    n1: Seq<char>,
    n2: Seq<char>,
    e1: Seq<char>,
    e2: Seq<char>,
    time: i64,
    message: Seq<char>,
    o: LogOptions,
)
    requires
        lowered(n1) == lowered(n2),
        lowered(e1) == lowered(e2),
    ensures
        log_filters_match(n1, e1, time, message, o) == log_filters_match(n2, e2, time, message, o),
{
}

impl CommitService {
    /// Check if a commit matches the author, date range and message criteria
    /// of `options` (the path criterion needs the repository and is checked
    /// after these).
    pub fn matches_filters(&self, name: &str, email: &str, time: i64, message: &str, options: &LogOptions) -> (b: bool)
        ensures
            b == log_filters_match(name@, email@, time, message@, *options),
    {
        match &options.author {
            Some(author_filter) => {
                let filter_lower = to_lowercase(author_filter.as_str());
                let name_lower = to_lowercase(name);
                let email_lower = to_lowercase(email);
                if !contains_bytes_exec(name_lower.as_str().as_bytes(), filter_lower.as_str().as_bytes())
                    && !contains_bytes_exec(email_lower.as_str().as_bytes(), filter_lower.as_str().as_bytes()) {
                    return false;
                }
            },
            None => {},
        }
        match options.since {
            Some(since) => {
                if time < since {
                    return false;
                }
            },
            None => {},
        }
        match options.until {
            Some(until) => {
                if time > until {
                    return false;
                }
            },
            None => {},
        }
        match &options.search {
            Some(search) => {
                let msg_lower = to_lowercase(message);
                let search_lower = to_lowercase(search.as_str());
                if !contains_bytes_exec(msg_lower.as_str().as_bytes(), search_lower.as_str().as_bytes()) {
                    return false;
                }
            },
            None => {},
        }
        true
    }
}

/// What to do with the next commit of a log walk.
#[derive(Debug, Clone, Copy, PartialEq, Eq)]
pub enum LogAction {
    /// Leave it out and go on.
    Skip,
    /// Add it to the page and go on.
    Take,
    /// The page is full: stop the walk.
    Stop,
}

/// Pagination of a log walk: the first `offset` matching commits are
/// skipped, then up to `limit` are taken (all of them when `limit` is zero).
pub struct LogPager {
    pub offset: usize,
    pub limit: usize,
    pub skipped: usize,
    pub taken: usize,
}

/// The pager after one more commit, and what it says to do with it.
pub open spec fn pager_step(p: (nat, nat), offset: nat, limit: nat, matched: bool) -> ((nat, nat), LogAction) {
    let (skipped, taken) = p;
    if !matched {
        (p, LogAction::Skip)
    } else if skipped < offset {
        ((skipped + 1, taken), LogAction::Skip)
    } else if limit > 0 && taken >= limit {
        (p, LogAction::Stop)
    } else {
        ((skipped, taken + 1), LogAction::Take)
    }
}

impl LogPager {
    pub fn new(offset: usize, limit: usize) -> (p: Self)
        ensures
            p.offset == offset,
            p.limit == limit,
            p.skipped == 0,
            p.taken == 0,
    {
        LogPager { offset, limit, skipped: 0, taken: 0 }
    }

    /// Decide about the next commit of the walk, which matched the filters or not.
    pub fn next(&mut self, matched: bool) -> (a: LogAction)
        requires
            old(self).skipped <= old(self).offset,
            old(self).taken < usize::MAX,
        ensures
            ((final(self).skipped as nat, final(self).taken as nat), a) == pager_step(
                (old(self).skipped as nat, old(self).taken as nat),
                old(self).offset as nat,
                old(self).limit as nat,
                matched,
            ),
            final(self).offset == old(self).offset,
            final(self).limit == old(self).limit,
            final(self).skipped <= final(self).offset,
    {
        if !matched {
            return LogAction::Skip;
        }
        if self.skipped < self.offset {
            self.skipped = self.skipped + 1;
            return LogAction::Skip;
        }
        if self.limit > 0 && self.taken >= self.limit {
            return LogAction::Stop;
        }
        self.taken = self.taken + 1;
        LogAction::Take
    }
}

/// The pager after a walk over commits that matched or not, and whether it stopped.
pub open spec fn pager_run(ms: Seq<bool>, offset: nat, limit: nat) -> ((nat, nat), bool)
    decreases ms.len(),
{
    if ms.len() == 0 {
        ((0, 0), false)
    } else {
        let (p, stopped) = pager_run(ms.drop_last(), offset, limit);
        if stopped {
            (p, true)
        } else {
            let (q, a) = pager_step(p, offset, limit, ms.last());
            (q, a is Stop)
        }
    }
}

/// The number of commits that matched.
pub open spec fn count_true(ms: Seq<bool>) -> nat
    decreases ms.len(),
{
    if ms.len() == 0 {
        0
    } else {
        count_true(ms.drop_last()) + if ms.last() {
            1nat
        } else {
            0nat
        }
    }
}

/// A page holds the matching commits after the first `offset`, at most
/// `limit` of them when `limit` is positive.
pub proof fn lemma_page_size(ms: Seq<bool>, offset: nat, limit: nat)
    ensures
        ({
            let ((skipped, taken), _) = pager_run(ms, offset, limit);
            let after = if count_true(ms) > offset {
                (count_true(ms) - offset) as nat
            } else {
                0nat
            };
            &&& skipped == if count_true(ms) < offset {
                count_true(ms)
            } else {
                offset
            }
            &&& taken == if limit > 0 && after > limit {
                limit
            } else {
                after
            }
        }),
    decreases ms.len(),
{
    if ms.len() > 0 {
        lemma_page_size(ms.drop_last(), offset, limit);
        let ((s0, t0), stopped) = pager_run(ms.drop_last(), offset, limit);
        if stopped {
            lemma_stop_means_full(ms.drop_last(), offset, limit);
        }
    }
}

/// Once the walk has stopped, the page is full and the offset used up.
proof fn lemma_stop_means_full(ms: Seq<bool>, offset: nat, limit: nat)
    requires
        pager_run(ms, offset, limit).1,
    ensures
        limit > 0,
        pager_run(ms, offset, limit).0.1 == limit,
        pager_run(ms, offset, limit).0.0 == offset,
        count_true(ms) > offset + limit,
    decreases ms.len(),
{
    let ((s0, t0), stopped) = pager_run(ms.drop_last(), offset, limit);
    lemma_page_size(ms.drop_last(), offset, limit);
    if stopped {
        lemma_stop_means_full(ms.drop_last(), offset, limit);
    }
}

// ---------------------------------------------------------------------------
// Cherry-pick and revert messages
// ---------------------------------------------------------------------------

/// The message of a cherry-picked commit: the original message and a note of where it comes from.
pub open spec fn spec_cherry_pick_message(message: Seq<char>, id: Seq<char>) -> Seq<char> {
    message + "\n\n(cherry picked from commit "@ + id + ")"@
}

/// `"{message}\n\n(cherry picked from commit {id})"`
pub fn cherry_pick_message(message: &str, id: &str) -> (r: String)
    ensures
        r@ == spec_cherry_pick_message(message@, id@),
{
    let mut r = message.to_owned();
    r.append("\n\n(cherry picked from commit ");
    r.append(id);
    r.append(")");
    r
}

/// `"Revert \"{message}\"\n\nThis reverts commit {short id}."`
pub fn revert_message(message: &str, id: &str) -> (r: String)
    requires
        short_id_cuttable(id@),
    ensures
        exists|short: Seq<char>|
            encode_utf8(short) == encode_utf8(id@).subrange(0, short_len(id@)) && r@ == "Revert \""@ + message@
                + "\"\n\nThis reverts commit "@ + short + "."@,
{
    let short = short_id_of(id);
    let mut r = "Revert \"".to_owned();
    r.append(message);
    r.append("\"\n\nThis reverts commit ");
    r.append(short.as_str());
    r.append(".");
    r
}


// ---------------------------------------------------------------------------
// Patch files
// ---------------------------------------------------------------------------

/// A message's subject (its first line) and body (the rest, without the
/// line feeds that begin it).
pub open spec fn split_subject(m: Seq<u8>) -> (Seq<u8>, Seq<u8>) {
    match find_byte_from(m, 10u8, 0) {
        Some(p) => (m.subrange(0, p), trim_leading_byte(m.subrange(p + 1, m.len() as int), 10u8)),
        None => (m, Seq::empty()),
    }
}

/// The marker byte written before a diff line: `+`, `-` or a space; nothing for other origins.
pub open spec fn origin_marker(c: char) -> Seq<u8> {
    if c == '+' {
        seq![43u8]
    } else if c == '-' {
        seq![45u8]
    } else if c == ' ' {
        seq![32u8]
    } else {
        Seq::empty()
    }
}

/// The diff part of a patch: each line's marker followed by its content.
pub open spec fn patch_diff(lines: Seq<(char, Vec<u8>)>) -> Seq<u8>
    decreases lines.len(),
{
    if lines.len() == 0 {
        Seq::empty()
    } else {
        patch_diff(lines.drop_last()) + origin_marker(lines.last().0) + lines.last().1@
    }
}

/// The absolute value of a time zone offset in minutes.
pub open spec fn abs_offset(off: i32) -> nat {
    if off >= 0 {
        off as nat
    } else {
        (-off) as nat
    }
}

/// The bytes of a patch in the format of `git format-patch`.
pub open spec fn patch_bytes(
    id: Seq<char>,
    name: Seq<char>,
    email: Seq<char>,
    seconds: i64,
    offset_minutes: i32,
    message: Seq<char>,
    stats: Seq<u8>,
    lines: Seq<(char, Vec<u8>)>,
) -> Seq<u8> {
    let (subject, body) = split_subject(encode_utf8(message));
    let sign: u8 = if offset_minutes >= 0 {
        43u8
    } else {
        45u8
    };
    encode_utf8("From "@) + encode_utf8(id) + encode_utf8(" Mon Sep 17 00:00:00 2001\n"@) + encode_utf8("From: "@)
        + encode_utf8(name) + encode_utf8(" <"@) + encode_utf8(email) + encode_utf8(">\n"@) + encode_utf8("Date: "@)
        + encode_utf8(decimal_text(seconds as int)) + encode_utf8(" "@) + seq![sign] + encode_utf8(
        two_digit_text(abs_offset(offset_minutes) / 60),
    ) + encode_utf8(two_digit_text(abs_offset(offset_minutes) % 60)) + encode_utf8("\n"@) + encode_utf8(
        "Subject: [PATCH] "@,
    ) + subject + encode_utf8("\n"@) + encode_utf8("\n"@) + (if body.len() > 0 {
        body + encode_utf8("\n"@)
    } else {
        Seq::empty()
    }) + encode_utf8("---\n"@) + stats + encode_utf8("\n"@) + patch_diff(lines) + encode_utf8("-- \n2.0.0\n"@)
}

impl CommitService {
    /// Generate a standard .patch file for a commit, formatted like `git
    /// format-patch`: the header (commit, author, date, subject), the body,
    /// the diff statistics and the diff lines.
    #[verifier::rlimit(30)]
    pub fn create_patch(
        &self,
        commit_id: &str,
        author_name: &str,
        author_email: &str,
        seconds: i64,
        offset_minutes: i32,
        message: &str,
        stats: &[u8],
        lines: &[(char, Vec<u8>)],
    ) -> (patch: Vec<u8>)
        ensures
            patch@ == patch_bytes(
                commit_id@,
                author_name@,
                author_email@,
                seconds,
                offset_minutes,
                message@,
                stats@,
                lines@,
            ),
    {
        let m = message.as_bytes();
        let nl = find_byte(m, 10u8);
        let (subject, body) = if nl < m.len() {
            let start = skip_byte(m, 10u8, nl + 1);
            (copy_bytes(m, 0, nl), copy_bytes(m, start, m.len()))
        } else {
            assert(m@.subrange(0, m@.len() as int) =~= m@);
            (copy_bytes(m, 0, m.len()), Vec::new())
        };
        assert((subject@, body@) == split_subject(encode_utf8(message@)));
        let mut patch: Vec<u8> = Vec::new();
        append_slice(&mut patch, "From ".as_bytes());
        append_slice(&mut patch, commit_id.as_bytes());
        append_slice(&mut patch, " Mon Sep 17 00:00:00 2001\n".as_bytes());
        append_slice(&mut patch, "From: ".as_bytes());
        append_slice(&mut patch, author_name.as_bytes());
        append_slice(&mut patch, " <".as_bytes());
        append_slice(&mut patch, author_email.as_bytes());
        append_slice(&mut patch, ">\n".as_bytes());
        append_slice(&mut patch, "Date: ".as_bytes());
        let secs = decimal_string(seconds);
        append_slice(&mut patch, secs.as_str().as_bytes());
        append_slice(&mut patch, " ".as_bytes());
        let abs: u32 = if offset_minutes >= 0 {
            patch.push(43u8);
            offset_minutes as u32
        } else {
            patch.push(45u8);
            (-(offset_minutes as i64)) as u32
        };
        let hh = two_digit_string(abs / 60);
        append_slice(&mut patch, hh.as_str().as_bytes());
        let mm = two_digit_string(abs % 60);
        append_slice(&mut patch, mm.as_str().as_bytes());
        append_slice(&mut patch, "\n".as_bytes());
        append_slice(&mut patch, "Subject: [PATCH] ".as_bytes());
        append_slice(&mut patch, subject.as_slice());
        append_slice(&mut patch, "\n".as_bytes());
        append_slice(&mut patch, "\n".as_bytes());
        if body.len() > 0 {
            append_slice(&mut patch, body.as_slice());
            append_slice(&mut patch, "\n".as_bytes());
        }
        append_slice(&mut patch, "---\n".as_bytes());
        append_slice(&mut patch, stats);
        append_slice(&mut patch, "\n".as_bytes());
        let ghost head = patch@;
        let mut k: usize = 0;
        while k < lines.len()
            invariant
                k <= lines@.len(),
                patch@ == head + patch_diff(lines@.take(k as int)),
            decreases lines@.len() - k,
        {
            let (origin, content) = &lines[k];
            let ghost before = patch@;
            if *origin == '+' {
                patch.push(43u8);
            } else if *origin == '-' {
                patch.push(45u8);
            } else if *origin == ' ' {
                patch.push(32u8);
            }
            assert(patch@ =~= before + origin_marker(*origin));
            append_slice(&mut patch, content.as_slice());
            assert(lines@.take(k + 1).drop_last() =~= lines@.take(k as int));
            assert(patch@ =~= head + patch_diff(lines@.take(k + 1)));
            k = k + 1;
        }
        assert(lines@.take(lines@.len() as int) =~= lines@);
        append_slice(&mut patch, "-- \n2.0.0\n".as_bytes());
        assert(patch@ =~= patch_bytes(
            commit_id@,
            author_name@,
            author_email@,
            seconds,
            offset_minutes,
            message@,
            stats@,
            lines@,
        ));
        patch
    }
}

// ---------------------------------------------------------------------------
// Cherry-pick and revert sequences
// ---------------------------------------------------------------------------

/// The ids of a list of strings.
pub open spec fn id_texts(v: Seq<String>) -> Seq<Seq<char>> {
    v.map_values(|s: String| s@)
}

/// A cherry-pick or revert of several commits in turn: the ids of the
/// commits made so far. Each commit is applied to the index; a conflict stops
/// the sequence at that commit, otherwise a commit is made and recorded.
pub struct ApplySequence {
    made: Vec<String>,
}

impl ApplySequence {
    /// The ids of the commits made so far, in order.
    pub closed spec fn made_ids(&self) -> Seq<Seq<char>> {
        id_texts(self.made@)
    }

    pub fn new() -> (r: Self)
        ensures
            r.made_ids().len() == 0,
    {
        ApplySequence { made: Vec::new() }
    }

    /// After commit `at` was cherry-picked into the index: its conflicts, if
    /// any, end the sequence with a conflict at `at`; else it goes on.
    pub fn cherry_pick_step(&self, conflicts: Option<Vec<String>>, at: &str) -> (r: Option<CherryPickResult>)
        ensures
            match conflicts {
                Some(f) => r matches Some(CherryPickResult::Conflict { files, at_commit }) && files@ == f@
                    && at_commit@ == at@,
                None => r is None,
            },
    {
        match conflicts {
            Some(files) => Some(CherryPickResult::Conflict { files, at_commit: at.to_owned() }),
            None => None,
        }
    }

    /// After commit `at` was reverted in the index: its conflicts, if any,
    /// end the sequence with a conflict at `at`; else it goes on.
    pub fn revert_step(&self, conflicts: Option<Vec<String>>, at: &str) -> (r: Option<RevertResult>)
        ensures
            match conflicts {
                Some(f) => r matches Some(RevertResult::Conflict { files, at_commit }) && files@ == f@
                    && at_commit@ == at@,
                None => r is None,
            },
    {
        match conflicts {
            Some(files) => Some(RevertResult::Conflict { files, at_commit: at.to_owned() }),
            None => None,
        }
    }

    /// Record the commit made for the last commit applied.
    pub fn record(&mut self, id: String)
        ensures
            final(self).made_ids() == old(self).made_ids().push(id@),
    {
        let ghost before = self.made@;
        self.made.push(id);
        assert(id_texts(self.made@) =~= id_texts(before).push(self.made@[before.len() as int]@));
    }

    /// The result of a cherry-pick that met no conflict: every commit made.
    pub fn cherry_pick_done(self) -> (r: CherryPickResult)
        ensures
            r matches CherryPickResult::Success { new_commits } && id_texts(new_commits@) == self.made_ids(),
    {
        CherryPickResult::Success { new_commits: self.made }
    }

    /// The result of a revert that met no conflict: every commit made.
    pub fn revert_done(self) -> (r: RevertResult)
        ensures
            r matches RevertResult::Success { new_commits } && id_texts(new_commits@) == self.made_ids(),
    {
        RevertResult::Success { new_commits: self.made }
    }
}

} // verus!
