//! The list of recently opened repositories: most recent first, each path
//! once, at most twenty entries.
use vstd::prelude::*;

use std::collections::VecDeque;

use crate::models::{RepoEntry, TabId};

verus! {

/// The most entries the list keeps.
pub const MAX_RECENT_REPOS: usize = 20;

/// The list after opening `path` (named `name`) at time `now`: the new entry
/// first, then the earlier entries for other paths in their order, cut to
/// the first twenty.
pub open spec fn spec_add_recent(es: Seq<(Seq<char>, Seq<char>, i64)>, path: Seq<char>, name: Seq<char>, now: i64) -> Seq<(Seq<char>, Seq<char>, i64)> {
    let all = seq![(path, name, now)] + other_paths(es, path);
    if all.len() > MAX_RECENT_REPOS {
        all.take(MAX_RECENT_REPOS as int)
    } else {
        all
    }
}

/// The entries for paths other than `path`, in order.
pub open spec fn other_paths(es: Seq<(Seq<char>, Seq<char>, i64)>, path: Seq<char>) -> Seq<(Seq<char>, Seq<char>, i64)> {
    es.filter(|e: (Seq<char>, Seq<char>, i64)| e.0 != path)
}

/// An entry as its path, name and time.
pub open spec fn entry_view(e: RepoEntry) -> (Seq<char>, Seq<char>, i64) {
    (e.path@, e.name@, e.last_opened)
}

pub open spec fn entry_views(es: Seq<RepoEntry>) -> Seq<(Seq<char>, Seq<char>, i64)> {
    es.map_values(|e: RepoEntry| entry_view(e))
}

/// No two entries share a path.
pub open spec fn paths_distinct(es: Seq<(Seq<char>, Seq<char>, i64)>) -> bool {
    forall|i: int, j: int| 0 <= i < j < es.len() ==> es[i].0 != es[j].0
}

/// Calls `chrono::Utc::now()`: the current time in milliseconds since the
/// Unix epoch. Nothing is claimed of the value.
#[verifier::external_body]
fn now_millis() -> (t: i64) {
    chrono::Utc::now().timestamp_millis()
}

/// The recently opened repositories, most recent first.
pub struct RecentRepos {
    entries: VecDeque<RepoEntry>,
}

impl RecentRepos {
    /// The entries, most recent first.
    pub closed spec fn view_entries(&self) -> Seq<(Seq<char>, Seq<char>, i64)> {
        entry_views(self.entries@)
    }

    pub fn new() -> (r: Self)
        ensures
            r.view_entries().len() == 0,
    {
        RecentRepos { entries: VecDeque::new() }
    }

    /// The entries, most recent first.
    pub fn entries(&self) -> (r: &VecDeque<RepoEntry>)
        ensures
            entry_views(r@) == self.view_entries(),
    {
        &self.entries
    }

    /// The entries of `self.entries` whose path is not `path`, in order; the
    /// list is left empty.
    fn take_other_paths(&mut self, path: &str) -> (r: VecDeque<RepoEntry>)
        ensures
            entry_views(r@) == other_paths(entry_views(old(self).entries@), path@),
    {
        let ghost keep = |e: (Seq<char>, Seq<char>, i64)| e.0 != path@;
        let ghost olds = entry_views(self.entries@);
        let path_owned = path.to_owned();
        let mut old: VecDeque<RepoEntry> = VecDeque::new();
        std::mem::swap(&mut old, &mut self.entries);
        let mut kept: VecDeque<RepoEntry> = VecDeque::new();
        let ghost mut k: int = 0;
        let ghost all_old = old@;
        while old.len() > 0
            invariant
                0 <= k <= all_old.len(),
                olds == entry_views(all_old),
                keep == (|e: (Seq<char>, Seq<char>, i64)| e.0 != path@),
                old@ == all_old.subrange(k, all_old.len() as int),
                path_owned@ == path@,
                entry_views(kept@) == olds.take(k).filter(keep),
            decreases old@.len(),
        {
            let front = old.pop_front();
            if let Some(e) = front {
                proof {
                    reveal(Seq::filter);
                    assert(olds.take(k + 1).drop_last() =~= olds.take(k));
                    assert(olds.take(k + 1).last() == entry_view(e));
                }
                let ghost before = entry_views(kept@);
                if e.path != path_owned {
                    kept.push_back(e);
                    assert(entry_views(kept@) =~= before.push(entry_view(e)));
                }
                proof {
                    k = k + 1;
                    assert(old@ =~= all_old.subrange(k, all_old.len() as int));
                }
            }
        }
        assert(olds.take(olds.len() as int) =~= olds);
        kept
    }

    /// Add or update a path in the list, opened at time `now` (milliseconds
    /// since the epoch): an earlier entry for the path is removed, the new one
    /// goes to the front, and the list is cut to its first twenty entries.
    pub fn add_recent_entry_at(&mut self, path: &str, name: &str, now: i64)
        ensures
            final(self).view_entries() == spec_add_recent(old(self).view_entries(), path@, name@, now),
    {
        let mut fresh = self.take_other_paths(path);
        let ghost rest = entry_views(fresh@);
        fresh.push_front(RepoEntry { path: path.to_owned(), name: name.to_owned(), last_opened: now });
        let ghost full = entry_views(fresh@);
        assert(full =~= seq![(path@, name@, now)] + rest);
        while fresh.len() > MAX_RECENT_REPOS
            invariant
                fresh@.len() <= full.len(),
                full.len() > MAX_RECENT_REPOS ==> fresh@.len() >= MAX_RECENT_REPOS,
                full.len() <= MAX_RECENT_REPOS ==> fresh@.len() == full.len(),
                entry_views(fresh@) == full.take(fresh@.len() as int),
            decreases fresh@.len(),
        {
            let ghost before = fresh@;
            fresh.pop_back();
            assert(entry_views(fresh@) =~= full.take(fresh@.len() as int));
        }
        assert(full.take(full.len() as int) =~= full);
        assert(full == seq![(path@, name@, now)] + other_paths(old(self).view_entries(), path@));
        self.entries = fresh;
    }

    /// Add or update a path in the list, opened now.
    pub fn add_recent_entry(&mut self, path: &str, name: &str)
        ensures
            exists|now: i64| final(self).view_entries() == spec_add_recent(old(self).view_entries(), path@, name@, now),
    {
        let now = now_millis();
        self.add_recent_entry_at(path, name, now);
    }

    /// Remove the entry for `path`, if any; the others keep their order.
    pub fn remove_recent_repo(&mut self, path: &str)
        ensures
            final(self).view_entries() == other_paths(old(self).view_entries(), path@),
    {
        let kept = self.take_other_paths(path);
        self.entries = kept;
    }

    /// Replace the list with loaded entries, in their order.
    pub fn set_entries(&mut self, entries: Vec<RepoEntry>)
        ensures
            final(self).view_entries() == entry_views(entries@),
    {
        let mut d: VecDeque<RepoEntry> = VecDeque::new();
        let mut src = entries;
        let ghost all = src@;
        while src.len() > 0
            invariant
                src@.len() <= all.len(),
                src@ == all.take(src@.len() as int),
                d@ == all.subrange(src@.len() as int, all.len() as int),
            decreases src@.len(),
        {
            let ghost n = src@.len();
            let e = src.pop().unwrap();
            assert(e == all[n - 1]);
            d.push_front(e);
            assert(d@ =~= all.subrange(n - 1, all.len() as int));
            assert(src@ =~= all.take(n - 1));
        }
        self.entries = d;
    }
}


/// Entries other than `path` kept from a list with distinct paths still have
/// distinct paths, none of them `path`.
proof fn lemma_filter_other_paths(es: Seq<(Seq<char>, Seq<char>, i64)>, path: Seq<char>)
    requires
        paths_distinct(es),
    ensures
        paths_distinct(other_paths(es, path)),
        forall|i: int| 0 <= i < other_paths(es, path).len() ==> (#[trigger] other_paths(es, path)[i]).0 != path,
        forall|x: (Seq<char>, Seq<char>, i64)| other_paths(es, path).contains(x) ==> es.contains(x),
    decreases es.len(),
{
    let keep = |e: (Seq<char>, Seq<char>, i64)| e.0 != path;
    reveal(Seq::filter);
    if es.len() > 0 {
        let init = es.drop_last();
        assert(paths_distinct(init)) by {
            assert forall|i: int, j: int| 0 <= i < j < init.len() implies init[i].0 != init[j].0 by {
                assert(init[i] == es[i] && init[j] == es[j]);
            }
        }
        lemma_filter_other_paths(init, path);
        let f0 = other_paths(init, path);
        let f = other_paths(es, path);
        assert(f == (if keep(es.last()) {
            f0.push(es.last())
        } else {
            f0
        }));
        assert forall|x: (Seq<char>, Seq<char>, i64)| f.contains(x) implies es.contains(x) by {
            let i = choose|i: int| 0 <= i < f.len() && f[i] == x;
            if i < f0.len() {
                assert(f0[i] == x);
                assert(f0.contains(x));
                assert(init.contains(x));
                let j = choose|j: int| 0 <= j < init.len() && init[j] == x;
                assert(es[j] == x);
            } else {
                assert(x == es.last());
                assert(es[es.len() - 1] == x);
            }
        }
        if keep(es.last()) {
            assert(f == f0.push(es.last()));
            assert forall|i: int, j: int| 0 <= i < j < f.len() implies f[i].0 != f[j].0 by {
                if j == f.len() - 1 {
                    assert(f[i] == f0[i]);
                    assert(f0.contains(f0[i]));
                    assert(init.contains(f0[i]));
                    let k = choose|k: int| 0 <= k < init.len() && init[k] == f0[i];
                    assert(es[k] == init[k]);
                    assert(es[k].0 != es[es.len() - 1].0);
                } else {
                    assert(f[i] == f0[i] && f[j] == f0[j]);
                }
            }
            assert forall|i: int| 0 <= i < f.len() implies (#[trigger] f[i]).0 != path by {
                if i < f0.len() {
                    assert(f[i] == f0[i]);
                }
            }
        } else {
            assert(f == f0);
        }
    } else {
        assert(other_paths(es, path) =~= Seq::<(Seq<char>, Seq<char>, i64)>::empty());
    }
}

/// After opening a repository, the list starts with it, holds at most twenty
/// entries, and (if its paths were distinct before) names no path twice.
pub proof fn lemma_recent_list(es: Seq<(Seq<char>, Seq<char>, i64)>, path: Seq<char>, name: Seq<char>, now: i64)
    requires
        paths_distinct(es),
    ensures
        spec_add_recent(es, path, name, now).len() <= MAX_RECENT_REPOS,
        spec_add_recent(es, path, name, now)[0] == (path, name, now),
        paths_distinct(spec_add_recent(es, path, name, now)),
{
    let keep = |e: (Seq<char>, Seq<char>, i64)| e.0 != path;
    lemma_filter_other_paths(es, path);
    let f = other_paths(es, path);
    let all = seq![(path, name, now)] + f;
    assert forall|i: int, j: int| 0 <= i < j < all.len() implies all[i].0 != all[j].0 by {
        if i == 0 {
            assert(all[j] == f[j - 1]);
        } else {
            assert(all[i] == f[i - 1] && all[j] == f[j - 1]);
        }
    }
    let r = spec_add_recent(es, path, name, now);
    if all.len() > MAX_RECENT_REPOS {
        assert forall|i: int, j: int| 0 <= i < j < r.len() implies r[i].0 != r[j].0 by {
            assert(r[i] == all[i] && r[j] == all[j]);
        }
    }
}

/// Times never increase along the list.
pub open spec fn newest_first(es: Seq<(Seq<char>, Seq<char>, i64)>) -> bool {
    forall|i: int, j: int| 0 <= i < j < es.len() ==> #[trigger] es[i].2 >= #[trigger] es[j].2
}

/// The entries other than `path` of a list that is newest first are newest
/// first, and each is an entry of the list.
proof fn lemma_filter_newest_first(es: Seq<(Seq<char>, Seq<char>, i64)>, path: Seq<char>)
    requires
        newest_first(es),
    ensures
        newest_first(other_paths(es, path)),
        forall|i: int|
            0 <= i < other_paths(es, path).len() ==> exists|k: int|
                0 <= k < es.len() && es[k] == #[trigger] other_paths(es, path)[i],
    decreases es.len(),
{
    let keep = |e: (Seq<char>, Seq<char>, i64)| e.0 != path;
    reveal(Seq::filter);
    if es.len() > 0 {
        let init = es.drop_last();
        assert forall|i: int, j: int| 0 <= i < j < init.len() implies #[trigger] init[i].2 >= #[trigger] init[j].2 by {
            assert(init[i] == es[i] && init[j] == es[j]);
        }
        lemma_filter_newest_first(init, path);
        let f0 = other_paths(init, path);
        let f = other_paths(es, path);
        assert(f == (if keep(es.last()) {
            f0.push(es.last())
        } else {
            f0
        }));
        assert forall|i: int| 0 <= i < f.len() implies exists|k: int| 0 <= k < es.len() && es[k] == #[trigger] f[i] by {
            if i < f0.len() {
                assert(f[i] == f0[i]);
                let k = choose|k: int| 0 <= k < init.len() && init[k] == #[trigger] f0[i];
                assert(es[k] == init[k]);
            } else {
                assert(es[es.len() - 1] == f[i]);
            }
        }
        if keep(es.last()) {
            assert forall|i: int, j: int| 0 <= i < j < f.len() implies #[trigger] f[i].2 >= #[trigger] f[j].2 by {
                assert(f[i] == f0[i]);
                if j == f.len() - 1 {
                    let k = choose|k: int| 0 <= k < init.len() && init[k] == #[trigger] f0[i];
                    assert(es[k] == init[k]);
                    assert(es[k].2 >= es[es.len() - 1].2);
                } else {
                    assert(f[j] == f0[j]);
                }
            }
        }
    } else {
        assert(other_paths(es, path) =~= Seq::<(Seq<char>, Seq<char>, i64)>::empty());
    }
}

/// Opening a repository at a time no earlier than that of any entry keeps the
/// list newest first.
pub proof fn lemma_recent_list_newest_first(
    es: Seq<(Seq<char>, Seq<char>, i64)>,
    path: Seq<char>,
    name: Seq<char>,
    now: i64,
)
    requires
        newest_first(es),
        forall|i: int| 0 <= i < es.len() ==> (#[trigger] es[i]).2 <= now,
    ensures
        newest_first(spec_add_recent(es, path, name, now)),
{
    lemma_filter_newest_first(es, path);
    let f = other_paths(es, path);
    let all = seq![(path, name, now)] + f;
    assert forall|i: int, j: int| 0 <= i < j < all.len() implies #[trigger] all[i].2 >= #[trigger] all[j].2 by {
        assert(all[j] == f[j - 1]);
        let k = choose|k: int| 0 <= k < es.len() && es[k] == #[trigger] f[j - 1];
        assert(es[k].2 <= now);
        if i > 0 {
            assert(all[i] == f[i - 1]);
        }
    }
    let r = spec_add_recent(es, path, name, now);
    if all.len() > MAX_RECENT_REPOS {
        assert forall|i: int, j: int| 0 <= i < j < r.len() implies #[trigger] r[i].2 >= #[trigger] r[j].2 by {
            assert(r[i] == all[i] && r[j] == all[j]);
        }
    }
}

// ---------------------------------------------------------------------------
// Tab ids
// ---------------------------------------------------------------------------

/// `c` is a lowercase hexadecimal digit.
pub open spec fn is_lower_hex(c: char) -> bool {
    ('0' <= c && c <= '9') || ('a' <= c && c <= 'f')
}

/// The text of a hyphenated UUID: thirty-six characters, hyphens at positions
/// 8, 13, 18 and 23, lowercase hexadecimal digits everywhere else.
pub open spec fn hyphenated_uuid(s: Seq<char>) -> bool {
    &&& s.len() == 36
    &&& forall|i: int|
        0 <= i < 36 ==> if i == 8 || i == 13 || i == 18 || i == 23 {
            #[trigger] s[i] == '-'
        } else {
            is_lower_hex(s[i])
        }
}

/// Calls `uuid::Uuid::new_v4()` and formats it with `Display`, which writes
/// the hyphenated lowercase form. The value is random: only its form is stated.
#[verifier::external_body]
fn random_uuid_text() -> (r: String)
    ensures
        hyphenated_uuid(r@),
{
    uuid::Uuid::new_v4().to_string()
}

/// A fresh id for a repository tab: a random version-4 UUID in its hyphenated form.
pub fn new_tab_id() -> (t: TabId)
    ensures
        hyphenated_uuid(t.0@),
{
    TabId(random_uuid_text())
}

} // verus!
