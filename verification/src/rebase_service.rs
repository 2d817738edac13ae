//! Progress of a rebase, and the conflicted paths it reports.
use vstd::prelude::*;

use crate::models::{RebaseProgress, RebaseStepStatus};

verus! {

pub struct RebaseService;

/// The paths of `v`, each kept only at its first occurrence.
pub open spec fn dedup_paths(v: Seq<Seq<char>>) -> Seq<Seq<char>>
    decreases v.len(),
{
    if v.len() == 0 {
        Seq::empty()
    } else {
        let rest = dedup_paths(v.drop_last());
        if rest.contains(v.last()) {
            rest
        } else {
            rest.push(v.last())
        }
    }
}

/// The text of each string.
pub open spec fn string_views(v: Seq<String>) -> Seq<Seq<char>> {
    v.map_values(|s: String| s@)
}

/// Whether `v` holds a string with the text of `s`.
fn holds_path(v: &Vec<String>, s: &String) -> (b: bool)
    ensures
        b == string_views(v@).contains(s@),
{
    let mut k: usize = 0;
    while k < v.len()
        invariant
            k <= v@.len(),
            forall|m: int| 0 <= m < k ==> v@[m]@ != s@,
        decreases v@.len() - k,
    {
        if v[k] == *s {
            assert(string_views(v@)[k as int] == s@);
            return true;
        }
        k = k + 1;
    }
    false
}

/// The conflicted paths, each listed once, in the order first seen.
pub fn dedup_conflict_paths(paths: &[String]) -> (r: Vec<String>)
    ensures
        string_views(r@) == dedup_paths(string_views(paths@)),
{
    let mut r: Vec<String> = Vec::new();
    let mut k: usize = 0;
    while k < paths.len()
        invariant
            k <= paths@.len(),
            string_views(r@) == dedup_paths(string_views(paths@.take(k as int))),
        decreases paths@.len() - k,
    {
        assert(string_views(paths@.take(k + 1)).drop_last() =~= string_views(paths@.take(k as int)));
        assert(string_views(paths@.take(k + 1)).last() == paths@[k as int]@);
        if !holds_path(&r, &paths[k]) {
            let ghost before = string_views(r@);
            r.push(paths[k].clone());
            assert(string_views(r@) =~= before.push(paths@[k as int]@));
        }
        k = k + 1;
    }
    assert(paths@.take(paths@.len() as int) =~= paths@);
    r
}

/// The de-duplicated paths have no repeats and hold exactly the paths given.
pub proof fn lemma_dedup_paths(v: Seq<Seq<char>>)
    ensures
        dedup_paths(v).no_duplicates(),
        forall|s: Seq<char>| dedup_paths(v).contains(s) <==> v.contains(s),
    decreases v.len(),
{
    if v.len() > 0 {
        lemma_dedup_paths(v.drop_last());
        let rest = dedup_paths(v.drop_last());
        assert forall|s: Seq<char>| dedup_paths(v).contains(s) <==> v.contains(s) by {
            if v.contains(s) && !v.drop_last().contains(s) {
                let i = choose|i: int| 0 <= i < v.len() && v[i] == s;
                if i < v.len() - 1 {
                    assert(v.drop_last()[i] == s);
                }
                assert(s == v.last());
                if !rest.contains(v.last()) {
                    assert(dedup_paths(v)[rest.len() as int] == s);
                }
            }
            if v.drop_last().contains(s) {
                let i = choose|i: int| 0 <= i < v.drop_last().len() && v.drop_last()[i] == s;
                assert(v[i] == s);
            }
            if dedup_paths(v).contains(s) && !rest.contains(s) {
                assert(s == v.last());
                assert(v[v.len() - 1] == s);
            }
            if rest.contains(s) {
                let i = choose|i: int| 0 <= i < rest.len() && rest[i] == s;
                if !rest.contains(v.last()) {
                    assert(dedup_paths(v)[i] == s);
                }
            }
        }
    }
}

/// The step a rebase is at: the position after its current operation, or 0 before any.
pub open spec fn spec_current_step(current: Option<usize>) -> nat {
    match current {
        Some(c) => (c + 1) as nat,
        None => 0,
    }
}

impl RebaseService {
    pub fn new() -> Self {
        RebaseService
    }

    /// Check the conflicted paths of the index and return the step status: a
    /// conflict listing each path once when there are conflicts, else in progress.
    pub fn check_conflict_status(&self, has_conflicts: bool, paths: &[String]) -> (s: RebaseStepStatus)
        ensures
            !has_conflicts ==> s is InProgress,
            has_conflicts ==> (s matches RebaseStepStatus::Conflict { files } && string_views(files@)
                == dedup_paths(string_views(paths@))),
    {
        if has_conflicts {
            RebaseStepStatus::Conflict { files: dedup_conflict_paths(paths) }
        } else {
            RebaseStepStatus::InProgress
        }
    }

    /// Build the progress of a rebase from its current operation, its number
    /// of operations and its step status.
    pub fn build_progress(&self, current: Option<usize>, total: usize, status: RebaseStepStatus) -> (p: RebaseProgress)
        requires
            current matches Some(c) ==> c < usize::MAX,
        ensures
            p.current_step == spec_current_step(current),
            p.total_steps == total,
            p.status == status,
    {
        let current_step = match current {
            Some(c) => c + 1,
            None => 0,
        };
        RebaseProgress { current_step, total_steps: total, status }
    }

    /// The progress of a rebase with no operation left to replay.
    pub fn completed(&self, total: usize) -> (p: RebaseProgress)
        ensures
            p.current_step == total,
            p.total_steps == total,
            p.status is Completed,
    {
        RebaseProgress { current_step: total, total_steps: total, status: RebaseStepStatus::Completed }
    }
}

} // verus!
