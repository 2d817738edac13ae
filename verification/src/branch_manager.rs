//! Branches: their listing records, the checks before deleting one, and the
//! plan and messages of a merge.
use vstd::prelude::*;

use crate::commit_service::split_remote_name;
use crate::error::GitError;
use crate::host_integration::{find_char_in, lemma_find_in_window};
use crate::models::{BranchInfo, BranchType, MergeResult};
use crate::text::concat3;

verus! {

pub struct BranchManager;

/// The remote of a remote branch: the part of its name before the first
/// slash, or empty without one.
pub open spec fn remote_of_branch(name: Seq<char>) -> Seq<char> {
    split_remote_name(name).0
}

/// The optional text of an optional string.
pub open spec fn opt_string_view(o: Option<String>) -> Option<Seq<char>> {
    match o {
        Some(s) => Some(s@),
        None => None,
    }
}

/// What is known of a branch's upstream: whether it has one, its name, the
/// commits both point at, and the ahead/behind counts if they could be computed.
#[derive(Debug, Clone)]
pub struct UpstreamFacts {
    pub has_upstream: bool,
    pub upstream_name: Option<String>,
    pub local_target: Option<String>,
    pub upstream_target: Option<String>,
    pub ahead_behind: Option<(usize, usize)>,
}

/// The upstream name and the ahead/behind counts shown for a branch: nothing
/// without an upstream; zero counts when either side has no commit or the
/// counts could not be computed.
pub open spec fn spec_upstream_info(f: UpstreamFacts) -> (Option<Seq<char>>, usize, usize) {
    if !f.has_upstream {
        (None, 0, 0)
    } else if f.local_target is None || f.upstream_target is None {
        (opt_string_view(f.upstream_name), 0, 0)
    } else {
        match f.ahead_behind {
            Some((a, b)) => (opt_string_view(f.upstream_name), a, b),
            None => (opt_string_view(f.upstream_name), 0, 0),
        }
    }
}

/// What to do for a merge, from the repository's merge analysis.
#[derive(Debug, Clone, Copy, PartialEq, Eq)]
pub enum MergePlan {
    /// Nothing to merge: reported as a fast-forward.
    UpToDate,
    /// Move the branch to the source commit.
    FastForward,
    /// Merge, then commit or report conflicts.
    Normal,
}

impl BranchManager {
    pub fn new() -> Self {
        BranchManager
    }

    /// The upstream name and ahead/behind counts of a branch.
    pub fn compute_upstream_info(&self, facts: &UpstreamFacts) -> (r: (Option<String>, usize, usize))
        ensures
            (opt_string_view(r.0), r.1, r.2) == spec_upstream_info(*facts),
    {
        if !facts.has_upstream {
            return (None, 0, 0);
        }
        let name = match &facts.upstream_name {
            Some(n) => Some(n.clone()),
            None => None,
        };
        if facts.local_target.is_none() || facts.upstream_target.is_none() {
            return (name, 0, 0);
        }
        match facts.ahead_behind {
            Some((a, b)) => (name, a, b),
            None => (name, 0, 0),
        }
    }

    /// The record listed for a branch, or `None` for a branch without a name.
    /// A local branch is the head when its name is the head's short name; a
    /// remote branch belongs to the remote before the first slash of its name.
    pub fn branch_info(
        &self,
        name: String,
        is_local: bool,
        head_shorthand: &Option<String>,
        commit_id: Option<String>,
        upstream: (Option<String>, usize, usize),
    ) -> (r: Option<BranchInfo>)
        ensures
            name@.len() == 0 ==> r is None,
            name@.len() > 0 ==> (r matches Some(b) && b.name == name && b.is_head == (is_local
                && opt_string_view(*head_shorthand) == Some(name@)) && b.upstream == upstream.0 && b.ahead
                == upstream.1 && b.behind == upstream.2 && b.last_commit_id@ == (match commit_id {
                Some(c) => c@,
                None => Seq::empty(),
            }) && (if is_local {
                b.branch_type is Local
            } else {
                b.branch_type matches BranchType::Remote { remote_name } && remote_name@ == remote_of_branch(
                    name@,
                )
            })),
    {
        let n = name.as_str().unicode_len();
        if n == 0 {
            return None;
        }
        let is_head = is_local && match head_shorthand {
            Some(h) => *h == name,
            None => false,
        };
        let last_commit_id = match commit_id {
            Some(c) => c,
            None => String::new(),
        };
        let branch_type = if is_local {
            BranchType::Local
        } else {
            let pos = find_char_in(name.as_str(), '/', 0, n);
            proof {
                lemma_find_in_window(name@, '/', 0, n as int, pos as int);
                assert(name@.subrange(0, n as int) =~= name@);
            }
            let remote_name = if pos < n {
                name.as_str().substring_char(0, pos).to_owned()
            } else {
                String::new()
            };
            BranchType::Remote { remote_name }
        };
        let (upstream_name, ahead, behind) = upstream;
        Some(
            BranchInfo { name, is_head, upstream: upstream_name, ahead, behind, last_commit_id, branch_type },
        )
    }

    /// The record of a branch just created at commit `commit_id`.
    pub fn created_branch_info(&self, name: String, head_shorthand: &Option<String>, commit_id: String) -> (b: BranchInfo)
        ensures
            b.name == name,
            b.is_head == (opt_string_view(*head_shorthand) == Some(name@)),
            b.upstream is None,
            b.ahead == 0,
            b.behind == 0,
            b.last_commit_id == commit_id,
            b.branch_type is Local,
    {
        let is_head = match head_shorthand {
            Some(h) => *h == name,
            None => false,
        };
        BranchInfo {
            name,
            is_head,
            upstream: None,
            ahead: 0,
            behind: 0,
            last_commit_id: commit_id,
            branch_type: BranchType::Local,
        }
    }

    /// Whether a branch may be deleted. The checked-out branch never may; an
    /// unforced deletion needs the branch merged into HEAD: HEAD is the branch
    /// commit or descends from it, or else their merge base is the branch
    /// commit. When either commit is unknown the deletion is allowed.
    pub fn check_delete(
        &self,
        name: &str,
        is_head: bool,
        force: bool,
        targets_known: bool,
        head_descends: bool,
        merge_base_is_branch: Option<bool>,
    ) -> (r: Result<(), GitError>)
        ensures
            is_head ==> (r matches Err(GitError::InvalidArgument(m)) && m@
                == "Cannot delete the currently checked out branch"@),
            !is_head && (force || !targets_known || head_descends || merge_base_is_branch == Some(true)) ==> r is Ok,
            !is_head && !force && targets_known && !head_descends && merge_base_is_branch != Some(true) ==> (r matches Err(
                GitError::InvalidArgument(m),
            ) && m@ == "Branch '"@ + name@ + "' is not fully merged. Use force to delete."@),
    {
        if is_head {
            return Err(GitError::InvalidArgument("Cannot delete the currently checked out branch".to_owned()));
        }
        if !force && targets_known && !head_descends {
            match merge_base_is_branch {
                Some(true) => {},
                _ => {
                    return Err(
                        GitError::InvalidArgument(concat3("Branch '", name, "' is not fully merged. Use force to delete.")),
                    );
                },
            }
        }
        Ok(())
    }

    /// What a merge does, from the merge analysis.
    pub fn merge_plan(&self, up_to_date: bool, fast_forward: bool) -> (p: MergePlan)
        ensures
            up_to_date ==> p is UpToDate,
            !up_to_date && fast_forward ==> p is FastForward,
            !up_to_date && !fast_forward ==> p is Normal,
    {
        if up_to_date {
            MergePlan::UpToDate
        } else if fast_forward {
            MergePlan::FastForward
        } else {
            MergePlan::Normal
        }
    }

    /// The result reported for a merge that needed no commit.
    pub fn plan_result(&self, p: MergePlan) -> (r: Option<MergeResult>)
        ensures
            p is Normal ==> r is None,
            !(p is Normal) ==> r matches Some(MergeResult::FastForward),
    {
        match p {
            MergePlan::Normal => None,
            _ => Some(MergeResult::FastForward),
        }
    }

    /// After a normal merge into the index: its conflicts, if any, are the
    /// result; with none, the merge commit is made and the result is `Merged`.
    pub fn merge_conflict(&self, conflicts: Option<Vec<String>>) -> (r: Option<MergeResult>)
        ensures
            match conflicts {
                Some(f) => r matches Some(MergeResult::Conflict { files }) && files@ == f@,
                None => r is None,
            },
    {
        match conflicts {
            Some(files) => Some(MergeResult::Conflict { files }),
            None => None,
        }
    }

    /// The message of a merge commit: `Merge branch '{source}'`.
    pub fn merge_message(&self, source: &str) -> (r: String)
        ensures
            r@ == "Merge branch '"@ + source@ + "'"@,
    {
        concat3("Merge branch '", source, "'")
    }

    /// The reflog message of a fast-forward: `Fast-forward to {source}`.
    pub fn fast_forward_message(&self, source: &str) -> (r: String)
        ensures
            r@ == "Fast-forward to "@ + source@,
    {
        let mut r = "Fast-forward to ".to_owned();
        r.append(source);
        r
    }

    /// The full reference name of a local branch: `refs/heads/{name}`.
    pub fn local_ref_name(&self, name: &str) -> (r: String)
        ensures
            r@ == "refs/heads/"@ + name@,
    {
        let mut r = "refs/heads/".to_owned();
        r.append(name);
        r
    }

    /// The error for a branch that does not exist.
    pub fn not_found(&self, name: &str) -> (e: GitError)
        ensures
            e matches GitError::InvalidArgument(m) && m@ == "Branch not found: "@ + name@,
    {
        let mut m = "Branch not found: ".to_owned();
        m.append(name);
        GitError::InvalidArgument(m)
    }

    /// The error of a merge whose source branch points at no commit.
    pub fn no_target(&self, source: &str) -> (e: GitError)
        ensures
            e matches GitError::InvalidArgument(m) && m@ == "Branch '"@ + source@ + "' has no target"@,
    {
        let mut m = "Branch '".to_owned();
        m.append(source);
        m.append("' has no target");
        GitError::InvalidArgument(m)
    }

    /// The error of a fast-forward while HEAD names no branch.
    pub fn detached_head(&self) -> (e: GitError)
        ensures
            e matches GitError::InvalidArgument(m) && m@ == "HEAD is detached"@,
    {
        GitError::InvalidArgument("HEAD is detached".to_owned())
    }
}

} // verus!
