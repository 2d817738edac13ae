//! Remotes: which remote an operation goes to, the refspecs and reference
//! names it uses, and how its outcome is reported.
use vstd::prelude::*;

use crate::error::{git2_error_matches, git_error_from_git2, Git2ErrorClass, GitError};
use crate::models::{PullResult, RemoteInfo};
use crate::search_engine::{contains_bytes, contains_bytes_exec};
use crate::text::concat3;
use vstd::utf8::encode_utf8;

verus! {

pub struct RemoteManager;

/// The remote an operation goes to: the one named, else `origin` when it is
/// configured, else the first configured remote; none when there is none.
pub open spec fn spec_resolve_remote(explicit: Option<Seq<char>>, remotes: Seq<Seq<char>>) -> Option<Seq<char>> {
    match explicit {
        Some(n) => Some(n),
        None => if remotes.contains("origin"@) {
            Some("origin"@)
        } else if remotes.len() > 0 {
            Some(remotes[0])
        } else {
            None
        },
    }
}

/// What a pull does, from the merge analysis.
#[derive(Debug, Clone, Copy, PartialEq, Eq)]
pub enum PullPlan {
    UpToDate,
    FastForward,
    Merge,
}

/// The failure message of a push says it was rejected.
pub open spec fn mentions_rejected(message: Seq<char>) -> bool {
    contains_bytes(encode_utf8(message), encode_utf8("rejected"@))
}

impl RemoteManager {
    pub fn new() -> Self {
        RemoteManager
    }

    /// The remote an operation goes to, or an error when no remote is configured.
    pub fn resolve_remote_name(&self, remote_name: Option<&str>, remotes: &[String]) -> (r: Result<String, GitError>)
        ensures
            match spec_resolve_remote(
                match remote_name {
                    Some(n) => Some(n@),
                    None => None,
                },
                remotes@.map_values(|s: String| s@),
            ) {
                Some(n) => r matches Ok(s) && s@ == n,
                None => r matches Err(GitError::InvalidArgument(m)) && m@ == "No remotes configured"@,
            },
    {
        let ghost names = remotes@.map_values(|s: String| s@);
        match remote_name {
            Some(name) => Ok(name.to_owned()),
            None => {
                let origin = "origin".to_owned();
                let mut k: usize = 0;
                while k < remotes.len()
                    invariant
                        k <= remotes@.len(),
                        remote_name is None,
                        names == remotes@.map_values(|s: String| s@),
                        origin@ == "origin"@,
                        forall|m: int| 0 <= m < k ==> names[m] != "origin"@,
                    decreases remotes@.len() - k,
                {
                    if remotes[k] == origin {
                        assert(remotes@.map_values(|s: String| s@)[k as int] == "origin"@);
                        assert(remotes@.map_values(|s: String| s@).contains("origin"@));
                        return Ok(origin);
                    }
                    k = k + 1;
                }
                assert(!names.contains("origin"@));
                if remotes.len() > 0 {
                    Ok(remotes[0].clone())
                } else {
                    Err(GitError::InvalidArgument("No remotes configured".to_owned()))
                }
            },
        }
    }

    /// The refspec that pushes the current branch to the same branch of the
    /// remote, forced with a leading `+`.
    pub fn push_refspec(&self, branch: &str, force: bool) -> (r: String)
        ensures
            r@ == (if force {
                "+"@
            } else {
                ""@
            }) + "refs/heads/"@ + branch@ + ":refs/heads/"@ + branch@,
    {
        let mut r = if force {
            "+".to_owned()
        } else {
            "".to_owned()
        };
        r.append("refs/heads/");
        r.append(branch);
        r.append(":refs/heads/");
        r.append(branch);
        r
    }

    /// The remote-tracking reference of a branch: `refs/remotes/{remote}/{branch}`.
    pub fn tracking_ref(&self, remote: &str, branch: &str) -> (r: String)
        ensures
            r@ == "refs/remotes/"@ + remote@ + "/"@ + branch@,
    {
        let mut r = "refs/remotes/".to_owned();
        r.append(remote);
        r.append("/");
        r.append(branch);
        r
    }

    /// The error when a remote branch has no tracking reference.
    pub fn no_tracking_branch(&self, remote: &str, branch: &str) -> (e: GitError)
        ensures
            e matches GitError::Git2(m) && m@ == "No tracking branch found for "@ + remote@ + "/"@ + branch@,
    {
        let mut m = "No tracking branch found for ".to_owned();
        m.append(remote);
        m.append("/");
        m.append(branch);
        GitError::Git2(m)
    }

    /// What a pull does from the merge analysis: nothing when up to date, a
    /// fast-forward when possible, a merge when needed, and nothing otherwise.
    pub fn pull_plan(&self, up_to_date: bool, fast_forward: bool, normal: bool) -> (p: PullPlan)
        ensures
            up_to_date ==> p is UpToDate,
            !up_to_date && fast_forward ==> p is FastForward,
            !up_to_date && !fast_forward && normal ==> p is Merge,
            !up_to_date && !fast_forward && !normal ==> p is UpToDate,
    {
        if up_to_date {
            PullPlan::UpToDate
        } else if fast_forward {
            PullPlan::FastForward
        } else if normal {
            PullPlan::Merge
        } else {
            PullPlan::UpToDate
        }
    }

    /// The error a failed push is reported as: a rejection when its message
    /// says so, else the failure converted by its class.
    pub fn push_error(&self, class: Git2ErrorClass, message: &str) -> (e: GitError)
        ensures
            mentions_rejected(message@) ==> (e matches GitError::RemoteRejected { reason } && reason@ == message@),
            !mentions_rejected(message@) ==> git2_error_matches(class, message@, e),
    {
        if contains_bytes_exec(message.as_bytes(), "rejected".as_bytes()) {
            GitError::RemoteRejected { reason: message.to_owned() }
        } else {
            git_error_from_git2(class, message)
        }
    }

    /// The reflog message of a fast-forward pull: `Fast-forward {branch} to {commit}`.
    pub fn fast_forward_message(&self, branch: &str, commit: &str) -> (r: String)
        ensures
            r@ == "Fast-forward "@ + branch@ + " to "@ + commit@,
    {
        let mut r = concat3("Fast-forward ", branch, " to ");
        r.append(commit);
        r
    }

    /// A remote's record: its name, fetch URL (empty when unset) and push URL.
    pub fn remote_info(&self, name: String, url: Option<String>, push_url: Option<String>) -> (r: RemoteInfo)
        ensures
            r.name == name,
            r.url@ == (match url {
                Some(u) => u@,
                None => Seq::empty(),
            }),
            r.push_url == push_url,
    {
        let url = match url {
            Some(u) => u,
            None => String::new(),
        };
        RemoteInfo { name, url, push_url }
    }

    /// The result of a pull whose merge left conflicts in `files`.
    pub fn conflict_result(&self, files: Vec<String>) -> (r: PullResult)
        ensures
            r matches PullResult::Conflict { files: f } && f == files,
    {
        PullResult::Conflict { files }
    }
}

} // verus!
