//! Submodules: their status and the configuration keys that describe them.
use vstd::prelude::*;

use crate::models::{SubmoduleInfo, SubmoduleStatus};
use crate::text::concat3;

verus! {

pub struct SubmoduleManager;

/// The status of a submodule from its recorded commit, the commit checked
/// out in its working directory and whether that checkout is detached:
/// uninitialized without a checkout; modified when the two commits differ;
/// detached when the checkout is; initialized otherwise.
pub open spec fn spec_submodule_status(head_id: Option<Seq<char>>, workdir_id: Option<Seq<char>>, detached: bool) -> SubmoduleStatus {
    match (head_id, workdir_id) {
        (_, None) => SubmoduleStatus::Uninitialized,
        (Some(h), Some(w)) => if h != w {
            SubmoduleStatus::Modified
        } else if detached {
            SubmoduleStatus::DetachedHead
        } else {
            SubmoduleStatus::Initialized
        },
        (None, Some(_)) => SubmoduleStatus::Initialized,
    }
}

pub open spec fn opt_view(o: Option<String>) -> Option<Seq<char>> {
    match o {
        Some(s) => Some(s@),
        None => None,
    }
}

impl SubmoduleManager {
    pub fn new() -> Self {
        SubmoduleManager
    }

    /// Determine the status of a submodule; `detached` tells whether its
    /// checkout has a detached HEAD (false where it cannot be opened).
    pub fn determine_status(&self, head_id: &Option<String>, workdir_id: &Option<String>, detached: bool) -> (s: SubmoduleStatus)
        ensures
            s == spec_submodule_status(opt_view(*head_id), opt_view(*workdir_id), detached),
    {
        match (head_id, workdir_id) {
            (_, None) => SubmoduleStatus::Uninitialized,
            (Some(h), Some(w)) => {
                if *h != *w {
                    SubmoduleStatus::Modified
                } else if detached {
                    SubmoduleStatus::DetachedHead
                } else {
                    SubmoduleStatus::Initialized
                }
            },
            (None, Some(_)) => SubmoduleStatus::Initialized,
        }
    }

    /// The configuration key of a submodule setting: `submodule.{path}.{key}`.
    pub fn config_key(&self, path: &str, key: &str) -> (r: String)
        ensures
            r@ == "submodule."@ + path@ + "."@ + key@,
    {
        let mut r = concat3("submodule.", path, ".");
        r.append(key);
        r
    }

    /// A submodule's record; a missing name or URL is empty.
    pub fn submodule_info(
        &self,
        name: Option<String>,
        path: String,
        url: Option<String>,
        head_id: Option<String>,
        status: SubmoduleStatus,
        branch: Option<String>,
    ) -> (r: SubmoduleInfo)
        ensures
            r.name@ == (match name {
                Some(n) => n@,
                None => Seq::empty(),
            }),
            r.path == path,
            r.url@ == (match url {
                Some(u) => u@,
                None => Seq::empty(),
            }),
            r.head_id == head_id,
            r.status == status,
            r.branch == branch,
    {
        let name = match name {
            Some(n) => n,
            None => String::new(),
        };
        let url = match url {
            Some(u) => u,
            None => String::new(),
        };
        SubmoduleInfo { name, path, url, head_id, status, branch }
    }
}

} // verus!
