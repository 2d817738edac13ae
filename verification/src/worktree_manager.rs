//! Worktrees: the records of the main worktree and of linked ones.
use vstd::prelude::*;

use crate::models::WorktreeInfo;

verus! {

pub struct WorktreeManager;

impl WorktreeManager {
    pub fn new() -> Self {
        WorktreeManager
    }

    /// The record of the main worktree: named `main`, at the repository's
    /// working directory, on the head's branch.
    pub fn main_worktree(&self, path: String, branch: Option<String>) -> (w: WorktreeInfo)
        ensures
            w.name@ == "main"@,
            w.path == path,
            w.branch == branch,
            w.is_main,
    {
        WorktreeInfo { name: "main".to_owned(), path, branch, is_main: true }
    }

    /// The record of a linked worktree.
    pub fn linked_worktree(&self, name: String, path: String, branch: Option<String>) -> (w: WorktreeInfo)
        ensures
            w.name == name,
            w.path == path,
            w.branch == branch,
            !w.is_main,
    {
        WorktreeInfo { name, path, branch, is_main: false }
    }

    /// The listing of worktrees: the main one first, then the linked ones in order.
    pub fn worktree_list(&self, main: WorktreeInfo, linked: Vec<WorktreeInfo>) -> (r: Vec<WorktreeInfo>)
        ensures
            r@ == seq![main] + linked@,
    {
        let mut r: Vec<WorktreeInfo> = Vec::new();
        r.push(main);
        let mut rest = linked;
        let ghost all = rest@;
        let ghost mut k: int = 0;
        while rest.len() > 0
            invariant
                0 <= k <= all.len(),
                rest@ == all.subrange(k, all.len() as int),
                r@ == seq![main] + all.take(k),
            decreases rest@.len(),
        {
            let w = rest.remove(0);
            r.push(w);
            proof {
                assert(all.take(k + 1) =~= all.take(k).push(w));
                k = k + 1;
                assert(rest@ =~= all.subrange(k, all.len() as int));
                assert(r@ =~= seq![main] + all.take(k));
            }
        }
        assert(all.take(all.len() as int) =~= all);
        r
    }
}

} // verus!
