//! The changed paths a file watcher gathers between two flushes.
use vstd::prelude::*;

use crate::models::{FileChangeEvent, TabId};
use crate::rebase_service::string_views;

verus! {

/// The changed paths noted since the last flush, each once, in the order first seen.
pub struct PendingChanges {
    paths: Vec<String>,
}

impl PendingChanges {
    /// The paths noted since the last flush.
    pub closed spec fn view_paths(&self) -> Seq<Seq<char>> {
        string_views(self.paths@)
    }

    pub fn new() -> (p: Self)
        ensures
            p.view_paths().len() == 0,
    {
        PendingChanges { paths: Vec::new() }
    }

    /// Note a changed path, unless it is already noted.
    pub fn add(&mut self, path: String)
        ensures
            final(self).view_paths() == (if old(self).view_paths().contains(path@) {
                old(self).view_paths()
            } else {
                old(self).view_paths().push(path@)
            }),
    {
        let mut k: usize = 0;
        while k < self.paths.len()
            invariant
                k <= self.paths@.len(),
                forall|m: int| 0 <= m < k ==> self.paths@[m]@ != path@,
            decreases self.paths@.len() - k,
        {
            if self.paths[k] == path {
                assert(string_views(self.paths@)[k as int] == path@);
                return;
            }
            k = k + 1;
        }
        assert(!string_views(self.paths@).contains(path@));
        let ghost before = string_views(self.paths@);
        self.paths.push(path);
        assert(string_views(self.paths@) =~= before.push(path@));
    }

    /// The event for `tab_id` with every path noted since the last flush, and
    /// nothing noted afterwards; no event when nothing was noted.
    pub fn flush(&mut self, tab_id: &TabId) -> (e: Option<FileChangeEvent>)
        ensures
            old(self).view_paths().len() == 0 ==> e is None && final(self).view_paths() == old(self).view_paths(),
            old(self).view_paths().len() > 0 ==> (e matches Some(ev) && ev.tab_id.0@ == tab_id.0@ && string_views(
                ev.changed_paths@,
            ) == old(self).view_paths() && final(self).view_paths().len() == 0),
    {
        if self.paths.len() == 0 {
            return None;
        }
        let mut taken: Vec<String> = Vec::new();
        std::mem::swap(&mut taken, &mut self.paths);
        Some(FileChangeEvent { tab_id: TabId(tab_id.0.clone()), changed_paths: taken })
    }
}

} // verus!
