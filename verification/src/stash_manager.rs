//! Stashes: their messages, how failures of applying or popping one are
//! reported, and the diff of a stash.
use vstd::prelude::*;

use crate::diff_service::{files_view, parse_diff_events, spec_parse_diff, DiffEvent};
use crate::error::GitError;
use crate::models::{FileDiff, StashPopResult};
use crate::rebase_service::{dedup_conflict_paths, dedup_paths, string_views};
use crate::search_engine::{contains_bytes, contains_bytes_exec};
use crate::text::{decimal_digits, usize_string};
use vstd::utf8::encode_utf8;

verus! {

pub struct StashManager;

/// The kind of failure a stash operation reports.
#[derive(Debug, Clone, Copy, PartialEq, Eq)]
pub enum ErrorClass {
    Stash,
    Checkout,
    Merge,
    Other,
}

/// The failure message mentions a conflict.
pub open spec fn mentions_conflict(message: Seq<char>) -> bool {
    contains_bytes(encode_utf8(message), encode_utf8("conflict"@))
}

impl StashManager {
    pub fn new() -> Self {
        StashManager
    }

    /// The message a new stash is saved with: the one given, or "WIP on stash".
    pub fn stash_message(&self, message: Option<&str>) -> (r: String)
        ensures
            r@ == (match message {
                Some(m) => m@,
                None => "WIP on stash"@,
            }),
    {
        match message {
            Some(m) => m.to_owned(),
            None => "WIP on stash".to_owned(),
        }
    }

    /// The error reported when applying a stash fails: a merge conflict (with
    /// no files named) for a stash or checkout failure or one that mentions a
    /// conflict, else the failure's message.
    pub fn apply_error(&self, class: ErrorClass, message: &str) -> (e: GitError)
        ensures
            (class is Stash || class is Checkout || mentions_conflict(message@)) ==> (e matches GitError::MergeConflict {
                files,
            } && files@.len() == 0),
            !(class is Stash || class is Checkout || mentions_conflict(message@)) ==> (e matches GitError::Git2(m)
                && m@ == message@),
    {
        if matches!(class, ErrorClass::Stash | ErrorClass::Checkout) || contains_bytes_exec(
            message.as_bytes(),
            "conflict".as_bytes(),
        ) {
            GitError::MergeConflict { files: Vec::new() }
        } else {
            GitError::Git2(message.to_owned())
        }
    }

    /// The outcome of a failed pop: a conflict listing the conflicted paths
    /// once each for a checkout or merge failure or one that mentions a
    /// conflict, else the failure's message as an error.
    pub fn pop_failure(&self, class: ErrorClass, message: &str, conflicted: &[String]) -> (r: Result<
        StashPopResult,
        GitError,
    >)
        ensures
            (class is Checkout || class is Merge || mentions_conflict(message@)) ==> (r matches Ok(
                StashPopResult::Conflict { files },
            ) && string_views(files@) == dedup_paths(string_views(conflicted@))),
            !(class is Checkout || class is Merge || mentions_conflict(message@)) ==> (r matches Err(GitError::Git2(m))
                && m@ == message@),
    {
        if matches!(class, ErrorClass::Checkout | ErrorClass::Merge) || contains_bytes_exec(
            message.as_bytes(),
            "conflict".as_bytes(),
        ) {
            Ok(StashPopResult::Conflict { files: self.collect_conflict_files(conflicted) })
        } else {
            Err(GitError::Git2(message.to_owned()))
        }
    }

    /// The conflicted paths of the index, each listed once, in the order first seen.
    pub fn collect_conflict_files(&self, conflicted: &[String]) -> (r: Vec<String>)
        ensures
            string_views(r@) == dedup_paths(string_views(conflicted@)),
    {
        dedup_conflict_paths(conflicted)
    }

    /// The error for a stash index that does not exist.
    pub fn missing_index_error(&self, index: usize) -> (e: GitError)
        ensures
            e matches GitError::InvalidArgument(m) && m@ == "Stash index "@ + decimal_digits(index as nat)
                + " not found"@,
    {
        let mut m = "Stash index ".to_owned();
        let n = usize_string(index);
        m.append(n.as_str());
        m.append(" not found");
        GitError::InvalidArgument(m)
    }

    /// Parse the events of a stash's diff walk into file diffs.
    pub fn parse_diff(&self, events: &[DiffEvent]) -> (r: Vec<FileDiff>)
        ensures
            files_view(r@) == spec_parse_diff(events@),
    {
        parse_diff_events(events)
    }
}

} // verus!
