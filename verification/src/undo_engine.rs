//! Undo and redo of Git operations over a linear history of recorded entries.
//!
//! The engine holds the entries and a cursor just past the last operation
//! that is in effect. Undoing moves the cursor back and hands out the
//! snapshot to restore from before that operation; redoing hands out the
//! snapshot from after the next operation, and moves the cursor forward once
//! it has been restored. Restoring a snapshot is the caller's work.
use vstd::prelude::*;

use crate::error::GitError;
use crate::git_core::{oid_bytes, oid_of, oid_text_ok};
use crate::models::{GitOperation, RepositorySnapshot};

verus! {

/// Internal entry tracking a single undoable operation.
#[derive(Debug)]
pub struct UndoEntry {
    pub operation: GitOperation,
    pub description: String,
    pub before_state: RepositorySnapshot,
    pub after_state: RepositorySnapshot,
    /// Milliseconds since the Unix epoch (UTC) at which the operation was recorded.
    pub timestamp: i64,
}

/// What an undo or a redo hands out: the description of the operation and the
/// snapshot to restore.
pub open spec fn step_of(e: UndoEntry, before: bool) -> (Seq<char>, RepositorySnapshot) {
    (e.description@, if before {
        e.before_state
    } else {
        e.after_state
    })
}

/// Undo from cursor `pos`: the new cursor and what to restore, or nothing to undo.
pub open spec fn spec_undo(es: Seq<UndoEntry>, pos: nat) -> Option<(nat, (Seq<char>, RepositorySnapshot))> {
    if pos == 0 || pos > es.len() {
        None
    } else {
        Some(((pos - 1) as nat, step_of(es[pos - 1], true)))
    }
}

/// Redo from cursor `pos`: the new cursor and what to restore, or nothing to redo.
pub open spec fn spec_redo(es: Seq<UndoEntry>, pos: nat) -> Option<(nat, (Seq<char>, RepositorySnapshot))> {
    if pos >= es.len() {
        None
    } else {
        Some((pos + 1, step_of(es[pos as int], false)))
    }
}

/// The entries after recording `e` at cursor `pos`: everything past the
/// cursor is dropped and `e` is appended.
pub open spec fn spec_record(es: Seq<UndoEntry>, pos: nat, e: UndoEntry) -> Seq<UndoEntry> {
    es.take(pos as int).push(e)
}

/// Engine that records Git operations and supports undo/redo by restoring
/// repository snapshots (HEAD + ref state).
pub struct UndoEngine {
    history: Vec<UndoEntry>,
    /// Points past the last recorded entry in effect (the next insert position).
    cursor: usize,
}

/// A copy of a snapshot with the description of its operation.
fn hand_out(e: &UndoEntry, before: bool) -> (r: (String, RepositorySnapshot))
    ensures
        (r.0@, r.1) == step_of(*e, before),
{
    let snap = if before {
        e.before_state.clone()
    } else {
        e.after_state.clone()
    };
    (e.description.clone(), snap)
}

impl UndoEngine {
    /// The recorded entries, oldest first.
    pub closed spec fn entries(&self) -> Seq<UndoEntry> {
        self.history@
    }

    /// The number of entries in effect.
    pub closed spec fn position(&self) -> nat {
        self.cursor as nat
    }

    /// The cursor never passes the end of the history.
    pub open spec fn wf(&self) -> bool {
        self.position() <= self.entries().len()
    }

    pub fn new() -> (e: Self)
        ensures
            e.wf(),
            e.entries().len() == 0,
            e.position() == 0,
    {
        UndoEngine { history: Vec::new(), cursor: 0 }
    }

    /// The recorded entries, oldest first.
    pub fn history(&self) -> (r: &Vec<UndoEntry>)
        ensures
            r@ == self.entries(),
    {
        &self.history
    }

    /// Record a new undoable operation. Truncates any redo history beyond the
    /// current cursor position before appending.
    pub fn record(&mut self, entry: UndoEntry)
        requires
            old(self).wf(),
        ensures
            final(self).wf(),
            final(self).entries() == spec_record(old(self).entries(), old(self).position(), entry),
            final(self).position() == final(self).entries().len(),
    {
        self.history.truncate(self.cursor);
        self.history.push(entry);
        self.cursor = self.history.len();
    }

    /// Undo the most recent operation: move the cursor back and hand out its
    /// description and the snapshot from before it, to be restored.
    pub fn undo_step(&mut self) -> (r: Result<(String, RepositorySnapshot), GitError>)
        requires
            old(self).wf(),
        ensures
            final(self).wf(),
            final(self).entries() == old(self).entries(),
            match spec_undo(old(self).entries(), old(self).position()) {
                Some((pos, step)) => r matches Ok(x) && (x.0@, x.1) == step && final(self).position() == pos,
                None => r matches Err(GitError::InvalidArgument(m)) && m@ == "Nothing to undo"@
                    && final(self).position() == old(self).position(),
            },
    {
        if self.cursor == 0 {
            return Err(GitError::InvalidArgument("Nothing to undo".to_owned()));
        }
        self.cursor = self.cursor - 1;
        let entry = &self.history[self.cursor];
        Ok(hand_out(entry, true))
    }

    /// What redoing the most recently undone operation restores: its
    /// description and the snapshot from after it.
    pub fn redo_step(&self) -> (r: Result<(String, RepositorySnapshot), GitError>)
        requires
            self.wf(),
        ensures
            match spec_redo(self.entries(), self.position()) {
                Some((_, step)) => r matches Ok(x) && (x.0@, x.1) == step,
                None => r matches Err(GitError::InvalidArgument(m)) && m@ == "Nothing to redo"@,
            },
    {
        if self.cursor >= self.history.len() {
            return Err(GitError::InvalidArgument("Nothing to redo".to_owned()));
        }
        let entry = &self.history[self.cursor];
        Ok(hand_out(entry, false))
    }

    /// Move the cursor past the operation that has just been redone.
    pub fn complete_redo(&mut self)
        requires
            old(self).wf(),
            old(self).position() < old(self).entries().len(),
        ensures
            final(self).wf(),
            final(self).entries() == old(self).entries(),
            final(self).position() == old(self).position() + 1,
    {
        if self.cursor < self.history.len() {
            self.cursor = self.cursor + 1;
        }
    }

    /// Returns the description of the operation that would be undone, if any.
    pub fn can_undo(&self) -> (r: Option<&str>)
        requires
            self.wf(),
        ensures
            match spec_undo(self.entries(), self.position()) {
                Some((_, step)) => r matches Some(d) && d@ == step.0,
                None => r is None,
            },
    {
        if self.cursor == 0 {
            None
        } else {
            Some(self.history[self.cursor - 1].description.as_str())
        }
    }

    /// Returns the description of the operation that would be redone, if any.
    pub fn can_redo(&self) -> (r: Option<&str>)
        requires
            self.wf(),
        ensures
            match spec_redo(self.entries(), self.position()) {
                Some((_, step)) => r matches Some(d) && d@ == step.0,
                None => r is None,
            },
    {
        if self.cursor >= self.history.len() {
            None
        } else {
            Some(self.history[self.cursor].description.as_str())
        }
    }
}

/// Undoing and then redoing the same operation returns the cursor to where
/// it was, and the redo restores the state right after the operation.
pub proof fn lemma_undo_redo_roundtrip(es: Seq<UndoEntry>, pos: nat)
    requires
        0 < pos <= es.len(),
    ensures
        spec_undo(es, pos) matches Some((p1, u)) && spec_redo(es, p1) matches Some((p2, r)) && p2 == pos
            && r.1 == es[pos - 1].after_state && u.1 == es[pos - 1].before_state && r.0 == u.0,
{
}

/// Recording an operation leaves nothing to redo, and makes it the one to undo.
pub proof fn lemma_record_truncates_redo(es: Seq<UndoEntry>, pos: nat, e: UndoEntry)
    requires
        pos <= es.len(),
    ensures
        spec_redo(spec_record(es, pos, e), (pos + 1) as nat) is None,
        spec_undo(spec_record(es, pos, e), (pos + 1) as nat) == Some((pos, step_of(e, true))),
        spec_record(es, pos, e).len() == pos + 1,
        forall|i: int| 0 <= i < pos ==> #[trigger] spec_record(es, pos, e)[i] == es[i],
{
}

/// The commit a snapshot restores, as the twenty bytes of its id; an id that
/// cannot be parsed is an invalid argument carrying the parser's message.
pub fn snapshot_commit_id(snapshot: &RepositorySnapshot) -> (r: Result<Vec<u8>, GitError>)
    ensures
        r is Ok <==> oid_text_ok(snapshot.head_id@),
        r matches Ok(b) ==> b@ == oid_of(snapshot.head_id@),
        r matches Err(e) ==> e is InvalidArgument,
{
    match oid_bytes(snapshot.head_id.as_str()) {
        Ok(b) => Ok(b),
        Err(message) => Err(GitError::InvalidArgument(message)),
    }
}

} // verus!
