//! Domain data types shared by every part of the Git client library.
//!
//! These are plain values: strings, integers, options and vectors. Time stamps
//! are held as integer seconds (or milliseconds where noted) since the epoch.
use std::collections::HashMap;

use vstd::prelude::*;

verus! {

// === Repository & Tab ===

/// Identifier of an open repository tab.
#[derive(Debug, Clone, PartialEq, Eq, Hash)]
pub struct TabId(pub String);

/// An entry of the list of recently opened repositories.
#[derive(Debug, Clone, PartialEq)]
pub struct RepoEntry {
    pub path: String,
    pub name: String,
    /// Milliseconds since the Unix epoch (UTC) at which the repository was last opened.
    pub last_opened: i64,
}

#[derive(Debug, Clone, PartialEq)]
pub enum RepositoryState {
    Clean,
    Merging,
    Rebasing { current: usize, total: usize },
    CherryPicking,
    Reverting,
}

// === Commit ===

#[derive(Debug, PartialEq)]
pub struct CommitInfo {
    pub id: String,
    pub short_id: String,
    pub message: String,
    pub author: SignatureInfo,
    pub committer: SignatureInfo,
    pub parent_ids: Vec<String>,
    pub refs: Vec<RefLabel>,
    pub is_cherry_picked: bool,
}

#[derive(Debug, Clone, PartialEq)]
pub struct CommitDetail {
    pub commit: CommitInfo,
    pub files: Vec<FileStatus>,
    pub stats: DiffStats,
}

#[derive(Debug, PartialEq)]
pub struct SignatureInfo {
    pub name: String,
    pub email: String,
    pub timestamp: i64,
}

#[derive(Debug, PartialEq)]
pub struct RefLabel {
    pub name: String,
    pub ref_type: RefType,
    pub is_head: bool,
}

#[derive(Debug, PartialEq)]
pub enum RefType {
    LocalBranch,
    RemoteBranch { remote: String },
    Tag,
}

impl Clone for SignatureInfo {
    fn clone(&self) -> (r: Self)
        ensures
            r == *self,
    {
        SignatureInfo { name: self.name.clone(), email: self.email.clone(), timestamp: self.timestamp }
    }
}

impl Clone for RefType {
    fn clone(&self) -> (r: Self)
        ensures
            r == *self,
    {
        match self {
            RefType::LocalBranch => RefType::LocalBranch,
            RefType::RemoteBranch { remote } => RefType::RemoteBranch { remote: remote.clone() },
            RefType::Tag => RefType::Tag,
        }
    }
}

impl Clone for RefLabel {
    fn clone(&self) -> (r: Self)
        ensures
            r == *self,
    {
        RefLabel { name: self.name.clone(), ref_type: self.ref_type.clone(), is_head: self.is_head }
    }
}

/// Two commit records hold the same values (their vectors the same elements).
pub open spec fn same_commit(a: CommitInfo, b: CommitInfo) -> bool {
    &&& a.id == b.id
    &&& a.short_id == b.short_id
    &&& a.message == b.message
    &&& a.author == b.author
    &&& a.committer == b.committer
    &&& a.parent_ids@ == b.parent_ids@
    &&& a.refs@ == b.refs@
    &&& a.is_cherry_picked == b.is_cherry_picked
}

impl Clone for CommitInfo {
    fn clone(&self) -> (r: Self)
        ensures
            same_commit(r, *self),
    {
        let parent_ids = self.parent_ids.clone();
        assert(parent_ids@ =~= self.parent_ids@);
        let refs = self.refs.clone();
        assert(refs@ =~= self.refs@);
        CommitInfo {
            id: self.id.clone(),
            short_id: self.short_id.clone(),
            message: self.message.clone(),
            author: self.author.clone(),
            committer: self.committer.clone(),
            parent_ids,
            refs,
            is_cherry_picked: self.is_cherry_picked,
        }
    }
}

// === DAG Layout ===

#[derive(Debug, Clone, PartialEq)]
pub struct DagNode {
    pub commit_id: String,
    pub column: usize,
    pub row: usize,
    pub color_index: usize,
    pub parent_edges: Vec<DagEdge>,
}

#[derive(Debug, Clone, Copy, PartialEq)]
pub struct DagEdge {
    pub from_column: usize,
    pub to_column: usize,
    pub to_row: usize,
    pub color_index: usize,
}

#[derive(Debug, Clone, PartialEq)]
pub struct DagLayout {
    pub nodes: Vec<DagNode>,
    pub total_columns: usize,
    pub total_rows: usize,
}

// === Branch ===

#[derive(Debug, Clone, PartialEq)]
pub struct BranchInfo {
    pub name: String,
    pub is_head: bool,
    pub upstream: Option<String>,
    pub ahead: usize,
    pub behind: usize,
    pub last_commit_id: String,
    pub branch_type: BranchType,
}

#[derive(Debug, Clone, PartialEq)]
pub enum BranchType {
    Local,
    Remote { remote_name: String },
}

#[derive(Debug, Clone, PartialEq)]
pub enum BranchFilter {
    All,
    Local,
    Remote,
}

// === Tag ===

#[derive(Debug, Clone, PartialEq)]
pub struct TagInfo {
    pub name: String,
    pub target_commit_id: String,
    pub is_annotated: bool,
    pub message: Option<String>,
    pub tagger: Option<SignatureInfo>,
}

// === Diff ===

#[derive(Debug, Clone, PartialEq)]
pub struct FileDiff {
    pub path: String,
    pub old_path: Option<String>,
    pub status: DiffFileStatus,
    pub hunks: Vec<DiffHunk>,
    pub is_binary: bool,
}

#[derive(Debug, Clone, Copy, PartialEq, Eq)]
pub enum DiffFileStatus {
    Added,
    Deleted,
    Modified,
    Renamed,
    Copied,
}

#[derive(Debug, Clone, PartialEq)]
pub struct DiffHunk {
    pub header: String,
    pub old_start: u32,
    pub old_lines: u32,
    pub new_start: u32,
    pub new_lines: u32,
    pub lines: Vec<DiffLine>,
}

#[derive(Debug, Clone, PartialEq)]
pub struct DiffLine {
    pub origin: DiffLineType,
    pub old_lineno: Option<u32>,
    pub new_lineno: Option<u32>,
    pub content: String,
}

#[derive(Debug, Clone, Copy, PartialEq, Eq)]
pub enum DiffLineType {
    Context,
    Addition,
    Deletion,
}

#[derive(Debug, Clone, Copy, PartialEq, Eq)]
pub struct DiffStats {
    pub files_changed: usize,
    pub insertions: usize,
    pub deletions: usize,
}

/// An inclusive range of 1-based line numbers.
#[derive(Debug, Clone, Copy, PartialEq, Eq)]
pub struct LineRange {
    pub start: u32,
    pub end: u32,
}

// === File Status ===

#[derive(Debug, Clone, PartialEq)]
pub struct FileStatus {
    pub path: String,
    pub status: FileStatusType,
}

#[derive(Debug, Clone, Copy, PartialEq, Eq)]
pub enum FileStatusType {
    Untracked,
    Modified,
    Staged,
    Conflict,
    Deleted,
    Renamed,
}

// === Blame ===

#[derive(Debug, Clone, PartialEq)]
pub struct BlameInfo {
    pub path: String,
    pub lines: Vec<BlameLine>,
}

#[derive(Debug, Clone, PartialEq)]
pub struct BlameLine {
    pub line_number: u32,
    pub content: String,
    pub commit_id: String,
    pub author: String,
    pub date: i64,
    pub original_line: u32,
}

// === Stash ===

#[derive(Debug, Clone, PartialEq)]
pub struct StashEntry {
    pub index: usize,
    pub message: String,
    pub timestamp: i64,
    pub commit_id: String,
}

#[derive(Debug, Clone, PartialEq)]
pub enum StashPopResult {
    Success,
    Conflict { files: Vec<String> },
}

// === Submodule ===

#[derive(Debug, Clone, PartialEq)]
pub struct SubmoduleInfo {
    pub name: String,
    pub path: String,
    pub url: String,
    pub head_id: Option<String>,
    pub status: SubmoduleStatus,
    pub branch: Option<String>,
}

#[derive(Debug, Clone, Copy, PartialEq, Eq)]
pub enum SubmoduleStatus {
    Uninitialized,
    Initialized,
    Modified,
    DetachedHead,
}

// === Worktree ===

#[derive(Debug, Clone, PartialEq)]
pub struct WorktreeInfo {
    pub name: String,
    pub path: String,
    pub branch: Option<String>,
    pub is_main: bool,
}

// === Remote Operations ===

#[derive(Debug, Clone, PartialEq)]
pub struct RemoteInfo {
    pub name: String,
    pub url: String,
    pub push_url: Option<String>,
}

#[derive(Debug, Clone, PartialEq)]
pub enum PullResult {
    FastForward,
    Merged,
    Conflict { files: Vec<String> },
    UpToDate,
}

#[derive(Debug, Clone, PartialEq)]
pub enum MergeResult {
    FastForward,
    Merged,
    Conflict { files: Vec<String> },
}

#[derive(Debug, Clone, PartialEq)]
pub enum CherryPickResult {
    Success { new_commits: Vec<String> },
    Conflict { files: Vec<String>, at_commit: String },
}

#[derive(Debug, Clone, PartialEq)]
pub enum RevertResult {
    Success { new_commits: Vec<String> },
    Conflict { files: Vec<String>, at_commit: String },
}

// === Rebase ===

#[derive(Debug, Clone, PartialEq)]
pub struct RebaseProgress {
    pub current_step: usize,
    pub total_steps: usize,
    pub status: RebaseStepStatus,
}

#[derive(Debug, Clone, PartialEq)]
pub enum RebaseStepStatus {
    InProgress,
    Conflict { files: Vec<String> },
    Completed,
}

// === Search ===

#[derive(Debug, Clone, PartialEq)]
pub struct LogOptions {
    pub branch: Option<String>,
    pub author: Option<String>,
    pub since: Option<i64>,
    pub until: Option<i64>,
    pub path: Option<String>,
    pub search: Option<String>,
    pub offset: usize,
    pub limit: usize,
}

// === Config ===

#[derive(Debug, Clone, PartialEq)]
pub struct GitConfig {
    pub user_name: Option<String>,
    pub user_email: Option<String>,
    pub default_branch: Option<String>,
    pub merge_strategy: Option<String>,
}

// === Progress & Events ===

#[derive(Debug, Clone, PartialEq)]
pub struct ProgressEvent {
    pub operation: String,
    pub current: u64,
    pub total: Option<u64>,
    pub message: Option<String>,
}

#[derive(Debug, Clone, PartialEq)]
pub struct FileChangeEvent {
    pub tab_id: TabId,
    pub changed_paths: Vec<String>,
}

// === Undo ===

#[derive(Debug, Clone, PartialEq)]
pub enum GitOperation {
    Commit { id: String },
    Checkout { from_branch: String, to_branch: String },
    Merge { source: String },
    Rebase { onto: String },
    BranchCreate { name: String },
    BranchDelete { name: String, target: String },
    Reset { mode: ResetMode, target: String },
    Revert { commit_id: String },
    CherryPick { commit_id: String },
    Stash,
    StashPop { index: usize },
}

#[derive(Debug, Clone, Copy, PartialEq, Eq)]
pub enum ResetMode {
    Soft,
    Mixed,
    Hard,
}

#[derive(Debug, PartialEq)]
pub struct RepositorySnapshot {
    pub head_id: String,
    pub head_ref: Option<String>,
    pub index_tree_id: Option<String>,
}

/// A copy of an optional string.
pub fn clone_opt_string(o: &Option<String>) -> (r: Option<String>)
    ensures
        r == *o,
{
    match o {
        Some(s) => Some(s.clone()),
        None => None,
    }
}

impl Clone for RepositorySnapshot {
    fn clone(&self) -> (r: Self)
        ensures
            r == *self,
    {
        RepositorySnapshot {
            head_id: self.head_id.clone(),
            head_ref: clone_opt_string(&self.head_ref),
            index_tree_id: clone_opt_string(&self.index_tree_id),
        }
    }
}

// === Remote Hosting Platform ===

#[derive(Debug, Clone, PartialEq)]
pub struct PullRequest {
    pub id: u64,
    pub title: String,
    pub description: String,
    pub state: PrState,
    pub source_branch: String,
    pub target_branch: String,
    pub author: String,
    pub url: String,
}

#[derive(Debug, Clone, Copy, PartialEq, Eq)]
pub enum PrState {
    Open,
    Closed,
    Merged,
}

#[derive(Debug, Clone, PartialEq)]
pub struct CreatePrParams {
    pub title: String,
    pub description: String,
    pub source_branch: String,
    pub target_branch: String,
}

// === Commit Template ===

#[derive(Debug, Clone, PartialEq)]
pub struct CommitTemplate {
    pub id: String,
    pub name: String,
    pub content: String,
}

// === App Settings ===

#[derive(Debug, Clone, PartialEq)]
pub struct AppSettings {
    pub theme: ThemeMode,
    pub language: String,
    pub font_family: String,
    pub font_size: u32,
    pub hotkeys: HashMap<String, String>,
    pub window: WindowState,
    pub commit_templates: Vec<CommitTemplate>,
}

#[derive(Debug, Clone, Copy, PartialEq, Eq)]
pub enum ThemeMode {
    Light,
    Dark,
    System,
}

#[derive(Debug, Clone, Copy, PartialEq, Eq)]
pub struct WindowState {
    pub width: u32,
    pub height: u32,
    pub x: Option<i32>,
    pub y: Option<i32>,
    pub maximized: bool,
}

} // verus!
