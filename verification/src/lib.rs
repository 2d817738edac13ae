//! Verified core of a Git graphical client: commit-graph layout, view filters,
//! search, undo history, line-level staging and the data model they share.
pub mod error;
pub mod models;
pub mod dag_layout;
pub mod view_filter;
pub mod search_engine;
pub mod host_integration;
pub mod diff_service;
pub mod staging_service;
pub mod undo_engine;
pub mod text;
pub mod commit_service;
pub mod rebase_service;
pub mod stash_manager;
pub mod branch_manager;
pub mod remote_manager;
pub mod tag_manager;
pub mod submodule_manager;
pub mod worktree_manager;
pub mod blame_service;
pub mod config_manager;
pub mod credential_manager;
pub mod git_core;
pub mod repository_manager;
pub mod file_watcher;
