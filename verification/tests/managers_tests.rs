use git_gui::blame_service::{text_lines, BlameHunk, BlameService};
use git_gui::branch_manager::{BranchManager, MergePlan, UpstreamFacts};
use git_gui::config_manager::{parse_config_level, ConfigLevel, ConfigManager};
use git_gui::credential_manager::{AllowedCredentials, CredentialManager, CredentialPlan};
use git_gui::error::{git_error_from_git2, git_error_from_io, Git2ErrorClass, GitError, IpcError};
use git_gui::file_watcher::PendingChanges;
use git_gui::git_core::{conflict_path, open_error, parse_commit_id, repository_state, LibRepositoryState};
use git_gui::models::{
    BlameLine, BranchInfo, BranchType, GitConfig, MergeResult, PullResult, RebaseProgress,
    RebaseStepStatus, RepositoryState, SignatureInfo, StashPopResult, SubmoduleInfo,
    SubmoduleStatus, TabId, TagInfo, ThemeMode, WindowState, WorktreeInfo,
};
use git_gui::rebase_service::{dedup_conflict_paths, RebaseService};
use git_gui::remote_manager::{PullPlan, RemoteManager};
use git_gui::stash_manager::{ErrorClass, StashManager};
use git_gui::submodule_manager::SubmoduleManager;
use git_gui::tag_manager::TagManager;
use git_gui::text::{decimal_string, two_digit_string, usize_string};
use git_gui::worktree_manager::WorktreeManager;

fn strings(v: &[&str]) -> Vec<String> {
    v.iter().map(|s| s.to_string()).collect()
}

// ---- errors ----

#[test]
fn error_names_and_messages() {
    let e = GitError::RepositoryNotFound { path: "/x".into() };
    assert_eq!(e.error_type_name(), "RepositoryNotFound");
    assert_eq!(e.to_string(), "Repository not found: /x");
    assert_eq!(GitError::MergeConflict { files: strings(&["a"]) }.to_string(), "Merge conflict");
    assert_eq!(GitError::AuthenticationFailed.to_string(), "Authentication failed");
    assert_eq!(GitError::InvalidArgument("bad".into()).to_string(), "Invalid argument: bad");
    assert_eq!(GitError::Git2("boom".into()).error_type_name(), "Git2");
    let ipc = IpcError::from_git_error(GitError::RemoteRejected { reason: "no".into() });
    assert_eq!(ipc.error_type, "RemoteRejected");
    assert_eq!(ipc.message, "Remote rejected: no");
    assert_eq!(ipc.to_string(), "[RemoteRejected] Remote rejected: no");
}

#[test]
fn git2_failures_map_by_class() {
    assert_eq!(
        git_error_from_git2(Git2ErrorClass::Net, "timeout"),
        GitError::NetworkError { message: "timeout".into() }
    );
    assert_eq!(git_error_from_git2(Git2ErrorClass::Ssh, "x"), GitError::AuthenticationFailed);
    assert_eq!(
        git_error_from_git2(Git2ErrorClass::Repository, "path not found"),
        GitError::RepositoryNotFound { path: "path not found".into() }
    );
    assert_eq!(git_error_from_git2(Git2ErrorClass::Repository, "odd"), GitError::Git2("odd".into()));
    assert_eq!(
        git_error_from_git2(Git2ErrorClass::Index, "a conflict here"),
        GitError::MergeConflict { files: vec![] }
    );
    assert_eq!(git_error_from_git2(Git2ErrorClass::Other, "m"), GitError::Git2("m".into()));
    assert_eq!(git_error_from_io("disk".into()), GitError::Io("disk".into()));
    assert_eq!(
        open_error(Git2ErrorClass::Repository, "whatever", "/p".into()),
        GitError::NotARepository { path: "/p".into() }
    );
    assert_eq!(open_error(Git2ErrorClass::Other, "m", "/p".into()), GitError::Git2("m".into()));
}

#[test]
fn repository_states() {
    assert_eq!(repository_state(LibRepositoryState::Clean), RepositoryState::Clean);
    assert_eq!(repository_state(LibRepositoryState::Merge), RepositoryState::Merging);
    assert_eq!(
        repository_state(LibRepositoryState::RebaseInteractive),
        RepositoryState::Rebasing { current: 0, total: 0 }
    );
    assert_eq!(repository_state(LibRepositoryState::CherryPickSequence), RepositoryState::CherryPicking);
    assert_eq!(repository_state(LibRepositoryState::Revert), RepositoryState::Reverting);
    assert_eq!(repository_state(LibRepositoryState::Bisect), RepositoryState::Clean);
}

// ---- branches ----

#[test]
fn upstream_info_cases() {
    let bm = BranchManager::new();
    let mut f = UpstreamFacts {
        has_upstream: false,
        upstream_name: Some("origin/main".into()),
        local_target: Some("a".into()),
        upstream_target: Some("b".into()),
        ahead_behind: Some((2, 3)),
    };
    assert_eq!(bm.compute_upstream_info(&f), (None, 0, 0));
    f.has_upstream = true;
    assert_eq!(bm.compute_upstream_info(&f), (Some("origin/main".to_string()), 2, 3));
    f.ahead_behind = None;
    assert_eq!(bm.compute_upstream_info(&f), (Some("origin/main".to_string()), 0, 0));
    f.ahead_behind = Some((1, 1));
    f.local_target = None;
    assert_eq!(bm.compute_upstream_info(&f), (Some("origin/main".to_string()), 0, 0));
}

#[test]
fn branch_records() {
    let bm = BranchManager::new();
    let head = Some("main".to_string());
    let b = bm.branch_info("main".into(), true, &head, Some("c1".into()), (None, 0, 0)).unwrap();
    assert_eq!(
        b,
        BranchInfo {
            name: "main".into(),
            is_head: true,
            upstream: None,
            ahead: 0,
            behind: 0,
            last_commit_id: "c1".into(),
            branch_type: BranchType::Local
        }
    );
    let r = bm.branch_info("origin/main".into(), false, &head, None, (None, 0, 0)).unwrap();
    assert!(!r.is_head);
    assert_eq!(r.last_commit_id, "");
    assert_eq!(r.branch_type, BranchType::Remote { remote_name: "origin".into() });
    assert!(bm.branch_info("".into(), true, &head, None, (None, 0, 0)).is_none());
    let c = bm.created_branch_info("dev".into(), &head, "c9".into());
    assert!(!c.is_head);
    assert_eq!(c.last_commit_id, "c9");
}

#[test]
fn delete_checks() {
    let bm = BranchManager::new();
    match bm.check_delete("main", true, true, true, true, Some(true)) {
        Err(GitError::InvalidArgument(m)) => assert_eq!(m, "Cannot delete the currently checked out branch"),
        _ => panic!("expected refusal"),
    }
    match bm.check_delete("feat", false, false, true, false, Some(false)) {
        Err(GitError::InvalidArgument(m)) => assert_eq!(m, "Branch 'feat' is not fully merged. Use force to delete."),
        _ => panic!("expected refusal"),
    }
    assert!(bm.check_delete("feat", false, true, true, false, Some(false)).is_ok());
    assert!(bm.check_delete("feat", false, false, true, true, None).is_ok());
    assert!(bm.check_delete("feat", false, false, true, false, Some(true)).is_ok());
    assert!(bm.check_delete("feat", false, false, false, false, None).is_ok());
}

#[test]
fn merge_plans_and_messages() {
    let bm = BranchManager::new();
    assert_eq!(bm.merge_plan(true, true), MergePlan::UpToDate);
    assert_eq!(bm.merge_plan(false, true), MergePlan::FastForward);
    assert_eq!(bm.merge_plan(false, false), MergePlan::Normal);
    assert_eq!(bm.plan_result(MergePlan::UpToDate), Some(MergeResult::FastForward));
    assert_eq!(bm.plan_result(MergePlan::Normal), None);
    assert_eq!(bm.merge_message("feat"), "Merge branch 'feat'");
    assert_eq!(bm.fast_forward_message("feat"), "Fast-forward to feat");
    assert_eq!(bm.local_ref_name("dev"), "refs/heads/dev");
    assert_eq!(bm.not_found("x"), GitError::InvalidArgument("Branch not found: x".into()));
}

// ---- remotes ----

#[test]
fn remote_resolution() {
    let rm = RemoteManager::new();
    let remotes = strings(&["upstream", "origin"]);
    assert_eq!(rm.resolve_remote_name(Some("mine"), &remotes).unwrap(), "mine");
    assert_eq!(rm.resolve_remote_name(None, &remotes).unwrap(), "origin");
    assert_eq!(rm.resolve_remote_name(None, &strings(&["upstream"])).unwrap(), "upstream");
    assert_eq!(
        rm.resolve_remote_name(None, &[]),
        Err(GitError::InvalidArgument("No remotes configured".into()))
    );
}

#[test]
fn remote_strings_and_plans() {
    let rm = RemoteManager::new();
    assert_eq!(rm.push_refspec("main", false), "refs/heads/main:refs/heads/main");
    assert_eq!(rm.push_refspec("main", true), "+refs/heads/main:refs/heads/main");
    assert_eq!(rm.tracking_ref("origin", "main"), "refs/remotes/origin/main");
    assert_eq!(
        rm.no_tracking_branch("origin", "dev"),
        GitError::Git2("No tracking branch found for origin/dev".into())
    );
    assert_eq!(rm.pull_plan(true, false, false), PullPlan::UpToDate);
    assert_eq!(rm.pull_plan(false, true, true), PullPlan::FastForward);
    assert_eq!(rm.pull_plan(false, false, true), PullPlan::Merge);
    assert_eq!(rm.pull_plan(false, false, false), PullPlan::UpToDate);
    assert_eq!(
        rm.push_error(Git2ErrorClass::Other, "! [rejected] main"),
        GitError::RemoteRejected { reason: "! [rejected] main".into() }
    );
    assert_eq!(rm.push_error(Git2ErrorClass::Other, "timeout"), GitError::Git2("timeout".into()));
    assert_eq!(
        rm.push_error(Git2ErrorClass::Net, "timeout"),
        GitError::NetworkError { message: "timeout".into() }
    );
    assert_eq!(rm.fast_forward_message("main", "abc"), "Fast-forward main to abc");
    let info = rm.remote_info("origin".into(), None, Some("p".into()));
    assert_eq!(info.url, "");
    assert_eq!(info.push_url.as_deref(), Some("p"));
    assert_eq!(
        rm.conflict_result(strings(&["a"])),
        PullResult::Conflict { files: strings(&["a"]) }
    );
}

// ---- stashes and rebases ----

#[test]
fn stash_messages_and_errors() {
    let sm = StashManager::new();
    assert_eq!(sm.stash_message(None), "WIP on stash");
    assert_eq!(sm.stash_message(Some("wip")), "wip");
    assert_eq!(sm.apply_error(ErrorClass::Checkout, "x"), GitError::MergeConflict { files: vec![] });
    assert_eq!(sm.apply_error(ErrorClass::Other, "has conflict"), GitError::MergeConflict { files: vec![] });
    assert_eq!(sm.apply_error(ErrorClass::Other, "odd"), GitError::Git2("odd".into()));
    assert_eq!(
        sm.pop_failure(ErrorClass::Merge, "x", &strings(&["a", "b", "a"])),
        Ok(StashPopResult::Conflict { files: strings(&["a", "b"]) })
    );
    assert_eq!(sm.pop_failure(ErrorClass::Other, "odd", &[]), Err(GitError::Git2("odd".into())));
    assert_eq!(sm.missing_index_error(12), GitError::InvalidArgument("Stash index 12 not found".into()));
}

#[test]
fn rebase_progress_and_conflicts() {
    let rs = RebaseService::new();
    assert_eq!(rs.check_conflict_status(false, &strings(&["a"])), RebaseStepStatus::InProgress);
    assert_eq!(
        rs.check_conflict_status(true, &strings(&["b", "a", "b"])),
        RebaseStepStatus::Conflict { files: strings(&["b", "a"]) }
    );
    assert_eq!(
        rs.build_progress(Some(1), 3, RebaseStepStatus::InProgress),
        RebaseProgress { current_step: 2, total_steps: 3, status: RebaseStepStatus::InProgress }
    );
    assert_eq!(rs.build_progress(None, 3, RebaseStepStatus::InProgress).current_step, 0);
    assert_eq!(
        rs.completed(4),
        RebaseProgress { current_step: 4, total_steps: 4, status: RebaseStepStatus::Completed }
    );
    assert_eq!(dedup_conflict_paths(&strings(&["x", "x", "y", "x"])), strings(&["x", "y"]));
}

// ---- submodules, worktrees, tags ----

#[test]
fn submodule_statuses() {
    let sm = SubmoduleManager::new();
    let a = Some("a".to_string());
    let b = Some("b".to_string());
    assert_eq!(sm.determine_status(&a, &None, false), SubmoduleStatus::Uninitialized);
    assert_eq!(sm.determine_status(&a, &b, false), SubmoduleStatus::Modified);
    assert_eq!(sm.determine_status(&a, &a, true), SubmoduleStatus::DetachedHead);
    assert_eq!(sm.determine_status(&a, &a, false), SubmoduleStatus::Initialized);
    assert_eq!(sm.determine_status(&None, &a, true), SubmoduleStatus::Initialized);
    assert_eq!(sm.config_key("libs/x", "branch"), "submodule.libs/x.branch");
    assert_eq!(
        sm.submodule_info(None, "p".into(), None, None, SubmoduleStatus::Uninitialized, None),
        SubmoduleInfo {
            name: "".into(),
            path: "p".into(),
            url: "".into(),
            head_id: None,
            status: SubmoduleStatus::Uninitialized,
            branch: None
        }
    );
}

#[test]
fn worktree_listing() {
    let wm = WorktreeManager::new();
    let main = wm.main_worktree("/repo".into(), Some("main".into()));
    assert_eq!(main.name, "main");
    assert!(main.is_main);
    let l1 = wm.linked_worktree("wt1".into(), "/wt1".into(), None);
    let l2 = wm.linked_worktree("wt2".into(), "/wt2".into(), Some("dev".into()));
    assert!(!l1.is_main);
    let all = wm.worktree_list(main.clone(), vec![l1.clone(), l2.clone()]);
    assert_eq!(all, vec![main, l1, l2]);
}

fn tag(name: &str, target: &str) -> TagInfo {
    TagInfo { name: name.into(), target_commit_id: target.into(), is_annotated: false, message: None, tagger: None }
}

#[test]
fn tags_sorted_stably_by_name() {
    let tm = TagManager::new();
    let sorted = tm.sort_tags(vec![tag("v2", "a"), tag("v10", "b"), tag("v1", "c"), tag("v2", "d"), tag("B", "e")]);
    let pairs: Vec<(&str, &str)> =
        sorted.iter().map(|t| (t.name.as_str(), t.target_commit_id.as_str())).collect();
    assert_eq!(pairs, vec![("B", "e"), ("v1", "c"), ("v10", "b"), ("v2", "a"), ("v2", "d")]);
    assert!(tm.sort_tags(vec![]).is_empty());
}

#[test]
fn tag_names_and_records() {
    let tm = TagManager::new();
    assert_eq!(tm.tag_name_of("refs/tags/v1.0"), "v1.0");
    assert_eq!(tm.tag_name_of("v1.0"), "v1.0");
    let g = SignatureInfo { name: "T".into(), email: "t@x".into(), timestamp: 3 };
    let t = tm.tag_info("v1".into(), "c".into(), Some((Some("msg".into()), Some(g.clone()))));
    assert!(t.is_annotated);
    assert_eq!(t.message.as_deref(), Some("msg"));
    assert_eq!(t.tagger, Some(g));
    let l = tm.tag_info("v2".into(), "c".into(), None);
    assert!(!l.is_annotated);
    assert_eq!(l.message, None);
}

// ---- blame ----

#[test]
fn blame_attributes_lines() {
    let lines = text_lines("one\ntwo\nthree\n");
    assert_eq!(lines, strings(&["one", "two", "three"]));
    let h = BlameHunk { commit_id: "c1".into(), author: None, date: 7, orig_start: 10, final_start: 2 };
    let g = BlameHunk { commit_id: "c0".into(), author: Some("Ann".into()), date: 1, orig_start: 1, final_start: 1 };
    let hunks = vec![Some(g), Some(h.clone()), None];
    let info = BlameService::new().blame("f.txt".into(), &lines, &hunks);
    assert_eq!(info.path, "f.txt");
    assert_eq!(
        info.lines,
        vec![
            BlameLine { line_number: 1, content: "one".into(), commit_id: "c0".into(), author: "Ann".into(), date: 1, original_line: 1 },
            BlameLine { line_number: 2, content: "two".into(), commit_id: "c1".into(), author: "Unknown".into(), date: 7, original_line: 10 },
        ]
    );
}

// ---- credentials and configuration ----

#[test]
fn credential_plans() {
    let cm = CredentialManager::new();
    let all = AllowedCredentials { ssh_key: true, user_pass_plaintext: true, default: true };
    assert_eq!(
        cm.plan(0, None, all),
        CredentialPlan::SshKey { username: "git".into(), key_names: strings(&["id_ed25519", "id_rsa"]) }
    );
    assert_eq!(
        cm.plan(3, Some("bob"), all),
        CredentialPlan::SshKey { username: "bob".into(), key_names: strings(&["id_ed25519", "id_rsa"]) }
    );
    assert_eq!(cm.plan(4, None, all), CredentialPlan::TooManyAttempts);
    let up = AllowedCredentials { ssh_key: false, user_pass_plaintext: true, default: true };
    assert_eq!(cm.plan(0, None, up), CredentialPlan::CredentialHelper);
    let d = AllowedCredentials { ssh_key: false, user_pass_plaintext: false, default: true };
    assert_eq!(cm.plan(0, None, d), CredentialPlan::Default);
    let none = AllowedCredentials { ssh_key: false, user_pass_plaintext: false, default: false };
    assert_eq!(cm.plan(0, None, none), CredentialPlan::Unsupported);
    assert_eq!(cm.public_key_name("id_rsa"), "id_rsa.pub");
}

#[test]
fn config_entries_and_levels() {
    let cm = ConfigManager::new();
    let c: GitConfig = cm.git_config(Some("Ann".into()), None, Some("main".into()), None);
    assert_eq!(
        cm.config_entries(&c),
        vec![
            ("user.name".to_string(), "Ann".to_string()),
            ("init.defaultBranch".to_string(), "main".to_string())
        ]
    );
    assert_eq!(parse_config_level("local").unwrap(), ConfigLevel::Local);
    assert_eq!(parse_config_level("global").unwrap(), ConfigLevel::Global);
    let e = parse_config_level("system").unwrap_err();
    assert_eq!(e.error_type, "InvalidArgument");
    assert_eq!(e.message, "Invalid config level: 'system'. Expected 'local' or 'global'.");
}

#[test]
fn default_settings() {
    let s = ConfigManager::default_app_settings();
    assert_eq!(s.theme, ThemeMode::System);
    assert_eq!(s.language, "en");
    assert_eq!(s.font_family, "monospace");
    assert_eq!(s.font_size, 14);
    assert!(s.hotkeys.is_empty());
    assert_eq!(s.window, WindowState { width: 1280, height: 720, x: None, y: None, maximized: false });
    assert!(s.commit_templates.is_empty());
}

// ---- file watching ----

#[test]
fn pending_changes_dedup_and_flush() {
    let mut p = PendingChanges::new();
    let tab = TabId("t1".into());
    assert!(p.flush(&tab).is_none());
    p.add("a".into());
    p.add("b".into());
    p.add("a".into());
    let ev = p.flush(&tab).unwrap();
    assert_eq!(ev.tab_id, tab);
    assert_eq!(ev.changed_paths, strings(&["a", "b"]));
    assert!(p.flush(&tab).is_none());
}

// ---- number formatting ----

#[test]
fn decimal_formatting() {
    assert_eq!(decimal_string(0), "0");
    assert_eq!(decimal_string(-42), "-42");
    assert_eq!(decimal_string(i64::MIN), "-9223372036854775808");
    assert_eq!(two_digit_string(5), "05");
    assert_eq!(two_digit_string(42), "42");
    assert_eq!(usize_string(1234), "1234");
}

#[test]
fn worktree_info_fields() {
    let w = WorktreeInfo { name: "n".into(), path: "p".into(), branch: None, is_main: false };
    assert_eq!(w.clone(), w);
}

#[test]
fn merge_errors_name_the_branch() {
    let bm = BranchManager::new();
    assert_eq!(bm.no_target("topic"), GitError::InvalidArgument("Branch 'topic' has no target".to_string()));
    assert_eq!(bm.detached_head(), GitError::InvalidArgument("HEAD is detached".to_string()));
}

#[test]
fn conflict_path_prefers_our_side() {
    assert_eq!(conflict_path(Some(b"a.txt".to_vec()), Some(b"b.txt".to_vec())), Some("a.txt".to_string()));
    assert_eq!(conflict_path(None, Some(b"b.txt".to_vec())), Some("b.txt".to_string()));
    assert_eq!(conflict_path(None, None), None);
    // Our side's path is taken even when it is not text.
    assert_eq!(conflict_path(Some(vec![0xff, 0xfe]), Some(b"b.txt".to_vec())), None);
}

#[test]
fn ipc_error_from_git_error_keeps_name_and_text() {
    let ipc: IpcError = GitError::Io("disk".into()).into();
    assert_eq!(ipc.error_type, "Io");
    assert_eq!(ipc.message, "IO error: disk");
    let ipc = IpcError::from(GitError::AuthenticationFailed);
    assert!(!ipc.error_type.is_empty() && !ipc.message.is_empty());
}

#[test]
fn merge_conflicts_are_the_result() {
    let bm = BranchManager::new();
    assert_eq!(bm.merge_conflict(None), None);
    assert_eq!(
        bm.merge_conflict(Some(vec!["x".to_string()])),
        Some(MergeResult::Conflict { files: vec!["x".to_string()] })
    );
}

#[test]
fn commit_ids_parse_to_twenty_bytes() {
    let full = "0123456789abcdefABCDEF0123456789abcdef01";
    let b = parse_commit_id(full).unwrap();
    assert_eq!(b.len(), 20);
    assert_eq!(&b[..4], &[0x01, 0x23, 0x45, 0x67]);
    assert_eq!(b[19], 0x01);
    // A short id is padded with zeros.
    let short = parse_commit_id("abc").unwrap();
    assert_eq!(&short[..3], &[0xab, 0xc0, 0x00]);
    assert!(short[2..].iter().all(|&x| x == 0));
    for bad in ["", "xyz", "0123456789abcdef0123456789abcdef012345678"] {
        assert_eq!(parse_commit_id(bad), Err(GitError::InvalidArgument(format!("Invalid commit id: {}", bad))));
    }
}
