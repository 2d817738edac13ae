use git_gui::commit_service::{
    cherry_pick_message, commit_detail_from, ApplySequence, commit_info_from, revert_message, short_id_of,
    split_remote_branch, CommitService, LogAction, LogPager, RefTarget,
};
use git_gui::diff_service::{DeltaStatus, DiffEvent};
use git_gui::models::{
    CherryPickResult, CommitInfo, RevertResult, DiffStats, FileStatus, FileStatusType, LogOptions, RefLabel, RefType,
    SignatureInfo,
};

fn sig(name: &str) -> SignatureInfo {
    SignatureInfo { name: name.into(), email: format!("{}@x.org", name), timestamp: 5 }
}

fn no_options() -> LogOptions {
    LogOptions {
        branch: None,
        author: None,
        since: None,
        until: None,
        path: None,
        search: None,
        offset: 0,
        limit: 0,
    }
}

#[test]
fn short_id_is_first_seven_bytes() {
    assert_eq!(short_id_of("0123456789abcdef"), "0123456");
    assert_eq!(short_id_of("abc"), "abc");
    assert_eq!(short_id_of(""), "");
}

#[test]
fn commit_info_marks_cherry_picks() {
    let c = commit_info_from(
        "89abcdef0123".into(),
        "fix\n\n(cherry picked from commit 123)".into(),
        sig("a"),
        sig("b"),
        vec!["p1".into()],
        vec![],
    );
    assert_eq!(c.short_id, "89abcde");
    assert!(c.is_cherry_picked);
    assert_eq!(c.parent_ids, vec!["p1".to_string()]);
    let d = commit_info_from("1".into(), "plain".into(), sig("a"), sig("b"), vec![], vec![]);
    assert!(!d.is_cherry_picked);
    assert_eq!(d.short_id, "1");
}

#[test]
fn commit_detail_counts_files_and_lines() {
    let commit = commit_info_from("abcdef01".into(), "m".into(), sig("a"), sig("a"), vec![], vec![]);
    let events = vec![
        DiffEvent::File { new_path: Some("a.txt".into()), old_path: Some("a.txt".into()), status: DeltaStatus::Modified, is_binary: false },
        DiffEvent::Hunk { header: b"@@".to_vec(), old_start: 1, old_lines: 1, new_start: 1, new_lines: 2 },
        DiffEvent::Line { origin: '+', old_lineno: None, new_lineno: Some(1), content: b"x\n".to_vec() },
        DiffEvent::Line { origin: '+', old_lineno: None, new_lineno: Some(2), content: b"y\n".to_vec() },
        DiffEvent::Line { origin: '-', old_lineno: Some(1), new_lineno: None, content: b"z\n".to_vec() },
        DiffEvent::Line { origin: ' ', old_lineno: Some(2), new_lineno: Some(3), content: b"w\n".to_vec() },
        DiffEvent::File { new_path: Some("n.txt".into()), old_path: None, status: DeltaStatus::Added, is_binary: false },
        DiffEvent::File { new_path: None, old_path: Some("d.txt".into()), status: DeltaStatus::Deleted, is_binary: false },
        DiffEvent::File { new_path: Some("r2".into()), old_path: Some("r1".into()), status: DeltaStatus::Renamed, is_binary: false },
    ];
    let d = commit_detail_from(commit.clone(), &events);
    assert_eq!(d.commit, commit);
    assert_eq!(
        d.files,
        vec![
            FileStatus { path: "a.txt".into(), status: FileStatusType::Modified },
            FileStatus { path: "n.txt".into(), status: FileStatusType::Untracked },
            FileStatus { path: "d.txt".into(), status: FileStatusType::Deleted },
            FileStatus { path: "r2".into(), status: FileStatusType::Renamed },
        ]
    );
    assert_eq!(d.stats, DiffStats { files_changed: 4, insertions: 2, deletions: 1 });
}

#[test]
fn ref_map_labels_by_commit() {
    let svc = CommitService::new();
    let locals = vec![
        RefTarget { target: "c1".into(), name: "main".into() },
        RefTarget { target: "c2".into(), name: "feature".into() },
    ];
    let remotes = vec![
        RefTarget { target: "c1".into(), name: "origin/main".into() },
        RefTarget { target: "c2".into(), name: "lonely".into() },
    ];
    let tags = vec![RefTarget { target: "c1".into(), name: "v1.0".into() }];
    let m = svc.build_ref_map(&locals, &remotes, &tags, &Some("main".to_string()));
    assert_eq!(
        m.refs_for(&"c1".to_string()),
        vec![
            RefLabel { name: "main".into(), ref_type: RefType::LocalBranch, is_head: true },
            RefLabel { name: "main".into(), ref_type: RefType::RemoteBranch { remote: "origin".into() }, is_head: false },
            RefLabel { name: "v1.0".into(), ref_type: RefType::Tag, is_head: false },
        ]
    );
    assert_eq!(
        m.refs_for(&"c2".to_string()),
        vec![
            RefLabel { name: "feature".into(), ref_type: RefType::LocalBranch, is_head: false },
            RefLabel { name: "lonely".into(), ref_type: RefType::RemoteBranch { remote: "".into() }, is_head: false },
        ]
    );
    assert!(m.refs_for(&"c3".to_string()).is_empty());
}

#[test]
fn split_remote_branch_at_first_slash() {
    assert_eq!(split_remote_branch("origin/feat/x"), ("origin".to_string(), "feat/x".to_string()));
    assert_eq!(split_remote_branch("plain"), (String::new(), "plain".to_string()));
}

#[test]
fn filters_author_case_insensitive() {
    let svc = CommitService::new();
    let mut o = no_options();
    o.author = Some("ALICE".into());
    assert!(svc.matches_filters("alice smith", "a@x", 10, "msg", &o));
    assert!(svc.matches_filters("Bob", "Alice@x.org", 10, "msg", &o));
    assert!(!svc.matches_filters("Bob", "bob@x.org", 10, "msg", &o));
}

#[test]
fn filters_dates_and_message() {
    let svc = CommitService::new();
    let mut o = no_options();
    assert!(svc.matches_filters("a", "b", 10, "anything", &o));
    o.since = Some(10);
    o.until = Some(20);
    assert!(svc.matches_filters("a", "b", 10, "m", &o));
    assert!(svc.matches_filters("a", "b", 20, "m", &o));
    assert!(!svc.matches_filters("a", "b", 9, "m", &o));
    assert!(!svc.matches_filters("a", "b", 21, "m", &o));
    o.search = Some("FIX".into());
    assert!(svc.matches_filters("a", "b", 15, "a small fix", &o));
    assert!(!svc.matches_filters("a", "b", 15, "a feature", &o));
}

#[test]
fn pager_skips_offset_and_stops_at_limit() {
    let mut p = LogPager::new(1, 2);
    assert_eq!(p.next(false), LogAction::Skip);
    assert_eq!(p.next(true), LogAction::Skip);
    assert_eq!(p.next(true), LogAction::Take);
    assert_eq!(p.next(false), LogAction::Skip);
    assert_eq!(p.next(true), LogAction::Take);
    assert_eq!(p.next(true), LogAction::Stop);
}

#[test]
fn pager_without_limit_takes_all() {
    let mut p = LogPager::new(0, 0);
    for _ in 0..5 {
        assert_eq!(p.next(true), LogAction::Take);
    }
    assert_eq!(p.taken, 5);
}

#[test]
fn cherry_pick_and_revert_messages() {
    assert_eq!(cherry_pick_message("fix bug", "abc"), "fix bug\n\n(cherry picked from commit abc)");
    assert_eq!(
        revert_message("add x", "0123456789"),
        "Revert \"add x\"\n\nThis reverts commit 0123456."
    );
}

#[test]
fn create_patch_format() {
    let svc = CommitService::new();
    let lines = vec![('+', b"x\n".to_vec()), ('-', b"y\n".to_vec()), ('=', b"z\n".to_vec()), (' ', b"w\n".to_vec())];
    let p = svc.create_patch(
        "abc123",
        "Ann",
        "a@x",
        1700000000,
        -330,
        "Subj\n\n\nBody line\n",
        b" 1 file changed",
        &lines,
    );
    let expected = "From abc123 Mon Sep 17 00:00:00 2001\nFrom: Ann <a@x>\nDate: 1700000000 -0530\nSubject: [PATCH] Subj\n\nBody line\n\n---\n 1 file changed\n+x\n-y\nz\n w\n-- \n2.0.0\n";
    assert_eq!(String::from_utf8(p).unwrap(), expected);
}

#[test]
fn create_patch_subject_only_positive_offset() {
    let svc = CommitService::new();
    let p = svc.create_patch("id", "N", "e", -5, 120, "Only subject", b"", &[]);
    let expected = "From id Mon Sep 17 00:00:00 2001\nFrom: N <e>\nDate: -5 +0200\nSubject: [PATCH] Only subject\n\n---\n\n-- \n2.0.0\n";
    assert_eq!(String::from_utf8(p).unwrap(), expected);
}

#[test]
fn commit_info_clone_is_equal() {
    let c: CommitInfo = commit_info_from("x".into(), "m".into(), sig("a"), sig("b"), vec![], vec![]);
    assert_eq!(c.clone(), c);
}

#[test]
fn apply_sequence_stops_at_first_conflict_or_collects_commits() {
    let mut seq = ApplySequence::new();
    assert_eq!(seq.cherry_pick_step(None, "c1"), None);
    seq.record("n1".to_string());
    assert_eq!(
        seq.cherry_pick_step(Some(vec!["a.txt".to_string()]), "c2"),
        Some(CherryPickResult::Conflict { files: vec!["a.txt".to_string()], at_commit: "c2".to_string() })
    );
    seq.record("n2".to_string());
    assert_eq!(seq.cherry_pick_done(), CherryPickResult::Success { new_commits: vec!["n1".to_string(), "n2".to_string()] });

    let seq = ApplySequence::new();
    assert_eq!(
        seq.revert_step(Some(vec![]), "r1"),
        Some(RevertResult::Conflict { files: vec![], at_commit: "r1".to_string() })
    );
    assert_eq!(seq.revert_done(), RevertResult::Success { new_commits: vec![] });
}
