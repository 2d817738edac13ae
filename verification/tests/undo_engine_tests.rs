use git_gui::error::GitError;
use git_gui::models::{GitOperation, RepositorySnapshot, ResetMode};
use git_gui::undo_engine::{snapshot_commit_id, UndoEngine, UndoEntry};
use tempfile::TempDir;

/// Create a temp repo with an initial commit; return the dir, the repo and the commit id.
fn setup_repo() -> (TempDir, git2::Repository, String) {
    let dir = TempDir::new().unwrap();
    let repo = git2::Repository::init(dir.path()).unwrap();
    let oid = {
        let sig = git2::Signature::now("Test", "test@test.com").unwrap();
        let tree_id = repo.index().unwrap().write_tree().unwrap();
        let tree = repo.find_tree(tree_id).unwrap();
        repo.commit(Some("HEAD"), &sig, &sig, "initial", &tree, &[]).unwrap()
    };
    (dir, repo, oid.to_string())
}

/// Create another commit on HEAD; return its id.
fn make_commit(repo: &git2::Repository, message: &str) -> String {
    let sig = git2::Signature::now("Test", "test@test.com").unwrap();
    let head = repo.head().unwrap().peel_to_commit().unwrap();
    let tree_id = repo.index().unwrap().write_tree().unwrap();
    let tree = repo.find_tree(tree_id).unwrap();
    let oid = repo.commit(Some("HEAD"), &sig, &sig, message, &tree, &[&head]).unwrap();
    oid.to_string()
}

/// Point HEAD at the snapshot's commit (through its symbolic ref if any) and reset hard.
fn restore(repo: &git2::Repository, snap: &RepositorySnapshot) -> Result<(), GitError> {
    let bytes = snapshot_commit_id(snap)?;
    let oid = git2::Oid::from_bytes(&bytes).map_err(|e| GitError::InvalidArgument(e.message().to_string()))?;
    let commit = repo
        .find_commit(oid)
        .map_err(|e| GitError::Git2(e.message().to_string()))?;
    match &snap.head_ref {
        Some(r) => repo.set_head(r),
        None => repo.set_head_detached(oid),
    }
    .map_err(|e| GitError::Git2(e.message().to_string()))?;
    repo.reset(commit.as_object(), git2::ResetType::Hard, None)
        .map_err(|e| GitError::Git2(e.message().to_string()))?;
    Ok(())
}

fn undo(engine: &mut UndoEngine, repo: &git2::Repository) -> Result<String, GitError> {
    let (desc, snap) = engine.undo_step()?;
    restore(repo, &snap)?;
    Ok(desc)
}

fn redo(engine: &mut UndoEngine, repo: &git2::Repository) -> Result<String, GitError> {
    let (desc, snap) = engine.redo_step()?;
    restore(repo, &snap)?;
    engine.complete_redo();
    Ok(desc)
}

fn head_oid(repo: &git2::Repository) -> String {
    repo.head().unwrap().target().unwrap().to_string()
}

fn snapshot(head_id: &str, head_ref: Option<&str>) -> RepositorySnapshot {
    RepositorySnapshot {
        head_id: head_id.to_string(),
        head_ref: head_ref.map(|s| s.to_string()),
        index_tree_id: None,
    }
}

fn entry(op: GitOperation, desc: &str, before: RepositorySnapshot, after: RepositorySnapshot) -> UndoEntry {
    UndoEntry {
        operation: op,
        description: desc.to_string(),
        before_state: before,
        after_state: after,
        timestamp: chrono::Utc::now().timestamp_millis(),
    }
}

#[test]
fn test_new_engine_empty() {
    let engine = UndoEngine::new();
    assert!(engine.can_undo().is_none());
    assert!(engine.can_redo().is_none());
}

#[test]
fn test_record_and_can_undo() {
    let mut engine = UndoEngine::new();
    let e = entry(
        GitOperation::Commit { id: "abc".into() },
        "Commit abc",
        snapshot("000", Some("refs/heads/main")),
        snapshot("abc", Some("refs/heads/main")),
    );
    engine.record(e);
    assert_eq!(engine.can_undo(), Some("Commit abc"));
    assert!(engine.can_redo().is_none());
}

#[test]
fn test_record_truncates_redo_history() {
    let mut engine = UndoEngine::new();
    let (_dir, repo, oid1) = setup_repo();
    let oid2 = make_commit(&repo, "second");

    engine.record(entry(
        GitOperation::Commit { id: oid2.clone() },
        "Commit second",
        snapshot(&oid1, Some("refs/heads/main")),
        snapshot(&oid2, Some("refs/heads/main")),
    ));

    undo(&mut engine, &repo).unwrap();
    assert!(engine.can_redo().is_some());

    let oid3 = make_commit(&repo, "third");
    engine.record(entry(
        GitOperation::Commit { id: oid3.clone() },
        "Commit third",
        snapshot(&oid1, Some("refs/heads/main")),
        snapshot(&oid3, Some("refs/heads/main")),
    ));
    assert!(engine.can_redo().is_none());
    assert_eq!(engine.can_undo(), Some("Commit third"));
}

#[test]
fn test_undo_nothing_returns_error() {
    let mut engine = UndoEngine::new();
    let (_dir, repo, _) = setup_repo();
    let result = undo(&mut engine, &repo);
    assert!(result.is_err());
}

#[test]
fn test_redo_nothing_returns_error() {
    let mut engine = UndoEngine::new();
    let (_dir, repo, _) = setup_repo();
    let result = redo(&mut engine, &repo);
    assert!(result.is_err());
}

#[test]
fn test_undo_restores_before_state() {
    let (_dir, repo, oid1) = setup_repo();
    let oid2 = make_commit(&repo, "second");

    let mut engine = UndoEngine::new();
    engine.record(entry(
        GitOperation::Commit { id: oid2.clone() },
        "Commit second",
        snapshot(&oid1, Some("refs/heads/main")),
        snapshot(&oid2, Some("refs/heads/main")),
    ));

    let desc = undo(&mut engine, &repo).unwrap();
    assert_eq!(desc, "Commit second");
    assert_eq!(head_oid(&repo), oid1);
}

#[test]
fn test_redo_restores_after_state() {
    let (_dir, repo, oid1) = setup_repo();
    let oid2 = make_commit(&repo, "second");

    let mut engine = UndoEngine::new();
    engine.record(entry(
        GitOperation::Commit { id: oid2.clone() },
        "Commit second",
        snapshot(&oid1, Some("refs/heads/main")),
        snapshot(&oid2, Some("refs/heads/main")),
    ));

    undo(&mut engine, &repo).unwrap();
    let desc = redo(&mut engine, &repo).unwrap();
    assert_eq!(desc, "Commit second");
    assert_eq!(head_oid(&repo), oid2);
}

#[test]
fn test_multiple_undo_redo() {
    let (_dir, repo, oid1) = setup_repo();
    let oid2 = make_commit(&repo, "second");
    let oid3 = make_commit(&repo, "third");

    let mut engine = UndoEngine::new();
    engine.record(entry(
        GitOperation::Commit { id: oid2.clone() },
        "Commit second",
        snapshot(&oid1, Some("refs/heads/main")),
        snapshot(&oid2, Some("refs/heads/main")),
    ));
    engine.record(entry(
        GitOperation::Commit { id: oid3.clone() },
        "Commit third",
        snapshot(&oid2, Some("refs/heads/main")),
        snapshot(&oid3, Some("refs/heads/main")),
    ));

    undo(&mut engine, &repo).unwrap();
    undo(&mut engine, &repo).unwrap();
    assert_eq!(head_oid(&repo), oid1);

    redo(&mut engine, &repo).unwrap();
    assert_eq!(head_oid(&repo), oid2);
}

#[test]
fn test_can_undo_redo_descriptions() {
    let mut engine = UndoEngine::new();
    let (_dir, repo, oid1) = setup_repo();
    let oid2 = make_commit(&repo, "second");

    engine.record(entry(
        GitOperation::Checkout { from_branch: "main".into(), to_branch: "dev".into() },
        "Checkout dev",
        snapshot(&oid1, Some("refs/heads/main")),
        snapshot(&oid2, Some("refs/heads/dev")),
    ));

    assert_eq!(engine.can_undo(), Some("Checkout dev"));
    assert_eq!(engine.can_redo(), None);

    undo(&mut engine, &repo).unwrap();
    assert_eq!(engine.can_undo(), None);
    assert_eq!(engine.can_redo(), Some("Checkout dev"));
}

#[test]
fn test_all_operation_types_recordable() {
    let mut engine = UndoEngine::new();
    let s = snapshot("abc", Some("refs/heads/main"));

    let operations = vec![
        (GitOperation::Commit { id: "abc".into() }, "commit"),
        (GitOperation::Checkout { from_branch: "a".into(), to_branch: "b".into() }, "checkout"),
        (GitOperation::Merge { source: "feat".into() }, "merge"),
        (GitOperation::Rebase { onto: "main".into() }, "rebase"),
        (GitOperation::BranchCreate { name: "feat".into() }, "branch create"),
        (GitOperation::BranchDelete { name: "feat".into(), target: "abc".into() }, "branch delete"),
        (GitOperation::Reset { mode: ResetMode::Hard, target: "abc".into() }, "reset"),
        (GitOperation::Revert { commit_id: "abc".into() }, "revert"),
        (GitOperation::CherryPick { commit_id: "abc".into() }, "cherry-pick"),
        (GitOperation::Stash, "stash"),
        (GitOperation::StashPop { index: 0 }, "stash pop"),
    ];

    for (op, desc) in operations {
        engine.record(entry(op, desc, s.clone(), s.clone()));
    }

    assert_eq!(engine.history().len(), 11);
    assert_eq!(engine.can_undo(), Some("stash pop"));
}

// ---- further cases ----

#[test]
fn undo_step_hands_out_before_state_and_moves_cursor() {
    let mut engine = UndoEngine::new();
    engine.record(entry(
        GitOperation::Stash,
        "stash",
        snapshot("aaa", None),
        snapshot("bbb", Some("refs/heads/x")),
    ));
    let (d, s) = engine.undo_step().unwrap();
    assert_eq!(d, "stash");
    assert_eq!(s.head_id, "aaa");
    assert_eq!(s.head_ref, None);
    assert!(engine.can_undo().is_none());
    assert_eq!(engine.can_redo(), Some("stash"));
    match engine.undo_step() {
        Err(GitError::InvalidArgument(m)) => assert_eq!(m, "Nothing to undo"),
        _ => panic!("expected InvalidArgument"),
    }
}

#[test]
fn redo_step_hands_out_after_state_without_moving() {
    let mut engine = UndoEngine::new();
    engine.record(entry(
        GitOperation::Stash,
        "stash",
        snapshot("aaa", None),
        snapshot("bbb", Some("refs/heads/x")),
    ));
    match engine.redo_step() {
        Err(GitError::InvalidArgument(m)) => assert_eq!(m, "Nothing to redo"),
        _ => panic!("expected InvalidArgument"),
    }
    engine.undo_step().unwrap();
    let (d, s) = engine.redo_step().unwrap();
    assert_eq!(d, "stash");
    assert_eq!(s.head_id, "bbb");
    assert_eq!(s.head_ref.as_deref(), Some("refs/heads/x"));
    // Not moved until the redo is completed.
    assert_eq!(engine.can_redo(), Some("stash"));
    engine.complete_redo();
    assert!(engine.can_redo().is_none());
    assert_eq!(engine.can_undo(), Some("stash"));
}

#[test]
fn undo_then_redo_roundtrip_concrete() {
    let mut engine = UndoEngine::new();
    for i in 0..3 {
        let before = format!("c{}", i);
        let after = format!("c{}", i + 1);
        engine.record(entry(
            GitOperation::Commit { id: after.clone() },
            &format!("Commit {}", i),
            snapshot(&before, Some("refs/heads/main")),
            snapshot(&after, Some("refs/heads/main")),
        ));
    }
    let (du, su) = engine.undo_step().unwrap();
    let (dr, sr) = engine.redo_step().unwrap();
    engine.complete_redo();
    assert_eq!(du, "Commit 2");
    assert_eq!(dr, "Commit 2");
    assert_eq!(su.head_id, "c2");
    assert_eq!(sr.head_id, "c3");
    assert_eq!(engine.can_undo(), Some("Commit 2"));
    assert!(engine.can_redo().is_none());
}

#[test]
fn snapshot_commit_id_parses_the_head_id() {
    let (_dir, _repo, id) = setup_repo();
    let snap = snapshot(&id, None);
    let bytes = snapshot_commit_id(&snap).unwrap();
    assert_eq!(git2::Oid::from_bytes(&bytes).unwrap().to_string(), id);
    assert!(matches!(snapshot_commit_id(&snapshot("not-an-id", None)), Err(GitError::InvalidArgument(_))));
}
