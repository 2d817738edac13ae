use git_gui::models::RepoEntry;
use git_gui::repository_manager::{new_tab_id, RecentRepos, MAX_RECENT_REPOS};
use tempfile::TempDir;

fn temp_dir() -> TempDir {
    TempDir::new().expect("failed to create temp dir")
}

fn name_of(dir: &TempDir) -> String {
    dir.path().file_name().unwrap().to_string_lossy().into_owned()
}

#[test]
fn test_recent_repos_bounded_at_20() {
    let mut recent = RecentRepos::new();
    let dirs: Vec<TempDir> = (0..25).map(|_| temp_dir()).collect();

    for dir in &dirs {
        git2::Repository::init(dir.path()).unwrap();
        recent.add_recent_entry(&dir.path().display().to_string(), &name_of(dir));
    }

    assert_eq!(recent.entries().len(), MAX_RECENT_REPOS);
}

// ---- further cases ----

#[test]
fn bounded_list_keeps_the_twenty_most_recent() {
    let mut recent = RecentRepos::new();
    for i in 0..25 {
        recent.add_recent_entry_at(&format!("/r/{}", i), &format!("r{}", i), i as i64);
    }
    let es = recent.entries();
    assert_eq!(es.len(), 20);
    assert_eq!(es[0].path, "/r/24");
    assert_eq!(es[19].path, "/r/5");
    assert_eq!(es[0].last_opened, 24);
}

#[test]
fn reopening_moves_to_front_and_updates_time() {
    let mut recent = RecentRepos::new();
    recent.add_recent_entry_at("/a", "a", 1);
    recent.add_recent_entry_at("/b", "b", 2);
    recent.add_recent_entry_at("/a", "a2", 3);
    let es = recent.entries();
    assert_eq!(es.len(), 2);
    assert_eq!(
        es[0],
        RepoEntry { path: "/a".to_string(), name: "a2".to_string(), last_opened: 3 }
    );
    assert_eq!(es[1].path, "/b");
}

#[test]
fn most_recent_first() {
    let mut recent = RecentRepos::new();
    recent.add_recent_entry("/x", "x");
    recent.add_recent_entry("/y", "y");
    let es = recent.entries();
    assert_eq!(es.len(), 2);
    assert_eq!(es[0].path, "/y");
    assert!(es[0].last_opened >= es[1].last_opened);
}

#[test]
fn remove_recent_repo_keeps_order_of_others() {
    let mut recent = RecentRepos::new();
    recent.add_recent_entry_at("/a", "a", 1);
    recent.add_recent_entry_at("/b", "b", 2);
    recent.add_recent_entry_at("/c", "c", 3);
    recent.remove_recent_repo("/b");
    let paths: Vec<&str> = recent.entries().iter().map(|e| e.path.as_str()).collect();
    assert_eq!(paths, vec!["/c", "/a"]);
    recent.remove_recent_repo("/missing");
    assert_eq!(recent.entries().len(), 2);
}

#[test]
fn set_entries_replaces_list() {
    let mut recent = RecentRepos::new();
    recent.add_recent_entry_at("/a", "a", 1);
    recent.set_entries(vec![RepoEntry { path: "/z".into(), name: "z".into(), last_opened: 9 }]);
    assert_eq!(recent.entries().len(), 1);
    assert_eq!(recent.entries()[0].path, "/z");
}

#[test]
fn list_stays_newest_first() {
    let mut recent = RecentRepos::new();
    let paths = ["/a", "/b", "/a", "/c", "/b", "/d"];
    for (t, p) in paths.iter().enumerate() {
        recent.add_recent_entry_at(p, p, 100 + t as i64);
        let es = recent.entries();
        assert!(es.iter().zip(es.iter().skip(1)).all(|(x, y)| x.last_opened >= y.last_opened));
    }
    let order: Vec<&str> = recent.entries().iter().map(|e| e.path.as_str()).collect();
    assert_eq!(order, vec!["/d", "/b", "/c", "/a"]);
}

#[test]
fn loaded_entries_keep_their_order() {
    let mut recent = RecentRepos::new();
    recent.add_recent_entry_at("/old", "old", 1);
    let loaded = vec![
        RepoEntry { path: "/p".to_string(), name: "p".to_string(), last_opened: 9 },
        RepoEntry { path: "/q".to_string(), name: "q".to_string(), last_opened: 8 },
    ];
    recent.set_entries(loaded.clone());
    let got: Vec<RepoEntry> = recent.entries().iter().cloned().collect();
    assert_eq!(got, loaded);
    assert_eq!(recent.entries().front().map(|e| e.path.as_str()), Some("/p"));
}

#[test]
fn tab_ids_are_hyphenated_uuids() {
    let a = new_tab_id();
    let b = new_tab_id();
    assert_ne!(a, b);
    assert_eq!(a.0.len(), 36);
    for (i, ch) in a.0.chars().enumerate() {
        if [8, 13, 18, 23].contains(&i) {
            assert_eq!(ch, '-');
        } else {
            assert!(ch.is_ascii_digit() || ('a'..='f').contains(&ch));
        }
    }
}
