use git_gui::models::{CommitInfo, SignatureInfo};
use git_gui::search_engine::{SearchEngine, SearchHighlight, SearchQuery};

fn make_commit(id: &str, message: &str, author_name: &str, author_email: &str, timestamp: i64) -> CommitInfo {
    CommitInfo {
        id: id.to_string(),
        short_id: id[..7.min(id.len())].to_string(),
        message: message.to_string(),
        author: SignatureInfo { name: author_name.to_string(), email: author_email.to_string(), timestamp },
        committer: SignatureInfo { name: author_name.to_string(), email: author_email.to_string(), timestamp },
        parent_ids: vec![],
        refs: vec![],
        is_cherry_picked: false,
    }
}

fn sample_commits() -> Vec<CommitInfo> {
    vec![
        make_commit("abc1234567890", "Fix login bug", "Alice", "alice@example.com", 1000),
        make_commit("def4567890123", "Add search feature", "Bob", "bob@example.com", 2000),
        make_commit("ghi7890123456", "Refactor auth module", "Alice", "alice@example.com", 3000),
        make_commit("jkl0123456789", "Update README", "Charlie", "charlie@example.com", 4000),
    ]
}

#[test]
fn text_search_in_message() {
    let engine = SearchEngine::new();
    let commits = sample_commits();
    let query = SearchQuery { text: Some("login".into()), ..Default::default() };
    let results = engine.search(&commits, &query);
    assert_eq!(results.len(), 1);
    assert_eq!(results[0].commit.id, "abc1234567890");
}

#[test]
fn text_search_in_author() {
    let engine = SearchEngine::new();
    let commits = sample_commits();
    let query = SearchQuery { text: Some("bob".into()), ..Default::default() };
    let results = engine.search(&commits, &query);
    assert_eq!(results.len(), 1);
    assert_eq!(results[0].commit.id, "def4567890123");
}

#[test]
fn author_filter() {
    let engine = SearchEngine::new();
    let commits = sample_commits();
    let query = SearchQuery { author: Some("alice".into()), ..Default::default() };
    let results = engine.search(&commits, &query);
    assert_eq!(results.len(), 2);
    assert!(results.iter().all(|r| r.commit.author.name == "Alice"));
}

#[test]
fn author_filter_by_email() {
    let engine = SearchEngine::new();
    let commits = sample_commits();
    let query = SearchQuery { author: Some("charlie@example".into()), ..Default::default() };
    let results = engine.search(&commits, &query);
    assert_eq!(results.len(), 1);
    assert_eq!(results[0].commit.author.name, "Charlie");
}

#[test]
fn date_range_filter() {
    let engine = SearchEngine::new();
    let commits = sample_commits();
    let query = SearchQuery { since: Some(1500), until: Some(3500), ..Default::default() };
    let results = engine.search(&commits, &query);
    assert_eq!(results.len(), 2);
    let ids: Vec<&str> = results.iter().map(|r| r.commit.id.as_str()).collect();
    assert!(ids.contains(&"def4567890123"));
    assert!(ids.contains(&"ghi7890123456"));
}

#[test]
fn commit_hash_prefix_filter() {
    let engine = SearchEngine::new();
    let commits = sample_commits();
    let query = SearchQuery { commit_hash: Some("def456".into()), ..Default::default() };
    let results = engine.search(&commits, &query);
    assert_eq!(results.len(), 1);
    assert_eq!(results[0].commit.id, "def4567890123");
}

#[test]
fn combined_filters_and_logic() {
    let engine = SearchEngine::new();
    let commits = sample_commits();
    let query = SearchQuery { text: Some("auth".into()), author: Some("alice".into()), ..Default::default() };
    let results = engine.search(&commits, &query);
    assert_eq!(results.len(), 1);
    assert_eq!(results[0].commit.id, "ghi7890123456");
}

#[test]
fn combined_filters_no_match() {
    let engine = SearchEngine::new();
    let commits = sample_commits();
    let query = SearchQuery { text: Some("login".into()), author: Some("bob".into()), ..Default::default() };
    let results = engine.search(&commits, &query);
    assert!(results.is_empty());
}

#[test]
fn highlight_positions_correct() {
    let engine = SearchEngine::new();
    let commits = sample_commits();
    let query = SearchQuery { text: Some("Fix".into()), ..Default::default() };
    let results = engine.search(&commits, &query);
    assert_eq!(results.len(), 1);
    let hl: Vec<&SearchHighlight> = results[0].highlights.iter().filter(|h| h.field == "message").collect();
    assert_eq!(hl.len(), 1);
    assert_eq!(hl[0].start, 0);
    assert_eq!(hl[0].length, 3);
}

#[test]
fn case_insensitive_matching() {
    let engine = SearchEngine::new();
    let commits = sample_commits();
    let query = SearchQuery { text: Some("FIX LOGIN".into()), ..Default::default() };
    let results = engine.search(&commits, &query);
    assert_eq!(results.len(), 1);
    assert_eq!(results[0].commit.id, "abc1234567890");
}

#[test]
fn case_insensitive_commit_hash() {
    let engine = SearchEngine::new();
    let commits = sample_commits();
    let query = SearchQuery { commit_hash: Some("DEF456".into()), ..Default::default() };
    let results = engine.search(&commits, &query);
    assert_eq!(results.len(), 1);
}

#[test]
fn empty_query_returns_all() {
    let engine = SearchEngine::new();
    let commits = sample_commits();
    let query = SearchQuery::default();
    let results = engine.search(&commits, &query);
    assert_eq!(results.len(), commits.len());
}

#[test]
fn multiple_highlights_in_same_field() {
    let engine = SearchEngine::new();
    let commits = vec![make_commit("aaa1234567890", "fix bug and fix test", "Dev", "dev@test.com", 100)];
    let query = SearchQuery { text: Some("fix".into()), ..Default::default() };
    let results = engine.search(&commits, &query);
    assert_eq!(results.len(), 1);
    let msg_highlights: Vec<&SearchHighlight> = results[0].highlights.iter().filter(|h| h.field == "message").collect();
    assert_eq!(msg_highlights.len(), 2);
    assert_eq!(msg_highlights[0].start, 0);
    assert_eq!(msg_highlights[1].start, 12);
}

// --- Further cases ---

#[test]
fn empty_text_matches_every_commit_without_highlights() {
    let engine = SearchEngine::new();
    let commits = sample_commits();
    let query = SearchQuery { text: Some(String::new()), ..Default::default() };
    let results = engine.search(&commits, &query);
    let ids: Vec<&str> = results.iter().map(|r| r.commit.id.as_str()).collect();
    assert_eq!(ids, vec!["abc1234567890", "def4567890123", "ghi7890123456", "jkl0123456789"]);
    assert!(results.iter().all(|r| r.highlights.is_empty()));
    // The other criteria still apply.
    let query = SearchQuery { text: Some(String::new()), author: Some("alice".into()), ..Default::default() };
    assert_eq!(engine.search(&commits, &query).len(), 2);
}

#[test]
fn overlapping_matches_are_all_highlighted_in_field_order() {
    let engine = SearchEngine::new();
    let commits = vec![make_commit("aaaa000", "aaa", "aa", "x@aa.com", 0)];
    let query = SearchQuery { text: Some("AA".into()), ..Default::default() };
    let results = engine.search(&commits, &query);
    let hl: Vec<(String, usize, usize)> =
        results[0].highlights.iter().map(|h| (h.field.clone(), h.start, h.length)).collect();
    assert_eq!(
        hl,
        vec![
            ("message".to_string(), 0, 2),
            ("message".to_string(), 1, 2),
            ("author".to_string(), 0, 2),
            ("email".to_string(), 2, 2),
            ("id".to_string(), 0, 2),
            ("id".to_string(), 1, 2),
            ("id".to_string(), 2, 2),
        ]
    );
}

#[test]
fn wide_characters_are_found_at_every_offset() {
    let engine = SearchEngine::new();
    let commits = vec![make_commit("abc0000", "éé", "Éva", "eva@x.com", 0)];
    let query = SearchQuery { text: Some("é".into()), ..Default::default() };
    let found = engine.search(&commits, &query);
    assert_eq!(found.len(), 1);
    let msg: Vec<usize> =
        found[0].highlights.iter().filter(|h| h.field == "message").map(|h| h.start).collect();
    assert_eq!(msg, vec![0, 2]);
    let name: Vec<usize> =
        found[0].highlights.iter().filter(|h| h.field == "author").map(|h| h.start).collect();
    assert_eq!(name, vec![0]);
}

#[test]
fn since_and_until_are_inclusive() {
    let engine = SearchEngine::new();
    let commits = sample_commits();
    let query = SearchQuery { since: Some(2000), until: Some(2000), ..Default::default() };
    let results = engine.search(&commits, &query);
    assert_eq!(results.len(), 1);
    assert_eq!(results[0].commit.id, "def4567890123");
}
