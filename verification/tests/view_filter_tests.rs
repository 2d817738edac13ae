use git_gui::dag_layout::compute_dag_layout;
use git_gui::models::{CommitInfo, DagEdge, DagLayout, DagNode, RefLabel, RefType, SignatureInfo};
use git_gui::view_filter::{apply_hide_filter, apply_pin_to_left, apply_solo_filter, ViewFilter};

/// Helper: create a minimal CommitInfo with given id, parent_ids, and refs.
fn make_commit(id: &str, parent_ids: Vec<&str>, refs: Vec<RefLabel>) -> CommitInfo {
    CommitInfo {
        id: id.to_string(),
        short_id: id[..std::cmp::min(7, id.len())].to_string(),
        message: format!("commit {}", id),
        author: SignatureInfo { name: "test".into(), email: "test@test.com".into(), timestamp: 0 },
        committer: SignatureInfo { name: "test".into(), email: "test@test.com".into(), timestamp: 0 },
        parent_ids: parent_ids.into_iter().map(String::from).collect(),
        refs,
        is_cherry_picked: false,
    }
}

fn local_ref(name: &str) -> RefLabel {
    RefLabel { name: name.to_string(), ref_type: RefType::LocalBranch, is_head: false }
}

fn remote_ref(name: &str, remote: &str) -> RefLabel {
    RefLabel { name: name.to_string(), ref_type: RefType::RemoteBranch { remote: remote.to_string() }, is_head: false }
}

fn tag_ref(name: &str) -> RefLabel {
    RefLabel { name: name.to_string(), ref_type: RefType::Tag, is_head: false }
}

#[test]
fn test_reset_view_clears_all_state() {
    let mut vf = ViewFilter::new();
    vf.solo_branch("main");
    vf.hide_branch("feature");
    vf.pin_left("develop");

    assert!(vf.is_solo_active());
    assert!(vf.is_hide_active());
    assert_eq!(vf.pinned_left_branches.len(), 1);

    vf.reset_view();

    assert!(!vf.is_solo_active());
    assert!(!vf.is_hide_active());
    assert!(vf.pinned_left_branches.is_empty());
}

#[test]
fn test_solo_unsolo() {
    let mut vf = ViewFilter::new();
    assert!(!vf.is_solo_active());

    vf.solo_branch("main");
    assert!(vf.is_solo_active());
    assert!(vf.soloed_branches.contains(&"main".to_string()));

    vf.unsolo_branch("main");
    assert!(!vf.is_solo_active());
}

#[test]
fn test_hide_unhide() {
    let mut vf = ViewFilter::new();
    assert!(!vf.is_hide_active());

    vf.hide_branch("feature");
    assert!(vf.is_hide_active());

    vf.unhide_branch("feature");
    assert!(!vf.is_hide_active());
}

#[test]
fn test_pin_left_ordering_and_dedup() {
    let mut vf = ViewFilter::new();
    vf.pin_left("main");
    vf.pin_left("develop");
    vf.pin_left("main"); // duplicate: should not add again

    assert_eq!(vf.pinned_left_branches, vec!["main", "develop"]);

    vf.unpin_left("main");
    assert_eq!(vf.pinned_left_branches, vec!["develop"]);
}

/// Graph: c1 (main) -> c2 -> c3 ; c4 (feature) -> c2. Solo "main" shows c1, c2, c3.
#[test]
fn test_solo_filter_single_branch() {
    let commits = vec![
        make_commit("c1", vec!["c2"], vec![local_ref("main")]),
        make_commit("c4", vec!["c2"], vec![local_ref("feature")]),
        make_commit("c2", vec!["c3"], vec![]),
        make_commit("c3", vec![], vec![]),
    ];

    let solo = vec!["main".to_string()];

    let result = apply_solo_filter(&commits, &solo);
    let ids: Vec<&str> = result.iter().map(|c| c.id.as_str()).collect();

    assert!(ids.contains(&"c1"));
    assert!(ids.contains(&"c2"));
    assert!(ids.contains(&"c3"));
    assert!(!ids.contains(&"c4"));
}

/// Solo multiple branches: "main" and "feature" should show all commits.
#[test]
fn test_solo_filter_multiple_branches() {
    let commits = vec![
        make_commit("c1", vec!["c2"], vec![local_ref("main")]),
        make_commit("c4", vec!["c2"], vec![local_ref("feature")]),
        make_commit("c2", vec!["c3"], vec![]),
        make_commit("c3", vec![], vec![]),
    ];

    let solo = vec!["main".to_string(), "feature".to_string()];

    let result = apply_solo_filter(&commits, &solo);
    assert_eq!(result.len(), 4);
}

/// Solo a remote branch.
#[test]
fn test_solo_filter_remote_branch() {
    let commits = vec![
        make_commit("c1", vec!["c2"], vec![remote_ref("origin/main", "origin")]),
        make_commit("c5", vec!["c2"], vec![local_ref("feature")]),
        make_commit("c2", vec!["c3"], vec![]),
        make_commit("c3", vec![], vec![]),
    ];

    let solo = vec!["origin/main".to_string()];

    let result = apply_solo_filter(&commits, &solo);
    let ids: Vec<&str> = result.iter().map(|c| c.id.as_str()).collect();

    assert!(ids.contains(&"c1"));
    assert!(ids.contains(&"c2"));
    assert!(ids.contains(&"c3"));
    assert!(!ids.contains(&"c5"));
}

/// Graph: c1 (main) -> c2 -> c3 ; c4 (feature) -> c5 -> c2.
/// Hide "feature" hides c4 and c5, keeps c1, c2, c3.
#[test]
fn test_hide_filter_single_branch() {
    let commits = vec![
        make_commit("c1", vec!["c2"], vec![local_ref("main")]),
        make_commit("c4", vec!["c5"], vec![local_ref("feature")]),
        make_commit("c2", vec!["c3"], vec![]),
        make_commit("c5", vec!["c2"], vec![]),
        make_commit("c3", vec![], vec![]),
    ];

    let hidden = vec!["feature".to_string()];

    let result = apply_hide_filter(&commits, &hidden);
    let ids: Vec<&str> = result.iter().map(|c| c.id.as_str()).collect();

    assert!(ids.contains(&"c1"));
    assert!(ids.contains(&"c2"));
    assert!(ids.contains(&"c3"));
    assert!(!ids.contains(&"c4"));
    assert!(!ids.contains(&"c5"));
}

/// Shared commits remain visible even when one branch is hidden.
#[test]
fn test_hide_filter_preserves_shared_commits() {
    let commits = vec![
        make_commit("c1", vec!["c2"], vec![local_ref("main")]),
        make_commit("c3", vec!["c2"], vec![local_ref("feature")]),
        make_commit("c2", vec![], vec![]),
    ];

    let hidden = vec!["feature".to_string()];

    let result = apply_hide_filter(&commits, &hidden);
    let ids: Vec<&str> = result.iter().map(|c| c.id.as_str()).collect();

    assert!(ids.contains(&"c1"));
    assert!(ids.contains(&"c2"));
    assert!(!ids.contains(&"c3"));
}

#[test]
fn test_pin_to_left_moves_branch_to_column_0() {
    let commits = vec![
        make_commit("c1", vec!["c3"], vec![local_ref("main")]),
        make_commit("c2", vec!["c3"], vec![local_ref("feature")]),
        make_commit("c3", vec![], vec![]),
    ];

    let mut layout = DagLayout {
        nodes: vec![
            DagNode {
                commit_id: "c1".into(),
                column: 1,
                row: 0,
                color_index: 1,
                parent_edges: vec![DagEdge { from_column: 1, to_column: 0, to_row: 2, color_index: 1 }],
            },
            DagNode {
                commit_id: "c2".into(),
                column: 0,
                row: 1,
                color_index: 0,
                parent_edges: vec![DagEdge { from_column: 0, to_column: 0, to_row: 2, color_index: 0 }],
            },
            DagNode { commit_id: "c3".into(), column: 0, row: 2, color_index: 0, parent_edges: vec![] },
        ],
        total_columns: 2,
        total_rows: 3,
    };

    apply_pin_to_left(&mut layout, &["main".to_string()], &commits);

    let c1_node = layout.nodes.iter().find(|n| n.commit_id == "c1").unwrap();
    assert_eq!(c1_node.column, 0);

    let c2_node = layout.nodes.iter().find(|n| n.commit_id == "c2").unwrap();
    assert_eq!(c2_node.column, 1);
}

#[test]
fn pinned_name_absent_from_graph_takes_no_column() {
    let commits = vec![
        make_commit("c1", vec!["c3"], vec![local_ref("main")]),
        make_commit("c2", vec!["c3"], vec![local_ref("feature")]),
        make_commit("c3", vec![], vec![]),
    ];

    let mut layout = DagLayout {
        nodes: vec![
            DagNode {
                commit_id: "c1".into(),
                column: 1,
                row: 0,
                color_index: 1,
                parent_edges: vec![DagEdge { from_column: 1, to_column: 0, to_row: 2, color_index: 1 }],
            },
            DagNode {
                commit_id: "c2".into(),
                column: 0,
                row: 1,
                color_index: 0,
                parent_edges: vec![DagEdge { from_column: 0, to_column: 0, to_row: 2, color_index: 0 }],
            },
            DagNode { commit_id: "c3".into(), column: 0, row: 2, color_index: 0, parent_edges: vec![] },
        ],
        total_columns: 2,
        total_rows: 3,
    };

    apply_pin_to_left(&mut layout, &["ghost".to_string(), "main".to_string()], &commits);

    let col_of = |id: &str| -> usize { layout.nodes.iter().find(|n| n.commit_id == id).unwrap().column };
    assert_eq!(col_of("c1"), 0);
    assert_eq!(col_of("c2"), 1);
    assert_eq!(col_of("c3"), 1);
    assert_eq!(layout.nodes[0].parent_edges[0].from_column, 0);
    assert_eq!(layout.nodes[0].parent_edges[0].to_column, 1);
    assert_eq!(layout.total_columns, 2);
}

#[test]
fn test_pin_to_left_ordering() {
    let commits = vec![
        make_commit("a", vec!["d"], vec![local_ref("branchA")]),
        make_commit("b", vec!["d"], vec![local_ref("branchB")]),
        make_commit("c", vec!["d"], vec![local_ref("branchC")]),
        make_commit("d", vec![], vec![]),
    ];

    let mut layout = DagLayout {
        nodes: vec![
            DagNode { commit_id: "a".into(), column: 0, row: 0, color_index: 0, parent_edges: vec![] },
            DagNode { commit_id: "b".into(), column: 1, row: 1, color_index: 1, parent_edges: vec![] },
            DagNode { commit_id: "c".into(), column: 2, row: 2, color_index: 2, parent_edges: vec![] },
            DagNode { commit_id: "d".into(), column: 0, row: 3, color_index: 0, parent_edges: vec![] },
        ],
        total_columns: 3,
        total_rows: 4,
    };

    apply_pin_to_left(&mut layout, &["branchC".to_string(), "branchA".to_string()], &commits);

    let col_of = |id: &str| -> usize { layout.nodes.iter().find(|n| n.commit_id == id).unwrap().column };

    assert_eq!(col_of("c"), 0);
    assert_eq!(col_of("a"), 1);
}

// --- Further cases ---

#[test]
fn solo_with_no_branch_keeps_every_commit_in_order() {
    let commits = vec![
        make_commit("c1", vec!["c2"], vec![local_ref("main")]),
        make_commit("c2", vec![], vec![]),
    ];
    let result = apply_solo_filter(&commits, &Vec::new());
    let ids: Vec<&str> = result.iter().map(|c| c.id.as_str()).collect();
    assert_eq!(ids, vec!["c1", "c2"]);
}

#[test]
fn solo_of_unknown_branch_shows_nothing() {
    let commits = vec![make_commit("c1", vec![], vec![local_ref("main")])];
    let result = apply_solo_filter(&commits, &vec!["nope".to_string()]);
    assert!(result.is_empty());
}

#[test]
fn solo_follows_tags_by_name_and_keeps_order() {
    let commits = vec![
        make_commit("c1", vec!["c2"], vec![local_ref("main")]),
        make_commit("t1", vec!["c3"], vec![tag_ref("v1")]),
        make_commit("c2", vec!["c3"], vec![]),
        make_commit("c3", vec![], vec![]),
    ];
    let result = apply_solo_filter(&commits, &vec!["v1".to_string()]);
    let ids: Vec<&str> = result.iter().map(|c| c.id.as_str()).collect();
    assert_eq!(ids, vec!["t1", "c3"]);
}

#[test]
fn hide_every_branch_shows_nothing() {
    let commits = vec![
        make_commit("c1", vec!["c2"], vec![local_ref("main")]),
        make_commit("c2", vec![], vec![]),
    ];
    let result = apply_hide_filter(&commits, &vec!["main".to_string()]);
    assert!(result.is_empty());
}

#[test]
fn reset_view_then_filters_show_full_history() {
    let commits = vec![
        make_commit("c1", vec!["c2"], vec![local_ref("main")]),
        make_commit("c4", vec!["c2"], vec![local_ref("feature")]),
        make_commit("c2", vec![], vec![]),
    ];
    let mut vf = ViewFilter::new();
    vf.solo_branch("main");
    vf.hide_branch("feature");
    vf.reset_view();
    let after_solo = apply_solo_filter(&commits, &vf.soloed_branches);
    let after_hide = apply_hide_filter(&after_solo, &vf.hidden_branches);
    assert_eq!(after_hide, commits);
}

#[test]
fn pinned_tips_lead_on_a_computed_layout() {
    let commits = vec![
        make_commit("a", vec!["d"], vec![local_ref("branchA")]),
        make_commit("b", vec!["d"], vec![local_ref("branchB")]),
        make_commit("c", vec!["d"], vec![local_ref("branchC")]),
        make_commit("d", vec![], vec![]),
    ];
    let mut layout = compute_dag_layout(&commits);
    let before = layout.clone();
    apply_pin_to_left(&mut layout, &["branchC".to_string()], &commits);
    let col_of = |l: &DagLayout, id: &str| -> usize { l.nodes.iter().find(|n| n.commit_id == id).unwrap().column };
    assert_eq!(col_of(&layout, "c"), 0);
    assert_eq!(layout.total_columns, before.total_columns);
    assert_eq!(layout.nodes.len(), before.nodes.len());
    // Pinning nothing changes nothing.
    let mut again = before.clone();
    apply_pin_to_left(&mut again, &[], &commits);
    assert_eq!(again, before);
}

#[test]
fn pinning_moves_columns_by_a_permutation() {
    let commits = vec![
        make_commit("a", vec!["d"], vec![local_ref("branchA")]),
        make_commit("b", vec!["d"], vec![local_ref("branchB")]),
        make_commit("c", vec!["d"], vec![local_ref("branchC")]),
        make_commit("d", vec![], vec![]),
    ];
    let before = compute_dag_layout(&commits);
    let mut layout = before.clone();
    apply_pin_to_left(&mut layout, &["missing".to_string(), "branchC".to_string(), "branchB".to_string()], &commits);
    // branchC, the first pinned branch in the graph, leads; branchB follows.
    let col_of = |l: &DagLayout, id: &str| -> usize { l.nodes.iter().find(|n| n.commit_id == id).unwrap().column };
    assert_eq!(col_of(&layout, "c"), 0);
    assert_eq!(col_of(&layout, "b"), 1);
    // Every old column goes to one new column, and no two to the same.
    let mut moved: Vec<(usize, usize)> = Vec::new();
    for (x, y) in before.nodes.iter().zip(layout.nodes.iter()) {
        assert!(y.column < layout.total_columns);
        moved.push((x.column, y.column));
    }
    for &(a, b) in &moved {
        for &(c, d) in &moved {
            assert_eq!(a == c, b == d);
        }
    }
}

#[test]
fn hiding_more_branches_shows_no_more_commits() {
    let commits = vec![
        make_commit("f2", vec!["f1"], vec![local_ref("feature")]),
        make_commit("m2", vec!["m1"], vec![local_ref("main")]),
        make_commit("f1", vec!["m1"], vec![]),
        make_commit("d1", vec!["m1"], vec![local_ref("dev")]),
        make_commit("m1", vec![], vec![]),
    ];
    let ids = |v: &Vec<CommitInfo>| -> Vec<String> { v.iter().map(|c| c.id.clone()).collect() };
    let fewer = ids(&apply_hide_filter(&commits, &vec!["feature".to_string()]));
    let more = ids(&apply_hide_filter(&commits, &vec!["feature".to_string(), "dev".to_string()]));
    assert_eq!(fewer, vec!["m2", "d1", "m1"]);
    assert_eq!(more, vec!["m2", "m1"]);
    for id in &more {
        assert!(fewer.contains(id));
    }
}

#[test]
fn solo_keeps_exactly_the_ancestors_of_the_tip() {
    let commits = vec![
        make_commit("f2", vec!["f1"], vec![local_ref("feature")]),
        make_commit("m2", vec!["m1"], vec![local_ref("main")]),
        make_commit("f1", vec!["m1"], vec![]),
        make_commit("m1", vec!["m0"], vec![]),
        make_commit("m0", vec![], vec![]),
    ];
    let shown: Vec<String> =
        apply_solo_filter(&commits, &vec!["feature".to_string()]).iter().map(|c| c.id.clone()).collect();
    assert_eq!(shown, vec!["f2", "f1", "m1", "m0"]);
}
