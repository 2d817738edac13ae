use std::collections::{HashMap, HashSet};

use git_gui::dag_layout::compute_dag_layout;
use git_gui::models::{CommitInfo, DagLayout, DagNode, SignatureInfo};

/// Helper to create a CommitInfo with minimal fields.
fn make_commit(id: &str, parent_ids: Vec<&str>) -> CommitInfo {
    CommitInfo {
        id: id.to_string(),
        short_id: id[..std::cmp::min(7, id.len())].to_string(),
        message: format!("commit {}", id),
        author: SignatureInfo { name: "Test".to_string(), email: "test@test.com".to_string(), timestamp: 0 },
        committer: SignatureInfo { name: "Test".to_string(), email: "test@test.com".to_string(), timestamp: 0 },
        parent_ids: parent_ids.into_iter().map(String::from).collect(),
        refs: vec![],
        is_cherry_picked: false,
    }
}

/// Verify no column conflicts: for any row, all nodes have distinct columns.
fn assert_no_column_conflicts(layout: &DagLayout) {
    let mut row_columns: HashMap<usize, Vec<usize>> = HashMap::new();
    for node in &layout.nodes {
        row_columns.entry(node.row).or_default().push(node.column);
    }
    for (row, cols) in &row_columns {
        let unique: HashSet<_> = cols.iter().collect();
        assert_eq!(unique.len(), cols.len(), "Column conflict at row {}: columns {:?}", row, cols);
    }
}

/// Verify edge correctness: every parent_edge connects to a valid parent node.
fn assert_edge_correctness(layout: &DagLayout, commits: &[CommitInfo]) {
    let id_to_row: HashMap<&str, usize> = commits.iter().enumerate().map(|(i, c)| (c.id.as_str(), i)).collect();
    let id_to_col: HashMap<&str, usize> = layout.nodes.iter().map(|n| (n.commit_id.as_str(), n.column)).collect();

    for node in &layout.nodes {
        assert_eq!(node.row, id_to_row[node.commit_id.as_str()]);
        for edge in &node.parent_edges {
            assert_eq!(edge.from_column, node.column, "Edge from_column mismatch");
            let parent_commit = commits.iter().find(|c| {
                let parent_row = id_to_row.get(c.id.as_str());
                parent_row == Some(&edge.to_row)
            });
            assert!(parent_commit.is_some(), "Edge to_row {} does not correspond to any commit", edge.to_row);
            let parent = parent_commit.unwrap();
            assert_eq!(edge.to_column, id_to_col[parent.id.as_str()], "Edge to_column mismatch for parent {}", parent.id);
        }
    }
}

/// Verify topological ordering: child row < parent row.
fn assert_topological_order(layout: &DagLayout) {
    for node in &layout.nodes {
        for edge in &node.parent_edges {
            assert!(
                node.row < edge.to_row,
                "Child row {} should be less than parent row {} (commit {})",
                node.row,
                edge.to_row,
                node.commit_id
            );
        }
    }
}

/// Verify color assignment: adjacent active columns have different colors.
fn assert_color_differentiation(layout: &DagLayout) {
    let mut row_nodes: HashMap<usize, Vec<&DagNode>> = HashMap::new();
    for node in &layout.nodes {
        row_nodes.entry(node.row).or_default().push(node);
    }
    for (_row, nodes) in &row_nodes {
        let mut sorted = nodes.clone();
        sorted.sort_by_key(|n| n.column);
        for pair in sorted.windows(2) {
            if pair[0].column + 1 == pair[1].column {
                assert_ne!(
                    pair[0].color_index, pair[1].color_index,
                    "Adjacent columns {} and {} have same color {} at row {}",
                    pair[0].column, pair[1].column, pair[0].color_index, pair[0].row
                );
            }
        }
    }
}

#[test]
fn test_empty_history() {
    let layout = compute_dag_layout(&[]);
    assert_eq!(layout.nodes.len(), 0);
    assert_eq!(layout.total_columns, 0);
    assert_eq!(layout.total_rows, 0);
}

#[test]
fn test_single_commit() {
    let commits = vec![make_commit("aaa", vec![])];
    let layout = compute_dag_layout(&commits);
    assert_eq!(layout.nodes.len(), 1);
    assert_eq!(layout.nodes[0].column, 0);
    assert_eq!(layout.nodes[0].row, 0);
    assert!(layout.nodes[0].parent_edges.is_empty());
    assert_eq!(layout.total_columns, 1);
    assert_eq!(layout.total_rows, 1);
}

#[test]
fn test_linear_history() {
    let commits = vec![
        make_commit("c3", vec!["c2"]),
        make_commit("c2", vec!["c1"]),
        make_commit("c1", vec!["c0"]),
        make_commit("c0", vec![]),
    ];
    let layout = compute_dag_layout(&commits);

    assert_eq!(layout.nodes.len(), 4);
    assert_eq!(layout.total_rows, 4);
    for node in &layout.nodes {
        assert_eq!(node.column, 0, "Linear history should use column 0");
    }
    assert_no_column_conflicts(&layout);
    assert_edge_correctness(&layout, &commits);
    assert_topological_order(&layout);
}

#[test]
fn test_branch_and_merge() {
    let commits = vec![
        make_commit("merge", vec!["c2", "c3"]),
        make_commit("c2", vec!["base"]),
        make_commit("c3", vec!["base"]),
        make_commit("base", vec![]),
    ];
    let layout = compute_dag_layout(&commits);

    assert_eq!(layout.nodes.len(), 4);
    assert_no_column_conflicts(&layout);
    assert_edge_correctness(&layout, &commits);
    assert_topological_order(&layout);

    let merge_node = layout.nodes.iter().find(|n| n.commit_id == "merge").unwrap();
    assert_eq!(merge_node.parent_edges.len(), 2);
}

#[test]
fn test_parallel_branches() {
    let commits = vec![
        make_commit("a2", vec!["a1"]),
        make_commit("b2", vec!["b1"]),
        make_commit("c2", vec!["c1"]),
        make_commit("a1", vec!["base"]),
        make_commit("b1", vec!["base"]),
        make_commit("c1", vec!["base"]),
        make_commit("base", vec![]),
    ];
    let layout = compute_dag_layout(&commits);

    assert_eq!(layout.nodes.len(), 7);
    assert_no_column_conflicts(&layout);
    assert_edge_correctness(&layout, &commits);
    assert_topological_order(&layout);
    assert!(
        layout.total_columns >= 3,
        "Expected at least 3 columns for 3 parallel branches, got {}",
        layout.total_columns
    );
}

#[test]
fn test_complex_merge() {
    let commits = vec![
        make_commit("m2", vec!["b2", "c1"]),
        make_commit("b2", vec!["b1"]),
        make_commit("c1", vec!["base"]),
        make_commit("b1", vec!["base"]),
        make_commit("base", vec![]),
    ];
    let layout = compute_dag_layout(&commits);

    assert_no_column_conflicts(&layout);
    assert_edge_correctness(&layout, &commits);
    assert_topological_order(&layout);
}

#[test]
fn test_color_assignment() {
    let commits = vec![
        make_commit("a2", vec!["a1"]),
        make_commit("b2", vec!["b1"]),
        make_commit("a1", vec!["base"]),
        make_commit("b1", vec!["base"]),
        make_commit("base", vec![]),
    ];
    let layout = compute_dag_layout(&commits);

    assert_no_column_conflicts(&layout);
    assert_edge_correctness(&layout, &commits);
    assert_topological_order(&layout);
    assert_color_differentiation(&layout);
}

#[test]
fn test_long_linear_chain() {
    let n = 50;
    let mut commits = Vec::new();
    for i in (0..n).rev() {
        let id = format!("c{}", i);
        let parents = if i > 0 { vec![format!("c{}", i - 1)] } else { vec![] };
        commits.push(CommitInfo {
            id: id.clone(),
            short_id: id[..std::cmp::min(7, id.len())].to_string(),
            message: format!("commit {}", id),
            author: SignatureInfo { name: "Test".to_string(), email: "test@test.com".to_string(), timestamp: 0 },
            committer: SignatureInfo { name: "Test".to_string(), email: "test@test.com".to_string(), timestamp: 0 },
            parent_ids: parents,
            refs: vec![],
            is_cherry_picked: false,
        });
    }

    let layout = compute_dag_layout(&commits);
    assert_eq!(layout.total_rows, n);
    assert_eq!(layout.total_columns, 1);
    assert_no_column_conflicts(&layout);
    assert_edge_correctness(&layout, &commits);
    assert_topological_order(&layout);
}

#[test]
fn test_octopus_merge() {
    let commits = vec![
        make_commit("octopus", vec!["p1", "p2", "p3"]),
        make_commit("p1", vec!["base"]),
        make_commit("p2", vec!["base"]),
        make_commit("p3", vec!["base"]),
        make_commit("base", vec![]),
    ];
    let layout = compute_dag_layout(&commits);

    assert_no_column_conflicts(&layout);
    assert_edge_correctness(&layout, &commits);
    assert_topological_order(&layout);

    let octopus_node = layout.nodes.iter().find(|n| n.commit_id == "octopus").unwrap();
    assert_eq!(octopus_node.parent_edges.len(), 3);
}

// --- Further cases ---

#[test]
fn layout_of_branch_and_merge_has_exact_columns_and_colors() {
    // merge(0) -> c2, c3 ; c2 -> base ; c3 -> base
    let commits = vec![
        make_commit("merge", vec!["c2", "c3"]),
        make_commit("c2", vec!["base"]),
        make_commit("c3", vec!["base"]),
        make_commit("base", vec![]),
    ];
    let layout = compute_dag_layout(&commits);
    let cols: Vec<usize> = layout.nodes.iter().map(|n| n.column).collect();
    assert_eq!(cols, vec![0, 0, 1, 0]);
    assert_eq!(layout.total_columns, 2);
    // first parent keeps the lane, second gets a new one with another color
    let edges = &layout.nodes[0].parent_edges;
    assert_eq!((edges[0].to_row, edges[0].to_column), (1, 0));
    assert_eq!((edges[1].to_row, edges[1].to_column), (2, 1));
    assert_ne!(layout.nodes[1].color_index, layout.nodes[2].color_index);
}

#[test]
fn layout_ignores_parents_outside_the_list() {
    let commits = vec![make_commit("a", vec!["missing"]), make_commit("b", vec![])];
    let layout = compute_dag_layout(&commits);
    assert!(layout.nodes[0].parent_edges.is_empty());
    assert_eq!(layout.total_rows, 2);
}

#[test]
fn layout_is_the_same_when_computed_again() {
    let commits = vec![
        make_commit("a2", vec!["a1"]),
        make_commit("b2", vec!["b1"]),
        make_commit("a1", vec!["base"]),
        make_commit("b1", vec!["base"]),
        make_commit("base", vec![]),
    ];
    let first = compute_dag_layout(&commits);
    let second = compute_dag_layout(&commits);
    assert_eq!(first, second);
}

#[test]
fn layout_laws_on_a_graph_with_merges_and_outside_parents() {
    let commits = vec![
        make_commit("m", vec!["a", "f"]),
        make_commit("f", vec!["x", "b"]),
        make_commit("a", vec!["b", "outside"]),
        make_commit("g", vec!["b"]),
        make_commit("b", vec!["c"]),
        make_commit("c", vec![]),
    ];
    let layout = compute_dag_layout(&commits);
    let n = commits.len();

    // The layout is never wider than the number of commits.
    assert!(layout.total_columns <= n);

    // A node's edges lead exactly to its parents in the list, in order.
    let row_of = |id: &str| commits.iter().position(|c| c.id == id);
    for (i, node) in layout.nodes.iter().enumerate() {
        let expected: Vec<usize> = commits[i].parent_ids.iter().filter_map(|p| row_of(p)).collect();
        let got: Vec<usize> = node.parent_edges.iter().map(|e| e.to_row).collect();
        assert_eq!(got, expected);
    }

    // One color per column; an edge takes the color of the node it leads to.
    for a in &layout.nodes {
        for b in &layout.nodes {
            if a.column == b.column {
                assert_eq!(a.color_index, b.color_index);
            }
        }
        for e in &a.parent_edges {
            assert_eq!(e.color_index, layout.nodes[e.to_row].color_index);
        }
    }
}
