use git_gui::diff_service::{parse_diff_events, DeltaStatus, DiffEvent, DiffService};
use git_gui::models::{
    DiffFileStatus, DiffLine, DiffLineType, FileStatus, FileStatusType, LineRange,
};
use git_gui::staging_service::{
    apply_line_ranges, classify_status, compute_diff_ops, line_in_ranges, split_lines, DiffOp,
    StagingService, StatusEntry, StatusFlags,
};

fn no_flags() -> StatusFlags {
    StatusFlags {
        conflicted: false,
        index_new: false,
        index_modified: false,
        index_deleted: false,
        index_renamed: false,
        wt_new: false,
        wt_modified: false,
        wt_deleted: false,
        wt_renamed: false,
    }
}

// ---- line-level staging ----

#[test]
fn stage_first_line_only() {
    let out = apply_line_ranges(
        "line1\nline2\nline3\n",
        "line1_modified\nline2\nline3_modified\n",
        &[LineRange { start: 1, end: 1 }],
        true,
    );
    assert_eq!(out, "line1_modified\nline2\nline3\n");
}

#[test]
fn unstage_first_line_only() {
    let svc = StagingService::new();
    let out = svc.apply_line_ranges(
        "line1\nline2\nline3\n",
        "line1_modified\nline2_modified\nline3\n",
        &[LineRange { start: 1, end: 1 }],
        false,
    );
    assert_eq!(out, "line1\nline2_modified\nline3\n");
}

#[test]
fn stage_addition_into_empty_base() {
    let out = apply_line_ranges("", "a\nb\n", &[LineRange { start: 2, end: 2 }], true);
    assert_eq!(out, "b\n");
}

#[test]
fn discard_restores_base_line() {
    let out = apply_line_ranges("x\n", "y\n", &[LineRange { start: 1, end: 1 }], false);
    assert_eq!(out, "x\n");
}

#[test]
fn discard_only_addition_gives_empty() {
    let out = apply_line_ranges("", "a\n", &[LineRange { start: 1, end: 1 }], false);
    assert_eq!(out, "");
}

#[test]
fn nothing_selected_stages_nothing() {
    let base = "one\ntwo\n";
    let out = apply_line_ranges(base, "one\nTWO\nthree\n", &[], true);
    assert_eq!(out, base);
}

#[test]
fn everything_selected_stages_everything() {
    let changed = "one\nTWO\nthree\n";
    let out = apply_line_ranges("one\ntwo\n", changed, &[LineRange { start: 1, end: 100 }], true);
    assert_eq!(out, changed);
}

#[test]
fn staging_keeps_multibyte_text() {
    let out = apply_line_ranges("héllo\n", "héllo\nwörld\n", &[LineRange { start: 2, end: 2 }], true);
    assert_eq!(out, "héllo\nwörld\n");
}

#[test]
fn line_ranges_are_inclusive() {
    let ranges = [LineRange { start: 1, end: 2 }, LineRange { start: 5, end: 7 }];
    assert!(line_in_ranges(1, &ranges));
    assert!(line_in_ranges(2, &ranges));
    assert!(!line_in_ranges(3, &ranges));
    assert!(line_in_ranges(7, &ranges));
    assert!(!line_in_ranges(8, &ranges));
    assert!(!line_in_ranges(1, &[]));
}

#[test]
fn split_lines_like_str_lines() {
    let ls = split_lines(b"a\r\nb\n\nc");
    assert_eq!(ls, vec![b"a".to_vec(), b"b".to_vec(), b"".to_vec(), b"c".to_vec()]);
    assert_eq!(split_lines(b"a\n"), vec![b"a".to_vec()]);
    assert!(split_lines(b"").is_empty());
}

#[test]
fn diff_ops_lcs_backtrack() {
    let base = vec![b"a".to_vec(), b"b".to_vec()];
    let changed = vec![b"b".to_vec()];
    assert_eq!(compute_diff_ops(&base, &changed), vec![DiffOp::Delete(1), DiffOp::Equal(1)]);

    let base = vec![b"l1".to_vec(), b"l2".to_vec(), b"l3".to_vec()];
    let changed = vec![b"l1m".to_vec(), b"l2".to_vec(), b"l3m".to_vec()];
    assert_eq!(
        compute_diff_ops(&base, &changed),
        vec![
            DiffOp::Delete(1),
            DiffOp::Insert(1),
            DiffOp::Equal(2),
            DiffOp::Delete(3),
            DiffOp::Insert(3)
        ]
    );
    assert!(compute_diff_ops(&vec![], &vec![]).is_empty());
}

#[test]
fn diff_keeps_a_longest_common_subsequence() {
    let base: Vec<Vec<u8>> = ["a", "b", "c", "d", "e"].iter().map(|s| s.as_bytes().to_vec()).collect();
    let changed: Vec<Vec<u8>> = ["b", "x", "d", "e", "a"].iter().map(|s| s.as_bytes().to_vec()).collect();
    let ops = compute_diff_ops(&base, &changed);
    let kept = ops.iter().filter(|op| matches!(op, DiffOp::Equal(_))).count();
    // "b", "d", "e" is a longest common subsequence.
    assert_eq!(kept, 3);
    let deleted = ops.iter().filter(|op| matches!(op, DiffOp::Delete(_))).count();
    let inserted = ops.iter().filter(|op| matches!(op, DiffOp::Insert(_))).count();
    assert_eq!(deleted, 2);
    assert_eq!(inserted, 2);
}

// ---- file status ----

#[test]
fn status_precedence() {
    let mut f = no_flags();
    assert_eq!(classify_status(&f), None);
    f.wt_new = true;
    assert_eq!(classify_status(&f), Some(FileStatusType::Untracked));
    f.wt_modified = true;
    assert_eq!(classify_status(&f), Some(FileStatusType::Modified));
    f.wt_renamed = true;
    assert_eq!(classify_status(&f), Some(FileStatusType::Renamed));
    f.wt_deleted = true;
    assert_eq!(classify_status(&f), Some(FileStatusType::Deleted));
    f.index_modified = true;
    assert_eq!(classify_status(&f), Some(FileStatusType::Staged));
    f.conflicted = true;
    assert_eq!(classify_status(&f), Some(FileStatusType::Conflict));
}

#[test]
fn status_list_skips_unshown_paths() {
    let mut staged = no_flags();
    staged.index_new = true;
    let mut modified = no_flags();
    modified.wt_modified = true;
    let entries = vec![
        StatusEntry { path: "a.txt".into(), flags: staged },
        StatusEntry { path: "clean.txt".into(), flags: no_flags() },
        StatusEntry { path: "b.txt".into(), flags: modified },
    ];
    let r = StagingService::new().status(&entries);
    assert_eq!(
        r,
        vec![
            FileStatus { path: "a.txt".into(), status: FileStatusType::Staged },
            FileStatus { path: "b.txt".into(), status: FileStatusType::Modified },
        ]
    );
}

// ---- diff events ----

fn file(path: &str, status: DeltaStatus) -> DiffEvent {
    DiffEvent::File { new_path: Some(path.into()), old_path: Some(path.into()), status, is_binary: false }
}

fn hunk(header: &[u8]) -> DiffEvent {
    DiffEvent::Hunk { header: header.to_vec(), old_start: 1, old_lines: 2, new_start: 1, new_lines: 2 }
}

fn line(origin: char, old: Option<u32>, new: Option<u32>, content: &[u8]) -> DiffEvent {
    DiffEvent::Line { origin, old_lineno: old, new_lineno: new, content: content.to_vec() }
}

#[test]
fn parse_diff_builds_files_hunks_lines() {
    let events = vec![
        file("a.txt", DeltaStatus::Modified),
        hunk(b"@@ -1,2 +1,2 @@ fn main\n"),
        line(' ', Some(1), Some(1), b"keep\n"),
        line('-', Some(2), None, b"old\n"),
        line('+', None, Some(2), b"new\n"),
        line('>', None, None, b"ignored\n"),
    ];
    let r = DiffService::new().parse_diff(&events);
    assert_eq!(r.len(), 1);
    let f = &r[0];
    assert_eq!(f.path, "a.txt");
    assert_eq!(f.old_path, None);
    assert_eq!(f.status, DiffFileStatus::Modified);
    assert!(!f.is_binary);
    assert_eq!(f.hunks.len(), 1);
    let h = &f.hunks[0];
    // The header is cut at its trailing whitespace.
    assert_eq!(h.header, "@@ -1,2 +1,2 @@ fn main");
    assert_eq!((h.old_start, h.old_lines, h.new_start, h.new_lines), (1, 2, 1, 2));
    assert_eq!(
        h.lines,
        vec![
            DiffLine { origin: DiffLineType::Context, old_lineno: Some(1), new_lineno: Some(1), content: "keep\n".into() },
            DiffLine { origin: DiffLineType::Deletion, old_lineno: Some(2), new_lineno: None, content: "old\n".into() },
            DiffLine { origin: DiffLineType::Addition, old_lineno: None, new_lineno: Some(2), content: "new\n".into() },
        ]
    );
}

#[test]
fn parse_diff_statuses_and_old_path() {
    let events = vec![
        DiffEvent::File {
            new_path: Some("new.rs".into()),
            old_path: Some("old.rs".into()),
            status: DeltaStatus::Renamed,
            is_binary: false,
        },
        file("u.txt", DeltaStatus::Untracked),
        file("d.txt", DeltaStatus::Deleted),
        file("c.txt", DeltaStatus::Copied),
        file("t.txt", DeltaStatus::Typechange),
        DiffEvent::File { new_path: None, old_path: Some("gone.txt".into()), status: DeltaStatus::Deleted, is_binary: false },
        DiffEvent::File { new_path: None, old_path: None, status: DeltaStatus::Added, is_binary: false },
    ];
    let r = parse_diff_events(&events);
    assert_eq!(r.len(), 7);
    assert_eq!(r[0].path, "new.rs");
    assert_eq!(r[0].old_path.as_deref(), Some("old.rs"));
    assert_eq!(r[0].status, DiffFileStatus::Renamed);
    assert_eq!(r[1].status, DiffFileStatus::Added);
    assert_eq!(r[1].old_path, None);
    assert_eq!(r[2].status, DiffFileStatus::Deleted);
    assert_eq!(r[3].status, DiffFileStatus::Copied);
    assert_eq!(r[3].old_path.as_deref(), Some("c.txt"));
    assert_eq!(r[4].status, DiffFileStatus::Modified);
    assert_eq!(r[5].path, "gone.txt");
    assert_eq!(r[6].path, "");
}

#[test]
fn parse_diff_binary_file_has_no_hunks() {
    let events = vec![
        file("img.png", DeltaStatus::Modified),
        DiffEvent::Binary,
        hunk(b"@@ -1 +1 @@\n"),
        line('+', None, Some(1), b"x"),
        DiffEvent::File { new_path: Some("bin".into()), old_path: None, status: DeltaStatus::Added, is_binary: true },
        hunk(b"@@ -0,0 +1 @@\n"),
    ];
    let r = parse_diff_events(&events);
    assert_eq!(r.len(), 2);
    assert!(r[0].is_binary);
    assert!(r[0].hunks.is_empty());
    assert!(r[1].is_binary);
    assert!(r[1].hunks.is_empty());
}

#[test]
fn parse_diff_invalid_utf8_becomes_empty_and_orphans_are_dropped() {
    let events = vec![
        hunk(b"@@ orphan @@"),
        line('+', None, Some(1), b"orphan"),
        file("a", DeltaStatus::Modified),
        line('+', None, Some(1), b"no hunk yet"),
        hunk(&[0xff, 0xfe, b'\n']),
        line('+', None, Some(1), &[0xc3]),
    ];
    let r = parse_diff_events(&events);
    assert_eq!(r.len(), 1);
    assert_eq!(r[0].hunks.len(), 1);
    assert_eq!(r[0].hunks[0].header, "");
    assert_eq!(r[0].hunks[0].lines.len(), 1);
    assert_eq!(r[0].hunks[0].lines[0].content, "");
}

#[test]
fn stage_then_unstage_same_lines_restores_base() {
    let svc = StagingService::new();
    let base = "a\nb\nc\nd\n";
    let changed = "A\nb\nC\nd\n";
    for ranges in [
        vec![LineRange { start: 1, end: 1 }],
        vec![LineRange { start: 3, end: 3 }],
        vec![LineRange { start: 1, end: 4 }],
        vec![],
    ] {
        let staged = svc.apply_line_ranges(base, changed, &ranges, true);
        let back = svc.apply_line_ranges(base, &staged, &ranges, false);
        assert_eq!(back, base);
    }
}

#[test]
fn staging_takes_exactly_the_selected_changes() {
    let base = "a\nb\nc\nd\n";
    let changed = "A\nb\nC\nd\n";
    assert_eq!(apply_line_ranges(base, changed, &[LineRange { start: 1, end: 1 }], true), "A\nb\nc\nd\n");
    assert_eq!(apply_line_ranges(base, changed, &[LineRange { start: 3, end: 3 }], true), "a\nb\nC\nd\n");
    // Reverting line 3 of the change keeps the change on line 1.
    assert_eq!(apply_line_ranges(base, changed, &[LineRange { start: 3, end: 3 }], false), "A\nb\nc\nd\n");
}

#[test]
fn neighbouring_changes_keep_line_order() {
    // Two neighbouring changed lines with only the first selected: each
    // changed line replaces its base line where it stands.
    let out = apply_line_ranges("a\nb\n", "A\nB\n", &[LineRange { start: 1, end: 1 }], true);
    assert_eq!(out, "A\nb\n");
}

#[test]
fn unstaging_second_of_two_changed_lines_keeps_order() {
    let out = apply_line_ranges(
        "line1\nline2\nline3\n",
        "line1_modified\nline2_modified\nline3\n",
        &[LineRange { start: 2, end: 2 }],
        false,
    );
    assert_eq!(out, "line1_modified\nline2\nline3\n");
}

#[test]
fn staging_first_of_two_changed_lines_keeps_order() {
    let out = apply_line_ranges(
        "line1\nline2\nline3\n",
        "line1_modified\nline2_modified\nline3\n",
        &[LineRange { start: 1, end: 1 }],
        true,
    );
    assert_eq!(out, "line1_modified\nline2\nline3\n");
}

#[test]
fn neighbouring_changes_round_trip() {
    let base = "l1\nl2\nl3\n";
    let changed = "m1\nm2\nl3\n";
    let ranges = [LineRange { start: 1, end: 1 }];
    let staged = apply_line_ranges(base, changed, &ranges, true);
    assert_eq!(staged, "m1\nl2\nl3\n");
    let back = apply_line_ranges(base, &staged, &ranges, false);
    assert_eq!(back, base);
}

#[test]
fn nothing_selected_on_texts_keeps_each_side() {
    let base = "a\nb\nc\n";
    let changed = "a\nB\nc\nd\n";
    assert_eq!(apply_line_ranges(base, changed, &[], true), base);
    assert_eq!(apply_line_ranges(base, changed, &[], false), changed);
    let far = [LineRange { start: 50, end: 60 }];
    assert_eq!(apply_line_ranges(base, changed, &far, true), base);
    assert_eq!(apply_line_ranges(base, changed, &far, false), changed);
}

#[test]
fn diff_ops_number_lines_along_each_side() {
    let base: Vec<Vec<u8>> = ["x", "y", "z"].iter().map(|s| s.as_bytes().to_vec()).collect();
    let changed: Vec<Vec<u8>> = ["y", "w", "z", "v"].iter().map(|s| s.as_bytes().to_vec()).collect();
    let ops = compute_diff_ops(&base, &changed);
    let (mut b, mut c) = (0u32, 0u32);
    for op in &ops {
        match op {
            DiffOp::Equal(j) => {
                b += 1;
                c += 1;
                assert_eq!(*j, c);
            }
            DiffOp::Insert(j) => {
                c += 1;
                assert_eq!(*j, c);
            }
            DiffOp::Delete(i) => {
                b += 1;
                assert_eq!(*i, b);
            }
        }
    }
    assert_eq!((b, c), (3, 4));
}

#[test]
fn round_trip_is_not_kept_when_base_lines_repeat() {
    // Repeated base lines let the longest common subsequence align the
    // changed text away from the lines it replaces.
    let base = "y\ny\nz\nz\nz\n";
    let changed = "My\ny\nMz\nz\nMz\n";
    let ranges = [LineRange { start: 1, end: 1 }, LineRange { start: 5, end: 5 }];
    let staged = apply_line_ranges(base, changed, &ranges, true);
    assert_eq!(staged, "My\ny\nz\nz\nz\nMz\n");
    let back = apply_line_ranges(base, &staged, &ranges, false);
    assert_eq!(back, "y\ny\nz\nz\nz\nMz\n");
}
