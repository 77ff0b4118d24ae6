use std::ops::Range;
use versus::compare::{DiffHunk, HunkKind, TextDiff};
use versus::editing::{detected_line_ending, replace_lines_preserving_style};
use versus::merge::{MergeChoice, MergeHunk, MergeHunkKind};
use versus::panes::{aligned_rows, conflict_marker, resolve_current_conflict, AlignedRow, FileViewFilter};
use versus::save::LineEnding;
use versus::settings::parse_settings;

#[test]
fn theme_setting_loads_and_old_settings_default_to_light() {
    assert!(parse_settings("dark_mode=true\nignore_whitespace=true\n").dark_mode);
    assert!(parse_settings("dark_mode=true\nignore_whitespace=true\n").ignore_whitespace);
    assert!(!parse_settings("ignore_whitespace=true\n").dark_mode);
}

#[test]
fn file_view_filters_keep_two_sides_aligned_across_uneven_hunks() {
    let diff = TextDiff {
        left_lines: ["same", "old one", "old two", "end"]
            .map(str::to_owned)
            .to_vec(),
        right_lines: ["same", "new", "end"].map(str::to_owned).to_vec(),
        hunks: vec![DiffHunk {
            left_range: 1..3,
            right_range: 1..2,
            kind: HunkKind::Changed,
        }],
    };
    assert_eq!(
        aligned_rows(&diff, FileViewFilter::All),
        vec![
            AlignedRow {
                left: Some(0),
                right: Some(0),
                hunk: None
            },
            AlignedRow {
                left: Some(1),
                right: Some(1),
                hunk: Some(0)
            },
            AlignedRow {
                left: Some(2),
                right: None,
                hunk: Some(0)
            },
            AlignedRow {
                left: Some(3),
                right: Some(2),
                hunk: None
            },
        ]
    );
    assert_eq!(aligned_rows(&diff, FileViewFilter::Differences).len(), 2);
    assert_eq!(aligned_rows(&diff, FileViewFilter::Same).len(), 2);
}

fn conflict(left: &[&str], right: &[&str]) -> MergeHunk {
    MergeHunk {
        base_range: Range { start: 0, end: 1 },
        merged_range: Range { start: 0, end: 0 },
        left: left.iter().map(|line| (*line).into()).collect(),
        right: right.iter().map(|line| (*line).into()).collect(),
        kind: MergeHunkKind::Conflict,
    }
}

#[test]
fn resolving_one_conflict_preserves_other_conflicts_and_edits() {
    let first = conflict(&["left one"], &["right one"]);
    let second = conflict(&["left two"], &["right two"]);
    let initial = "manual header\n<<<<<<< LEFT\nleft one\n=======\nright one\n>>>>>>> RIGHT\n<<<<<<< LEFT\nleft two\n=======\nright two\n>>>>>>> RIGHT";
    let after_first = resolve_current_conflict(initial, &first, MergeChoice::Left, 0);
    let final_text = resolve_current_conflict(&after_first, &second, MergeChoice::Right, 0);
    assert_eq!(final_text, "manual header\nleft one\nright two");
}

#[test]
fn resolving_second_identical_conflict_keeps_the_first() {
    let conflict = conflict(&["left"], &["right"]);
    let marker = conflict_marker(&conflict);
    let current = format!("{marker}\nunchanged\n{marker}");
    assert_eq!(
        resolve_current_conflict(&current, &conflict, MergeChoice::Right, 1),
        format!("{marker}\nunchanged\nright")
    );
}

#[test]
fn detects_predominant_line_ending() {
    assert_eq!(detected_line_ending("a\r\nb\r\nc\n"), LineEnding::Crlf);
    assert_eq!(detected_line_ending("a\nb\r\nc\n"), LineEnding::Lf);
}

#[test]
fn copying_lines_preserves_target_newline_and_crlf() {
    assert_eq!(
        replace_lines_preserving_style("one\r\ntwo\r\n", 1..2, vec!["changed".into()], true),
        "one\r\nchanged\r\n"
    );
}

#[test]
fn copying_into_empty_target_does_not_add_a_newline() {
    assert_eq!(
        replace_lines_preserving_style("", 0..0, vec!["new".into()], false),
        "new"
    );
}

#[test]
fn copying_eof_block_can_remove_terminal_newline() {
    assert_eq!(
        replace_lines_preserving_style("old\n", 0..1, vec!["new".into()], false),
        "new"
    );
}
