use std::ops::Range;
use versus::compare::{compare_texts, DiffHunk, FileCompareOptions, FileDiffKind, HunkKind, TextDiff};
use versus::desktop::{
    allows_navigation_to, editable_text, entry_kind_name, entry_state_name, file_kind_name, file_options,
    hunk_kind_name, line_ending_named, EditRefusal,
};
use versus::directory::{
    ComparisonStep, DirectoryCompareOptions, DirectoryComparison, DirectoryEntry, DirectoryEntryKind,
    DirectoryEntryState, DirectoryWalk,
};
use versus::editing::TextUndo;
use versus::error::{CompareError, CompareErrorKind};
use versus::files::{
    compare_file_contents, compare_three_way_files, text_of_file,
    check_regular_files, check_text_size, chunk_verdict, decimal, decode_text, effective_buffer_size,
    file_diff_from_bytes, size_verdict, ChunkVerdict,
};
use versus::merge::{
    compare_three_way_text, resolve_merge_hunk, MergeChoice, MergeHunk,
    MergeHunkKind,
};
use versus::order::{order_paths, Order};
use versus::panes::{
    aligned_rows, apply_merge_choice, clamp_selection, conflict_marker, copy_difference, drop_target,
    first_conflict, first_row_of_hunk, next_conflict, next_hunk, previous_conflict, previous_hunk,
    resolve_current_conflict, save_decision, shown_entries, state_label, summarize, unresolved_conflicts,
    AlignedRow, DirectoryFilter, FileViewFilter, Mode, PathField, SaveDecision,
};
use versus::save::{check_save_destination, render_for_save, side_file, LineEnding, SaveAction, SaveEvent, SaveOptions, SaveProcess, SaveStage};
use versus::settings::{parse_settings, settings_text, Settings};

fn hunk(kind: MergeHunkKind, left: &[&str], right: &[&str]) -> MergeHunk {
    MergeHunk {
        base_range: Range { start: 0, end: 1 },
        merged_range: Range { start: 0, end: 0 },
        left: left.iter().map(|line| (*line).to_owned()).collect(),
        right: right.iter().map(|line| (*line).to_owned()).collect(),
        kind,
    }
}

fn entry(name: &str, state: DirectoryEntryState) -> DirectoryEntry {
    DirectoryEntry {
        relative_path: vec![name.as_bytes().to_vec()],
        kind: DirectoryEntryKind::File,
        state,
    }
}

#[test]
fn settings_written_are_read_back() {
    for bits in 0..16u8 {
        let settings = Settings {
            ignore_line_endings: bits & 1 != 0,
            ignore_whitespace: bits & 2 != 0,
            confirm_overwrite: bits & 4 != 0,
            dark_mode: bits & 8 != 0,
        };
        assert_eq!(parse_settings(&settings_text(settings)), settings);
    }
}

#[test]
fn settings_file_has_one_line_per_setting() {
    assert_eq!(
        settings_text(Settings::default()),
        "ignore_line_endings=true\nignore_whitespace=false\nconfirm_overwrite=true\ndark_mode=false\n"
    );
}

#[test]
fn unknown_and_malformed_settings_lines_are_ignored() {
    let s = parse_settings("colour=blue\nno equals sign\ndark_mode=yes\nignore_line_endings=false\r\n");
    assert!(!s.dark_mode);
    assert!(!s.ignore_line_endings);
    assert!(!parse_settings("ignore_line_endings=true\r").ignore_line_endings);
    assert_eq!(parse_settings(""), Settings::default());
    assert!(!parse_settings("ignore_line_endings=false").ignore_line_endings);
}

#[test]
fn undo_then_redo_restores_each_value() {
    let mut undo = TextUndo { undo: Vec::new(), redo: Vec::new() };
    let mut value = "two".to_owned();
    undo.changed("one".to_owned());
    undo.undo(&mut value);
    assert_eq!(value, "one");
    undo.redo(&mut value);
    assert_eq!(value, "two");
    undo.redo(&mut value);
    assert_eq!(value, "two");
    undo.undo(&mut value);
    undo.undo(&mut value);
    assert_eq!(value, "one");
}

#[test]
fn a_new_change_clears_redo() {
    let mut undo = TextUndo { undo: Vec::new(), redo: Vec::new() };
    let mut value = "b".to_owned();
    undo.changed("a".to_owned());
    undo.undo(&mut value);
    undo.changed("x".to_owned());
    assert!(undo.redo.is_empty());
    undo.redo(&mut value);
    assert_eq!(value, "a");
}

#[test]
fn saving_renders_the_requested_line_ending() {
    assert_eq!(render_for_save("a\r\nb\nc", LineEnding::Lf), "a\nb\nc");
    assert_eq!(render_for_save("a\r\nb\nc", LineEnding::Crlf), "a\r\nb\r\nc");
    let once = render_for_save("x\ny\r\n", LineEnding::Crlf);
    assert_eq!(render_for_save(&once, LineEnding::Crlf), once);
    assert_eq!(render_for_save(&once, LineEnding::Lf), "x\ny\n");
    assert_eq!(render_for_save("lone\rcr", LineEnding::Lf), "lone\rcr");
}

#[test]
fn side_files_are_named_after_the_target_and_time() {
    assert_eq!(side_file("notes.txt", 1234, false), ".notes.txt.versus-1234.tmp");
    assert_eq!(side_file("notes.txt", 0, true), ".notes.txt.versus-0.backup");
}

#[test]
fn save_destination_checks() {
    let keep = SaveOptions::default();
    let replace = SaveOptions { overwrite: true, line_ending: LineEnding::Lf };
    assert!(check_save_destination("/d/f", Ok(false), true, &keep).is_ok());
    let exists = check_save_destination("/d/f", Ok(true), true, &keep).unwrap_err();
    assert_eq!(exists.kind, CompareErrorKind::Io);
    assert_eq!(exists.message, "destination already exists; explicit overwrite is required");
    assert!(check_save_destination("/d/f", Ok(true), true, &replace).is_ok());
    let orphan = check_save_destination("f", Ok(false), false, &keep).unwrap_err();
    assert_eq!(orphan.kind, CompareErrorKind::InvalidPath);
    let failed = check_save_destination("/d/f", Err("denied".to_owned()), true, &keep).unwrap_err();
    assert_eq!(failed.message, "denied");
    assert_eq!(failed.path.as_deref(), Some("/d/f"));
}

#[test]
fn save_replaces_an_existing_file_through_a_backup() {
    let options = SaveOptions { overwrite: true, line_ending: LineEnding::Lf };
    let (mut save, first) = SaveProcess::start("/d/f", "/d/.f.tmp", "/d/.f.backup", &options);
    assert!(matches!(first, SaveAction::WriteTemporary));
    assert!(matches!(save.step(SaveEvent::Done), SaveAction::CheckDestination));
    assert!(matches!(save.step(SaveEvent::Exists(true)), SaveAction::BackUpDestination));
    assert!(matches!(save.step(SaveEvent::Done), SaveAction::ReplaceDestination));
    assert!(matches!(save.step(SaveEvent::Failed("busy".to_owned())), SaveAction::RestoreBackup));
    match save.step(SaveEvent::Done) {
        SaveAction::Abort(e) => {
            assert_eq!(e.message, "busy");
            assert_eq!(e.path.as_deref(), Some("/d/f"));
        }
        _ => panic!("expected the save to abort"),
    }
    assert_eq!(save.stage, SaveStage::Over);
}

#[test]
fn save_refuses_a_destination_that_appeared() {
    let (mut save, _) = SaveProcess::start("/d/f", "/d/t", "/d/b", &SaveOptions::default());
    save.step(SaveEvent::Done);
    match save.step(SaveEvent::Exists(true)) {
        SaveAction::Abort(e) => assert_eq!(
            e.message,
            "destination appeared while saving; explicit overwrite is required"
        ),
        _ => panic!("expected the save to abort"),
    }
}

#[test]
fn save_of_a_new_file_completes_after_the_move() {
    let (mut save, _) = SaveProcess::start("/d/f", "/d/t", "/d/b", &SaveOptions::default());
    save.step(SaveEvent::Done);
    assert!(matches!(save.step(SaveEvent::Exists(false)), SaveAction::ReplaceDestination));
    assert!(matches!(save.step(SaveEvent::Done), SaveAction::Complete));
}

#[test]
fn text_hunks_have_exact_ranges_and_kinds() {
    let options = FileCompareOptions::default();
    let diff = compare_texts("a\nb\nc\nd\n", "a\nx\nc\nd\ne\n", &options);
    assert_eq!(diff.hunks.len(), 2);
    assert_eq!(diff.hunks[0].kind, HunkKind::Changed);
    assert_eq!(diff.hunks[0].left_range, 1..2);
    assert_eq!(diff.hunks[0].right_range, 1..2);
    assert_eq!(diff.hunks[1].left_range, 4..4);
    assert_eq!(diff.hunks[1].right_range, 4..5);
    assert_eq!(diff.hunks[1].kind, HunkKind::Added);
    let removed = compare_texts("a\nb\n", "a\n", &options);
    assert_eq!(removed.hunks[0].kind, HunkKind::Removed);
    assert_eq!(removed.hunks[0].left_range, 1..2);
    assert_eq!(removed.hunks[0].right_range, 1..1);
    let three = compare_texts("one\ntwo\nthree\n", "one\nthree\n", &options);
    assert_eq!(
        three.hunks,
        vec![DiffHunk { left_range: 1..2, right_range: 1..1, kind: HunkKind::Removed }]
    );
    assert_eq!(diff.left_lines, vec!["a", "b", "c", "d"]);
}

#[test]
fn line_endings_count_unless_ignored() {
    let strict = FileCompareOptions { ignore_line_endings: false, ..FileCompareOptions::default() };
    assert_eq!(compare_texts("a\r\n", "a\n", &strict).hunks.len(), 1);
    assert!(compare_texts("a\r\n", "a\n", &FileCompareOptions::default()).hunks.is_empty());
}

#[test]
fn an_edit_over_several_edits_of_the_other_side_is_one_conflict() {
    let diff = compare_three_way_text("a\nb\nc\n", "A\nb\nC\n", "X\n").unwrap();
    assert_eq!(diff.hunks.len(), 1);
    assert_eq!(diff.hunks[0].kind, MergeHunkKind::Conflict);
    assert_eq!(diff.hunks[0].base_range, 0..3);
    assert_eq!(diff.hunks[0].left, vec!["A", "C"]);
    assert_eq!(diff.hunks[0].right, vec!["X"]);
    assert_eq!(
        diff.merged,
        "<<<<<<< LEFT\nA\nC\n=======\nX\n>>>>>>> RIGHT\n"
    );
    assert_eq!(
        versus::merge::render_three_way(&diff, &[Some(MergeChoice::Right)]),
        "X\n"
    );
}

#[test]
fn merge_of_identical_sides_takes_them() {
    let diff = compare_three_way_text("base\n", "same\r\n", "same\n").unwrap();
    assert_eq!(diff.merged, "same\n");
    assert_eq!(diff.hunks[0].kind, MergeHunkKind::Identical);
}

#[test]
fn resolving_a_merge_hunk_replaces_its_lines() {
    let diff = compare_three_way_text("one\ntwo\n", "one\nleft\n", "one\nright\n").unwrap();
    assert_eq!(resolve_merge_hunk(&diff, 0, true).unwrap(), "one\nleft\n");
    assert_eq!(resolve_merge_hunk(&diff, 0, false).unwrap(), "one\nright\n");
    assert!(resolve_merge_hunk(&diff, 5, true).is_none());
}

#[test]
fn conflict_marker_frames_both_sides() {
    assert_eq!(
        conflict_marker(&hunk(MergeHunkKind::Conflict, &["l1", "l2"], &["r"])),
        "<<<<<<< LEFT\nl1\nl2\n=======\nr\n>>>>>>> RIGHT"
    );
    assert_eq!(
        conflict_marker(&hunk(MergeHunkKind::Conflict, &[], &["r"])),
        "<<<<<<< LEFT\n\n=======\nr\n>>>>>>> RIGHT"
    );
}

#[test]
fn resolving_a_missing_occurrence_changes_nothing() {
    let c = hunk(MergeHunkKind::Conflict, &["l"], &["r"]);
    let marker = conflict_marker(&c);
    let text = format!("top\n{marker}\n");
    assert_eq!(resolve_current_conflict(&text, &c, MergeChoice::Left, 1), text);
    assert_eq!(resolve_current_conflict("edited away", &c, MergeChoice::Left, 0), "edited away");
}

#[test]
fn merge_choice_resolves_the_right_occurrence_and_moves_on() {
    let a = hunk(MergeHunkKind::Conflict, &["l"], &["r"]);
    let b = hunk(MergeHunkKind::LeftOnly, &["x"], &["x"]);
    let c = hunk(MergeHunkKind::Conflict, &["l"], &["r"]);
    let hunks = vec![a, b, c];
    let marker = conflict_marker(&hunks[0]);
    let merged = format!("{marker}\nmid\n{marker}");
    let mut resolved = vec![false, false, false];
    let (text, next) = apply_merge_choice(&hunks, &mut resolved, 2, &merged, MergeChoice::Right).unwrap();
    assert_eq!(text, format!("{marker}\nmid\nr"));
    assert_eq!(resolved, vec![false, false, true]);
    assert_eq!(next, 0);
    let (text, next) = apply_merge_choice(&hunks, &mut resolved, 0, &text, MergeChoice::Left).unwrap();
    assert_eq!(text, "l\nmid\nr");
    assert_eq!(next, 0);
    assert!(apply_merge_choice(&hunks, &mut resolved, 1, &text, MergeChoice::Left).is_none());
    assert!(apply_merge_choice(&hunks, &mut resolved, 9, &text, MergeChoice::Left).is_none());
}

#[test]
fn conflict_navigation_wraps_round() {
    let hunks = vec![
        hunk(MergeHunkKind::Conflict, &["a"], &["b"]),
        hunk(MergeHunkKind::Identical, &["c"], &["c"]),
        hunk(MergeHunkKind::Conflict, &["d"], &["e"]),
        hunk(MergeHunkKind::Conflict, &["f"], &["g"]),
    ];
    let open = unresolved_conflicts(&hunks, &[false, false, true]);
    assert_eq!(open, vec![0, 3]);
    assert_eq!(next_conflict(&open, 0), Some(3));
    assert_eq!(next_conflict(&open, 3), Some(0));
    assert_eq!(previous_conflict(&open, 3), Some(0));
    assert_eq!(previous_conflict(&open, 0), Some(3));
    assert_eq!(previous_conflict(&[], 2), None);
    assert_eq!(next_conflict(&[], 2), None);
    assert_eq!(first_conflict(&hunks[1..]), 1);
    assert_eq!(first_conflict(&hunks[1..2]), 0);
}

#[test]
fn hunk_navigation_wraps_and_clamps() {
    assert_eq!(previous_hunk(0, 3), 2);
    assert_eq!(previous_hunk(2, 3), 1);
    assert_eq!(next_hunk(2, 3), 0);
    assert_eq!(next_hunk(0, 3), 1);
    assert_eq!(clamp_selection(5, 3), 2);
    assert_eq!(clamp_selection(1, 3), 1);
    assert_eq!(clamp_selection(4, 0), 0);
}

#[test]
fn rows_after_the_last_hunk_pair_up() {
    let diff = TextDiff {
        left_lines: ["a", "b", "c"].map(str::to_owned).to_vec(),
        right_lines: ["b", "c"].map(str::to_owned).to_vec(),
        hunks: vec![DiffHunk { left_range: 0..1, right_range: 0..0, kind: HunkKind::Removed }],
    };
    let rows = aligned_rows(&diff, FileViewFilter::All);
    assert_eq!(
        rows,
        vec![
            AlignedRow { left: Some(0), right: None, hunk: Some(0) },
            AlignedRow { left: Some(1), right: Some(0), hunk: None },
            AlignedRow { left: Some(2), right: Some(1), hunk: None },
        ]
    );
    assert_eq!(first_row_of_hunk(&rows, 0), Some(0));
    assert_eq!(first_row_of_hunk(&rows, 1), None);
    assert_eq!(aligned_rows(&diff, FileViewFilter::Same).len(), 2);
}

#[test]
fn copying_a_difference_takes_the_source_lines() {
    assert_eq!(copy_difference("a\nX\nc\n", "a\nb\nc\n", 1..2, 1..2), "a\nX\nc\n");
    assert_eq!(copy_difference("a\nb\n", "a\n", 1..2, 1..1), "a\nb\n");
    assert_eq!(copy_difference("a\nb", "a\n", 1..2, 1..1), "a\nb");
}

#[test]
fn directory_filters_and_summary() {
    let entries = vec![
        entry("a", DirectoryEntryState::Same),
        entry("b", DirectoryEntryState::Different),
        entry("c", DirectoryEntryState::LeftOnly),
        entry("d", DirectoryEntryState::RightOnly),
        entry("e", DirectoryEntryState::TypeMismatch),
        entry(
            "f",
            DirectoryEntryState::Error(CompareError {
                path: Some("f".to_owned()),
                kind: CompareErrorKind::Io,
                message: "denied".to_owned(),
            }),
        ),
    ];
    assert_eq!(shown_entries(&entries, DirectoryFilter::All), vec![0, 1, 2, 3, 4, 5]);
    assert_eq!(shown_entries(&entries, DirectoryFilter::Different), vec![1, 2, 3, 4, 5]);
    assert_eq!(shown_entries(&entries, DirectoryFilter::Same), vec![0]);
    assert_eq!(shown_entries(&entries, DirectoryFilter::LeftOnly), vec![2]);
    assert_eq!(shown_entries(&entries, DirectoryFilter::RightOnly), vec![3]);
    let s = summarize(&entries);
    assert_eq!((s.same, s.different, s.left_only, s.right_only, s.issues), (1, 1, 1, 1, 2));
    assert_eq!(state_label(&entries[2].state), "Left Only");
    assert_eq!(state_label(&entries[5].state), "Error: f: denied");
}

#[test]
fn dropped_paths_fill_the_first_empty_field() {
    assert_eq!(drop_target(Mode::Directory, true, true, true), PathField::DirectoryLeft);
    assert_eq!(drop_target(Mode::Directory, false, true, true), PathField::DirectoryRight);
    assert_eq!(drop_target(Mode::ThreeWay, false, true, true), PathField::Base);
    assert_eq!(drop_target(Mode::ThreeWay, false, false, true), PathField::Left);
    assert_eq!(drop_target(Mode::TwoWay, false, true, false), PathField::Right);
}

#[test]
fn save_requests_ask_or_confirm_as_needed() {
    assert_eq!(save_decision("  ", true, true), SaveDecision::AskForPath);
    assert_eq!(save_decision("out.txt", true, true), SaveDecision::ConfirmOverwrite);
    assert_eq!(save_decision("out.txt", true, false), SaveDecision::Write { overwrite: true });
    assert_eq!(save_decision("out.txt", false, true), SaveDecision::Write { overwrite: false });
}

#[test]
fn desktop_names_and_options() {
    assert_eq!(line_ending_named("Lf"), Ok(LineEnding::Lf));
    assert_eq!(line_ending_named("CrLf"), Ok(LineEnding::Crlf));
    assert_eq!(line_ending_named("crlf"), Err("Unsupported line ending".to_owned()));
    let o = file_options(true, false);
    assert!(o.ignore_whitespace && !o.ignore_line_endings);
    assert_eq!(o.text_size_limit, 33554432);
    assert_eq!(hunk_kind_name(HunkKind::Removed), "Removed");
    assert_eq!(file_kind_name(FileDiffKind::TooLarge), "TooLarge");
    assert_eq!(entry_kind_name(DirectoryEntryKind::Symlink), "Symlink");
    assert_eq!(entry_state_name(&DirectoryEntryState::LeftOnly), ("LeftOnly", None));
}

#[test]
fn navigation_follows_the_parser() {
    assert!(allows_navigation_to("TAURI://localhost/index.html", false));
    assert!(!allows_navigation_to("tauri://LOCALHOST/", false));
    assert!(allows_navigation_to("HTTP://TAURI.LOCALHOST/", false));
    assert!(allows_navigation_to("https://tauri.localhost/", false));
    assert!(allows_navigation_to("http://127.0.0.1:1420/", true));
    assert!(!allows_navigation_to("http://127.0.0.1:1420/", false));
    assert!(!allows_navigation_to("http://127.0.0.1:8080/", true));
    assert!(!allows_navigation_to("not a url", true));
}

#[test]
fn editable_text_refusals() {
    assert_eq!(editable_text(3, b"\xef\xbb\xbfhi").unwrap(), "hi");
    assert_eq!(editable_text(40_000_000, b"hi"), Err(EditRefusal::TooLarge));
    assert_eq!(editable_text(2, b"a\0"), Err(EditRefusal::NotEditable));
    assert_eq!(editable_text(2, b"\xff\xfe"), Err(EditRefusal::NotUtf8));
}

#[test]
fn file_decisions() {
    assert_eq!(decode_text("p", b"\xef\xbb\xbfcaf\xc3\xa9").unwrap(), "café");
    assert_eq!(decode_text("p", b"\xc3").unwrap_err().kind, CompareErrorKind::InvalidText);
    assert_eq!(decimal(1024), "1024");
    let too_big = check_text_size("big", 11, 10).unwrap_err();
    assert_eq!(too_big.message, "file exceeds the text limit of 10 bytes");
    assert!(check_text_size("ok", 10, 10).is_ok());
    assert!(check_regular_files(true, false).is_err());
    let options = FileCompareOptions { text_size_limit: 4, ..FileCompareOptions::default() };
    assert_eq!(size_verdict(5, 1, &options, false).unwrap().kind, FileDiffKind::TooLarge);
    assert!(size_verdict(4, 4, &options, true).is_none());
    assert_eq!(chunk_verdict(b"ab", b"ac"), ChunkVerdict::Different);
    assert_eq!(chunk_verdict(b"ab", b"ab"), ChunkVerdict::More);
    assert_eq!(chunk_verdict(b"", b""), ChunkVerdict::Same);
    assert_eq!(effective_buffer_size(0), 1);
    let binary = file_diff_from_bytes("l", b"a\0", "r", b"a\0", true, &FileCompareOptions::default());
    assert_eq!(binary.kind, FileDiffKind::Binary);
    assert!(binary.equal);
    let text = file_diff_from_bytes("l", b"one\n", "r", b"two\n", false, &FileCompareOptions::default());
    assert_eq!(text.kind, FileDiffKind::Text);
    assert!(!text.equal);
    assert_eq!(text.text.unwrap().hunks.len(), 1);
}

#[test]
fn paths_order_by_components() {
    let a = vec![b"a".to_vec(), b"z".to_vec()];
    let b = vec![b"b".to_vec()];
    let a_dash = vec![b"a-b".to_vec()];
    let a_only = vec![b"a".to_vec()];
    assert_eq!(order_paths(&a, &b), Order::Less);
    assert_eq!(order_paths(&a_only, &a), Order::Less);
    assert_eq!(order_paths(&a, &a_dash), Order::Less);
    assert_eq!(order_paths(&b, &b), Order::Equal);
}

#[test]
fn directory_walk_and_comparison_classify_entries() {
    let options = DirectoryCompareOptions::default();
    let mut left = DirectoryWalk::new();
    let root = left.next_directory(&options).unwrap();
    left.child(&root, b"same.txt".to_vec(), Ok(DirectoryEntryKind::File));
    left.child(&root, b"only-left".to_vec(), Ok(DirectoryEntryKind::File));
    left.child(&root, b"kind".to_vec(), Ok(DirectoryEntryKind::Directory));
    let sub = left.next_directory(&options).unwrap();
    assert_eq!(sub, vec![b"kind".to_vec()]);
    assert!(left.next_directory(&options).is_none());
    let mut right = DirectoryWalk::new();
    let root = right.next_directory(&options).unwrap();
    right.child(&root, b"same.txt".to_vec(), Ok(DirectoryEntryKind::File));
    right.child(&root, b"kind".to_vec(), Ok(DirectoryEntryKind::File));
    right.child(&root, b"only-right".to_vec(), Ok(DirectoryEntryKind::Symlink));
    let (left, right) = (left.finish(), right.finish());
    let mut comparison = DirectoryComparison::new(&left, &right);
    let mut finished = None;
    for _ in 0..10 {
        match comparison.advance(&options) {
            ComparisonStep::Finished(diff) => {
                finished = Some(diff);
                break;
            }
            ComparisonStep::CompareFiles(path) => {
                assert_eq!(path, vec![b"same.txt".to_vec()]);
                assert!(comparison.files_compared(Ok(Some(true))).is_none());
            }
            ComparisonStep::CompareLinks(_) => panic!("no pair of links here"),
        }
    }
    let diff = finished.unwrap();
    assert!(!diff.cancelled);
    let states: Vec<(Vec<Vec<u8>>, DirectoryEntryState)> =
        diff.entries.into_iter().map(|e| (e.relative_path, e.state)).collect();
    assert_eq!(
        states,
        vec![
            (vec![b"kind".to_vec()], DirectoryEntryState::TypeMismatch),
            (vec![b"only-left".to_vec()], DirectoryEntryState::LeftOnly),
            (vec![b"only-right".to_vec()], DirectoryEntryState::RightOnly),
            (vec![b"same.txt".to_vec()], DirectoryEntryState::Same),
        ]
    );
}

#[test]
fn unreadable_root_is_an_error_for_the_walk() {
    let mut walk = DirectoryWalk::new();
    let root = walk.next_directory(&DirectoryCompareOptions::default()).unwrap();
    let e = CompareError::io("/x", "denied");
    assert!(walk.unreadable(root, e).is_err());
}

#[test]
fn every_choice_renders_a_computed_merge() {
    let diff = compare_three_way_text("a\nb\nc\nd\n", "A\nb\nc\nD\n", "X\nb\nc\nY\n").unwrap();
    let choices = [None, Some(MergeChoice::Left), Some(MergeChoice::Right)];
    for first in choices {
        for second in choices {
            let text = versus::merge::render_three_way(&diff, &[first, second]);
            assert!(text.ends_with('\n'));
        }
    }
    assert_eq!(
        versus::merge::render_three_way(&diff, &[Some(MergeChoice::Left), Some(MergeChoice::Right)]),
        "A\nb\nc\nY\n"
    );
    assert_eq!(versus::merge::render_three_way(&diff, &[]), diff.merged);
}

#[test]
fn links_are_compared_by_target() {
    let options = DirectoryCompareOptions::default();
    let mut left = DirectoryWalk::new();
    let root = left.next_directory(&options).unwrap();
    left.child(&root, b"link".to_vec(), Ok(DirectoryEntryKind::Symlink));
    left.child(&root, b"moved".to_vec(), Ok(DirectoryEntryKind::Symlink));
    let mut right = DirectoryWalk::new();
    let root = right.next_directory(&options).unwrap();
    right.child(&root, b"link".to_vec(), Ok(DirectoryEntryKind::Symlink));
    right.child(&root, b"moved".to_vec(), Ok(DirectoryEntryKind::Symlink));
    let mut comparison = DirectoryComparison::new(&left.finish(), &right.finish());
    let target = vec![b"data".to_vec()];
    let mut seen = 0;
    let diff = loop {
        match comparison.advance(&options) {
            ComparisonStep::Finished(diff) => break diff,
            ComparisonStep::CompareLinks(path) => {
                seen += 1;
                let other = if path == vec![b"link".to_vec()] { target.clone() } else { vec![b"elsewhere".to_vec()] };
                comparison.links_read(Ok(target.clone()), Ok(other));
            }
            ComparisonStep::CompareFiles(_) => panic!("no pair of files here"),
        }
    };
    assert_eq!(seen, 2);
    assert_eq!(diff.entries[0].state, DirectoryEntryState::Same);
    assert_eq!(diff.entries[0].kind, DirectoryEntryKind::Symlink);
    assert_eq!(diff.entries[1].state, DirectoryEntryState::Different);
}

#[test]
fn a_stop_request_ends_the_comparison_with_the_entries_so_far() {
    let options = DirectoryCompareOptions::default();
    let mut left = DirectoryWalk::new();
    let root = left.next_directory(&options).unwrap();
    left.child(&root, b"a".to_vec(), Ok(DirectoryEntryKind::Directory));
    left.child(&root, b"b".to_vec(), Ok(DirectoryEntryKind::Other));
    let right = DirectoryWalk::new();
    let mut comparison = DirectoryComparison::new(&left.finish(), &right.finish());
    assert!(comparison.decide_next(false).is_none());
    match comparison.decide_next(true) {
        Some(ComparisonStep::Finished(diff)) => {
            assert!(diff.cancelled);
            assert_eq!(diff.entries.len(), 1);
            assert_eq!(diff.entries[0].state, DirectoryEntryState::LeftOnly);
        }
        _ => panic!("expected the comparison to stop"),
    }
}

#[test]
fn a_stop_request_ends_the_walk() {
    let mut walk = DirectoryWalk::new();
    assert!(walk.take_directory(true).is_none());
    assert!(walk.take_directory(false).is_none());
    let mut walk = DirectoryWalk::new();
    assert_eq!(walk.take_directory(false), Some(Vec::new()));
}

#[test]
fn reading_a_file_as_text_reports_each_failure() {
    assert_eq!(text_of_file("p", Ok(3), Ok(b"abc".to_vec()), 10).unwrap(), "abc");
    let io = text_of_file("p", Err("gone".to_owned()), Ok(Vec::new()), 10).unwrap_err();
    assert_eq!((io.kind, io.message.as_str(), io.path.as_deref()), (CompareErrorKind::Io, "gone", Some("p")));
    let big = text_of_file("p", Ok(11), Err("never read".to_owned()), 10).unwrap_err();
    assert_eq!(big.kind, CompareErrorKind::TooLarge);
    let unread = text_of_file("p", Ok(1), Err("denied".to_owned()), 10).unwrap_err();
    assert_eq!((unread.kind, unread.message.as_str()), (CompareErrorKind::Io, "denied"));
    assert_eq!(text_of_file("p", Ok(1), Ok(vec![0]), 10).unwrap_err().kind, CompareErrorKind::InvalidText);
}

#[test]
fn merging_files_reports_the_first_failing_file() {
    let ok = |s: &str| (Ok(s.len() as u64), Ok(s.as_bytes().to_vec()));
    let (bs, bb) = ok("a\n");
    let (ls, lb) = (Ok(2u64), Ok(vec![0xff, 0xfe]));
    let (rs, rb): (Result<u64, String>, Result<Vec<u8>, String>) = (Err("gone".to_owned()), Ok(Vec::new()));
    let e = compare_three_way_files("b", bs, bb, "l", ls, lb, "r", rs, rb, 10).unwrap_err();
    assert_eq!((e.kind, e.path.as_deref()), (CompareErrorKind::InvalidText, Some("l")));
    let (bs, bb) = ok("a\n");
    let (ls, lb) = ok("b\n");
    let (rs, rb) = ok("a\n");
    let d = compare_three_way_files("b", bs, bb, "l", ls, lb, "r", rs, rb, 10).unwrap();
    assert_eq!(d.merged, "b\n");
}

#[test]
fn comparing_files_follows_the_steps_in_order() {
    let o = FileCompareOptions { text_size_limit: 4, ..FileCompareOptions::default() };
    let none = || -> Result<Vec<u8>, String> { Ok(Vec::new()) };
    let e = compare_file_contents("l", Ok((false, 1)), "r", Ok((true, 1)), Ok(false), none(), none(), &o).unwrap_err();
    assert_eq!(e.kind, CompareErrorKind::InvalidPath);
    let f = compare_file_contents("l", Ok((true, 9)), "r", Ok((true, 1)), Ok(false), none(), none(), &o).unwrap();
    assert_eq!(f.kind, FileDiffKind::TooLarge);
    let f = compare_file_contents("l", Ok((true, 2)), "r", Ok((true, 2)), Ok(true), Ok(vec![0, 1]), Ok(vec![0, 1]), &o).unwrap();
    assert_eq!((f.kind, f.equal), (FileDiffKind::Binary, true));
    let f = compare_file_contents("l", Ok((true, 2)), "r", Ok((true, 2)), Ok(false), Ok(b"a\n".to_vec()), Ok(b"b\n".to_vec()), &o).unwrap();
    assert_eq!((f.kind, f.equal), (FileDiffKind::Text, false));
    let e = compare_file_contents("l", Err("gone".to_owned()), "r", Ok((true, 1)), Ok(false), none(), none(), &o).unwrap_err();
    assert_eq!((e.kind, e.path.as_deref()), (CompareErrorKind::Io, Some("l")));
}

#[test]
fn edits_are_separated_and_never_empty() {
    let base: Vec<String> = ["a", "b", "c", "d"].map(str::to_owned).to_vec();
    let side: Vec<String> = ["x", "b", "c", "y", "z"].map(str::to_owned).to_vec();
    let es = versus::merge::edits(&base, &side);
    assert_eq!(es.len(), 2);
    assert!(es[0].range.end < es[1].range.start);
    for e in &es {
        assert!(e.range.start < e.range.end || !e.replacement.is_empty());
    }
}
