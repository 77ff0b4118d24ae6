use versus::compare::{compare_texts, FileCompareOptions};
use versus::merge::{compare_three_texts, render_three_way, MergeChoice, MergeHunkKind};

#[test]
fn text_comparison_handles_bom_line_endings_and_whitespace_options() {
    let options = FileCompareOptions::default();
    let same = compare_texts("\u{feff}one\r\ntwo\r\n", "one\ntwo\n", &options);
    assert!(same.hunks.is_empty());
    let different = compare_texts("one value\n", "one   value\n", &options);
    assert_eq!(different.hunks.len(), 1);
    let ignoring = compare_texts(
        "one value\n",
        "one   value\n",
        &FileCompareOptions {
            ignore_whitespace: true,
            ..options
        },
    );
    assert!(ignoring.hunks.is_empty());
}

#[test]
fn three_way_merge_marks_conflicts_and_applies_choices() {
    let options = FileCompareOptions::default();
    let diff = compare_three_texts("one\ntwo\n", "one\nleft\n", "one\nright\n", &options).unwrap();
    assert_eq!(diff.hunks[0].kind, MergeHunkKind::Conflict);
    assert!(diff.merged.contains("<<<<<<< LEFT"));
    assert_eq!(
        render_three_way(&diff, &[Some(MergeChoice::Right)]),
        "one\nright\n"
    );
    let same = compare_three_texts("a\n", "b\n", "b\n", &options).unwrap();
    assert_eq!(same.hunks[0].kind, MergeHunkKind::Identical);
}

#[test]
fn three_way_merge_preserves_prepend_middle_and_append_insert_positions() {
    let options = FileCompareOptions::default();
    for (left, expected) in [
        ("start\na\nb\n", "start\na\nb\n"),
        ("a\nmiddle\nb\n", "a\nmiddle\nb\n"),
        ("a\nb\nend\n", "a\nb\nend\n"),
    ] {
        let diff = compare_three_texts("a\nb\n", left, "a\nb\n", &options).unwrap();
        assert_eq!(diff.hunks[0].kind, MergeHunkKind::LeftOnly);
        assert_eq!(diff.merged, expected);
    }
}

#[test]
fn adjacent_merge_edits_do_not_conflict() {
    let options = FileCompareOptions::default();
    let diff = compare_three_texts("a\nb\n", "left\nb\n", "a\nright\n", &options).unwrap();
    assert!(
        diff.hunks
            .iter()
            .all(|hunk| hunk.kind != MergeHunkKind::Conflict)
    );
    assert_eq!(diff.merged, "left\nright\n");
}

#[test]
fn same_anchor_insertion_and_replacement_are_conflicts_without_panicking() {
    let options = FileCompareOptions::default();
    for (left, right) in [
        ("left\nb\n", "insert\na\nb\n"),
        ("insert\na\nb\n", "right\nb\n"),
    ] {
        let diff = compare_three_texts("a\nb\n", left, right, &options).unwrap();
        assert!(
            diff.hunks
                .iter()
                .any(|hunk| hunk.kind == MergeHunkKind::Conflict)
        );
    }
}

#[test]
fn small_three_way_inputs_never_panic_and_unchanged_side_uses_changed_text() {
    let options = FileCompareOptions::default();
    let inputs = ["", "a\n", "b\n", "a\na\n", "a\nb\n", "b\na\n", "b\nb\n"];
    for base in inputs {
        for changed in inputs {
            let diff = compare_three_texts(base, changed, base, &options).unwrap();
            assert_eq!(diff.merged, changed, "base={base:?}, changed={changed:?}");
        }
    }
}
