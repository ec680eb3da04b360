use patchpal::types::{ContextLines, FileInput, GitUtils, ResolveError};

fn engine(ctx: u32) -> GitUtils {
    GitUtils::new(ContextLines {
        code_context_lines: ctx,
        diff_context_lines: 3,
        patch_context_lines: 3,
    })
}

fn one_conflict_content() -> String {
    [
        "head1\n",
        "<<<<<<< HEAD\n",
        "ours line\n",
        "||||||| base\n",
        "base line\n",
        "=======\n",
        "theirs line\n",
        ">>>>>>> branch\n",
        "tail1\n",
    ]
    .concat()
}

#[test]
fn parse_recovers_sections_default_width() {
    let gu = engine(3);
    let content = one_conflict_content();
    let conflicts = gu.parse_conflicts_in_text(&content, "a.txt", 7).unwrap();
    assert_eq!(conflicts.len(), 1);
    let c = &conflicts[0];
    assert_eq!(c.file_path, "a.txt");
    assert_eq!(c.local, "ours line\n");
    assert_eq!(c.base, "base line\n");
    assert_eq!(c.remote, "theirs line\n");
    assert_eq!(c.start_line, 2);
    assert_eq!(c.remote_end, 6);
    assert_eq!(c.head_context, "head1\n");
    assert_eq!(c.tail_context, "tail1\n");
    assert_eq!(c.nr_head_context_lines, 1);
    assert_eq!(c.nr_tail_context_lines, 1);
    assert_eq!(c.marker_size, 7);
}

#[test]
fn parse_recovers_sections_width_three() {
    let gu = engine(3);
    let content = ["<<< a\n", "l1\n", "l2\n", "||| b\n", "b1\n", "===\n", "r1\n", ">>> c\n"]
        .concat();
    let conflicts = gu.parse_conflicts_in_text(&content, "w3.txt", 3).unwrap();
    assert_eq!(conflicts.len(), 1);
    let c = &conflicts[0];
    assert_eq!(c.local, "l1\nl2\n");
    assert_eq!(c.base, "b1\n");
    assert_eq!(c.remote, "r1\n");
    assert_eq!(c.start_line, 1);
    assert_eq!(c.marker_size, 3);
}

#[test]
fn nested_marker_is_corruption() {
    let gu = engine(3);
    let content = [
        "<<<<<<< HEAD\n",
        "<<<<<<<<\n",
        "||||||| base\n",
        "b\n",
        "=======\n",
        "r\n",
        ">>>>>>> branch\n",
    ]
    .concat();
    let r = gu.parse_conflicts_in_text(&content, "a.txt", 7);
    assert!(matches!(r, Err(ResolveError::NestedMarkers)));
}

#[test]
fn missing_base_marker_is_reported() {
    let gu = engine(3);
    let region = ["<<<<<<< H\n", "=======\n", "theirs\n", ">>>>>>> T\n"].concat();
    let r = gu.parse_conflict_text(&region, &region, 1, "a.txt", 7);
    assert!(matches!(r, Err(ResolveError::MissingBaseMarker)));
}

#[test]
fn marker_order_violation_is_reported() {
    let gu = engine(3);
    // an end-marker line stands before the separator
    let region = ["<<<<<<< H\n", ">>>>>>> X\n", "||||||| B\n", "=======\n", ">>>>>>> T\n"]
        .concat();
    let r = gu.parse_conflict_text(&region, &region, 1, "a.txt", 7);
    match r {
        Err(ResolveError::InvalidMarkerOrder { local_start, base_start, remote_start, remote_end, .. }) => {
            assert_eq!(local_start, 0);
            assert_eq!(base_start, 2);
            assert_eq!(remote_start, 3);
            assert_eq!(remote_end, 1);
        },
        _ => panic!("expected an ordering error"),
    }
}

#[test]
fn head_context_never_crosses_earlier_conflict() {
    let gu = engine(5);
    let content = [
        "a1\n",
        "<<<<<<< H\n",
        "x\n",
        "||||||| B\n",
        "y\n",
        "=======\n",
        "z\n",
        ">>>>>>> T\n",
        "mid1\n",
        "mid2\n",
        "<<<<<<< H\n",
        "x2\n",
        "||||||| B\n",
        "y2\n",
        "=======\n",
        "z2\n",
        ">>>>>>> T\n",
        "b1\n",
    ]
    .concat();
    let conflicts = gu.parse_conflicts_in_text(&content, "two.txt", 7).unwrap();
    assert_eq!(conflicts.len(), 2);
    let second = &conflicts[1];
    // the window holds only the two middle lines, never the first conflict
    assert_eq!(second.head_context, "mid1\nmid2\n");
    assert_eq!(second.nr_head_context_lines, 2);
    let first = &conflicts[0];
    // and the first conflict's tail stops at the second's local marker
    assert_eq!(first.tail_context, "mid1\nmid2\n");
    assert_eq!(first.nr_tail_context_lines, 2);
}

#[test]
fn no_markers_yield_no_conflicts() {
    let gu = engine(3);
    let r = gu.parse_conflicts_in_text("plain text\nwithout markers\n", "a.txt", 7).unwrap();
    assert_eq!(r.len(), 0);
}

#[test]
fn find_conflicts_walks_files_in_order() {
    let gu = engine(3);
    let files = vec![
        FileInput { path: "one.txt".to_string(), content: one_conflict_content(), marker_size: 7 },
        FileInput { path: "two.txt".to_string(), content: "nothing here\n".to_string(), marker_size: 7 },
        FileInput { path: "three.txt".to_string(), content: one_conflict_content(), marker_size: 7 },
    ];
    let conflicts = gu.find_conflicts(&files).unwrap();
    assert_eq!(conflicts.len(), 2);
    assert_eq!(conflicts[0].file_path, "one.txt");
    assert_eq!(conflicts[1].file_path, "three.txt");
}

#[test]
fn marker_builders_repeat_the_character() {
    assert_eq!(GitUtils::create_local_marker(7), "<<<<<<<");
    assert_eq!(GitUtils::create_base_marker(3), "|||");
    assert_eq!(GitUtils::create_remote_marker(4), "====");
    assert_eq!(GitUtils::create_ai_marker(7), "&&&&&&&");
    assert_eq!(GitUtils::create_end_marker(2), ">>");
    assert_eq!(GitUtils::create_marker('<', 0), "");
}

#[test]
fn marker_size_read_from_attribute_output() {
    let gu = engine(3);
    assert_eq!(gu.get_marker_size_for_file("a.txt", "a.txt: conflict-marker-size: 11\n"), 11);
    assert_eq!(gu.get_marker_size_for_file("a.txt", "a.txt: conflict-marker-size: unspecified\n"), 7);
    assert_eq!(gu.get_marker_size_for_file("a.txt", "other.txt: conflict-marker-size: 11\n"), 7);
    assert_eq!(gu.get_marker_size_for_file("a.txt", ""), 7);
    assert_eq!(
        gu.get_marker_size_for_file(
            "a.txt",
            "noise\na.txt: conflict-marker-size: unset\na.txt: conflict-marker-size: 9\n",
        ),
        9,
    );
}

#[test]
fn check_diff3_accepts_only_diff3() {
    let gu = engine(3);
    assert!(gu.check_diff3("diff3\n").is_ok());
    assert!(gu.check_diff3("  diff3  ").is_ok());
    assert!(matches!(gu.check_diff3("merge\n"), Err(ResolveError::NotDiff3)));
    assert!(matches!(gu.check_diff3(""), Err(ResolveError::NotDiff3)));
}

#[test]
fn extract_diff_keeps_patch_lines() {
    let gu = engine(3);
    let show = [
        "diff --git a/f b/f\n",
        "index 123..456 100644\n",
        "--- a/f\n",
        "+++ b/f\n",
        "@@ -1 +1 @@\n",
        "-old\n",
        "+new\n",
    ]
    .concat();
    let r = gu.extract_diff(&show);
    assert_eq!(r, ["diff --git a/f b/f\n", "--- a/f\n", "+++ b/f\n", "@@ -1 +1 @@\n", "-old\n", "+new\n"].concat());
}
