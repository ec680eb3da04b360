use patchpal::strutil::{join_all, split_lines};
use patchpal::types::{ContextLines, GitUtils, ResolvedConflict};

fn engine() -> GitUtils {
    GitUtils::new(ContextLines {
        code_context_lines: 3,
        diff_context_lines: 3,
        patch_context_lines: 3,
    })
}

fn two_conflict_content() -> String {
    [
        "a1\n",
        "<<<<<<< H\n",
        "x\n",
        "||||||| B\n",
        "y\n",
        "=======\n",
        "z\n",
        ">>>>>>> T\n",
        "mid\n",
        "<<<<<<< H\n",
        "x2\n",
        "||||||| B\n",
        "y2\n",
        "=======\n",
        "z2\n",
        ">>>>>>> T\n",
        "b1\n",
    ]
    .concat()
}

#[test]
fn annotate_then_reparse_recovers_sections() {
    let gu = engine();
    let content = [
        "head\n",
        "<<<<<<< HEAD\n",
        "ours\n",
        "||||||| base\n",
        "common\n",
        "=======\n",
        "theirs\n",
        ">>>>>>> branch\n",
        "tail\n",
    ]
    .concat();
    let conflicts = gu.parse_conflicts_in_text(&content, "a.txt", 7).unwrap();
    assert_eq!(conflicts.len(), 1);
    let cands = vec![ResolvedConflict {
        conflict: conflicts[0].clone(),
        resolved_version: "merged line\n".to_string(),
        model: "gpt".to_string(),
        duration: 1,
        total_tokens: None,
        logprob: None,
        endpoint: 0,
        deduplicated_conflicts: vec![],
    }];
    let ranked = GitUtils::deduplicate_conflicts(&cands).unwrap();
    let labels = vec!["patchpal: gpt 12.5%".to_string()];
    let mut lines = split_lines(&content);
    let applied = gu.apply_resolved_conflicts(&mut lines, "a.txt", &ranked, &labels);
    assert_eq!(applied, 1);
    let updated = join_all(&lines);
    assert!(updated.contains("&&&&&&& patchpal: gpt 12.5%\nmerged line\n>>>>>>> branch\n"));

    // markers were preserved: re-parsing recovers the original sections
    let again = gu.parse_conflicts_in_text(&updated, "a.txt", 7).unwrap();
    assert_eq!(again.len(), 1);
    assert_eq!(again[0].local, "ours\n");
    assert_eq!(again[0].base, "common\n");
    assert_eq!(again[0].remote, "theirs\n");
    // plus one new resolution-marker block before the end marker
    assert_eq!(again[0].remote_end, conflicts[0].remote_end + 2);
}

#[test]
fn annotate_skips_when_marker_moved() {
    let gu = engine();
    let content = two_conflict_content();
    let conflicts = gu.parse_conflicts_in_text(&content, "a.txt", 7).unwrap();
    let mut shifted = conflicts[0].clone();
    shifted.start_line = 1;  // now points at a plain line
    let ranked = vec![ResolvedConflict {
        conflict: shifted,
        resolved_version: "r\n".to_string(),
        model: "m".to_string(),
        duration: 1,
        total_tokens: None,
        logprob: None,
        endpoint: 0,
        deduplicated_conflicts: vec![],
    }];
    let labels = vec!["patchpal: m".to_string()];
    let mut lines = split_lines(&content);
    let applied = gu.apply_resolved_conflicts(&mut lines, "a.txt", &ranked, &labels);
    assert_eq!(applied, 0);
    assert_eq!(join_all(&lines), content);
}

#[test]
fn annotating_twice_stacks_resolution_blocks() {
    let gu = engine();
    let content = [
        "<<<<<<< HEAD\n",
        "ours\n",
        "||||||| base\n",
        "common\n",
        "=======\n",
        "theirs\n",
        ">>>>>>> branch\n",
    ]
    .concat();
    let conflicts = gu.parse_conflicts_in_text(&content, "a.txt", 7).unwrap();
    let rc = |text: &str, model: &str| ResolvedConflict {
        conflict: conflicts[0].clone(),
        resolved_version: text.to_string(),
        model: model.to_string(),
        duration: 1,
        total_tokens: None,
        logprob: None,
        endpoint: 0,
        deduplicated_conflicts: vec![],
    };
    let mut lines = split_lines(&content);
    let first = GitUtils::deduplicate_conflicts(&vec![rc("r1\n", "m1")]).unwrap();
    assert_eq!(gu.apply_resolved_conflicts(&mut lines, "a.txt", &first, &vec!["patchpal: m1".to_string()]), 1);
    // the anchor line now holds the first attribution; a second pass still
    // passes the marker check and inserts before it
    let second = GitUtils::deduplicate_conflicts(&vec![rc("r2\n", "m2")]).unwrap();
    assert_eq!(gu.apply_resolved_conflicts(&mut lines, "a.txt", &second, &vec!["patchpal: m2".to_string()]), 1);
    let updated = join_all(&lines);
    assert!(updated.contains("&&&&&&& patchpal: m2\nr2\n&&&&&&& patchpal: m1\nr1\n>>>>>>> branch\n"));
}

#[test]
fn collapse_normalizes_carriage_returns() {
    let gu = engine();
    let content = [
        "<<<<<<< H\n",
        "x\n",
        "||||||| B\n",
        "y\n",
        "=======\n",
        "z\n",
        ">>>>>>> T\n",
    ]
    .concat();
    let conflicts = gu.parse_conflicts_in_text(&content, "a.txt", 7).unwrap();
    let cands = vec![ResolvedConflict {
        conflict: conflicts[0].clone(),
        resolved_version: "one\r\ntwo".to_string(),
        model: "m".to_string(),
        duration: 1,
        total_tokens: None,
        logprob: None,
        endpoint: 0,
        deduplicated_conflicts: vec![],
    }];
    let ranked = GitUtils::deduplicate_conflicts(&cands).unwrap();
    let mut lines = split_lines(&content);
    let unresolved = gu.apply_vibe_resolution(&mut lines, &conflicts, &ranked);
    assert!(!unresolved);
    assert_eq!(join_all(&lines), "one\ntwo\n");
}

#[test]
fn collapse_with_one_unresolved_conflict_flags_the_run() {
    let gu = engine();
    let content = two_conflict_content();
    let conflicts = gu.parse_conflicts_in_text(&content, "a.txt", 7).unwrap();
    assert_eq!(conflicts.len(), 2);
    let cands = vec![ResolvedConflict {
        conflict: conflicts[0].clone(),
        resolved_version: "fixed\n".to_string(),
        model: "m".to_string(),
        duration: 1,
        total_tokens: None,
        logprob: None,
        endpoint: 0,
        deduplicated_conflicts: vec![],
    }];
    let ranked = GitUtils::deduplicate_conflicts(&cands).unwrap();
    let mut lines = split_lines(&content);
    let unresolved = gu.apply_vibe_resolution(&mut lines, &conflicts, &ranked);
    assert!(unresolved);
    let updated = join_all(&lines);
    let expected = [
        "a1\n",
        "fixed\n",
        "mid\n",
        "<<<<<<< H\n",
        "x2\n",
        "||||||| B\n",
        "y2\n",
        "=======\n",
        "z2\n",
        ">>>>>>> T\n",
        "b1\n",
    ]
    .concat();
    assert_eq!(updated, expected);
}

#[test]
fn collapse_resolving_all_conflicts_clears_the_flag() {
    let gu = engine();
    let content = two_conflict_content();
    let conflicts = gu.parse_conflicts_in_text(&content, "a.txt", 7).unwrap();
    let mk = |i: usize, text: &str| ResolvedConflict {
        conflict: conflicts[i].clone(),
        resolved_version: text.to_string(),
        model: "m".to_string(),
        duration: 1,
        total_tokens: None,
        logprob: None,
        endpoint: 0,
        deduplicated_conflicts: vec![],
    };
    let ranked = GitUtils::deduplicate_conflicts(&vec![mk(0, "one\n"), mk(1, "two\n")]).unwrap();
    let mut lines = split_lines(&content);
    let unresolved = gu.apply_vibe_resolution(&mut lines, &conflicts, &ranked);
    assert!(!unresolved);
    assert_eq!(join_all(&lines), "a1\none\nmid\ntwo\nb1\n");
}
