use patchpal::types::{Conflict, GitUtils, ResolveError, ResolvedConflict};

fn mk_conflict(path: &str, line: usize) -> Conflict {
    Conflict {
        file_path: path.to_string(),
        local: "ours\n".to_string(),
        base: "base\n".to_string(),
        remote: "theirs\n".to_string(),
        head_context: String::new(),
        tail_context: String::new(),
        start_line: line,
        remote_end: 6,
        nr_head_context_lines: 0,
        nr_tail_context_lines: 0,
        marker_size: 7,
    }
}

fn mk_candidate(
    path: &str,
    line: usize,
    resolved: &str,
    model: &str,
    duration: u64,
    total_tokens: Option<u64>,
    logprob: Option<i64>,
    endpoint: usize,
) -> ResolvedConflict {
    ResolvedConflict {
        conflict: mk_conflict(path, line),
        resolved_version: resolved.to_string(),
        model: model.to_string(),
        duration,
        total_tokens,
        logprob,
        endpoint,
        deduplicated_conflicts: vec![],
    }
}

#[test]
fn combine_model_names_merges_suffixes() {
    let models = vec!["m (a)".to_string(), "m (b)".to_string()];
    assert_eq!(GitUtils::combine_model_names(&models).unwrap(), "m (a|b)");
}

#[test]
fn combine_model_names_rejects_duplicate_plain_name() {
    let models = vec!["m".to_string(), "m".to_string()];
    assert!(matches!(
        GitUtils::combine_model_names(&models),
        Err(ResolveError::DuplicateSuffix)
    ));
}

#[test]
fn combine_model_names_rejects_duplicate_suffix() {
    let models = vec!["m (a)".to_string(), "m (a)".to_string()];
    assert!(matches!(
        GitUtils::combine_model_names(&models),
        Err(ResolveError::DuplicateSuffix)
    ));
}

#[test]
fn combine_model_names_admits_plain_beside_suffixed() {
    // a plain identity carries the empty suffix: distinct from "a", so the
    // group is admitted — in either arrival order
    let models = vec!["m (a)".to_string(), "m".to_string()];
    assert_eq!(GitUtils::combine_model_names(&models).unwrap(), "m (a|)");
    let reversed = vec!["m".to_string(), "m (a)".to_string()];
    assert_eq!(GitUtils::combine_model_names(&reversed).unwrap(), "m (|a)");
}

#[test]
fn combine_model_names_keeps_first_seen_prefix_order() {
    let models = vec!["n".to_string(), "m (a)".to_string(), "m (b)".to_string()];
    assert_eq!(GitUtils::combine_model_names(&models).unwrap(), "n, m (a|b)");
}

#[test]
fn dedup_merges_metadata() {
    let cands = vec![
        mk_candidate("f", 10, "A", "m1", 5, Some(10), Some(-1_000_000), 4),
        mk_candidate("f", 10, "A", "m2", 9, Some(20), None, 2),
        mk_candidate("f", 10, "A", "m3", 7, None, Some(-3_000_000), 8),
    ];
    let out = GitUtils::deduplicate_conflicts(&cands).unwrap();
    assert_eq!(out.len(), 1);
    let g = &out[0];
    assert_eq!(g.resolved_version, "A");
    assert_eq!(g.model, "m1, m2, m3");
    assert_eq!(g.duration, 9);
    assert_eq!(g.total_tokens, Some(15));
    assert_eq!(g.logprob, Some(-2_000_000));
    assert_eq!(g.endpoint, 2);
    assert_eq!(g.deduplicated_conflicts.len(), 3);
}

#[test]
fn dedup_reports_mismatched_conflicts() {
    let mut second = mk_candidate("f", 10, "A", "m2", 1, None, None, 1);
    second.conflict.local = "different\n".to_string();
    let cands = vec![mk_candidate("f", 10, "A", "m1", 1, None, None, 0), second];
    assert!(matches!(
        GitUtils::deduplicate_conflicts(&cands),
        Err(ResolveError::ConflictMismatch)
    ));
}

#[test]
fn ranking_puts_stronger_agreement_first() {
    let cands = vec![
        mk_candidate("f", 10, "B", "solo", 1, None, None, 1),
        mk_candidate("f", 10, "A", "m1", 1, None, None, 5),
        mk_candidate("f", 10, "A", "m2", 1, None, None, 6),
        mk_candidate("f", 10, "A", "m3", 1, None, None, 7),
    ];
    let out = GitUtils::deduplicate_conflicts(&cands).unwrap();
    assert_eq!(out.len(), 2);
    assert_eq!(out[0].resolved_version, "A");
    assert_eq!(out[0].deduplicated_conflicts.len(), 3);
    assert_eq!(out[1].resolved_version, "B");

    // the same groups in the opposite arrival order rank the same way
    let reversed = vec![
        mk_candidate("f", 10, "A", "m3", 1, None, None, 7),
        mk_candidate("f", 10, "A", "m2", 1, None, None, 6),
        mk_candidate("f", 10, "A", "m1", 1, None, None, 5),
        mk_candidate("f", 10, "B", "solo", 1, None, None, 1),
    ];
    let out2 = GitUtils::deduplicate_conflicts(&reversed).unwrap();
    assert_eq!(out2[0].resolved_version, "A");
    assert_eq!(out2[0].deduplicated_conflicts.len(), 3);
    assert_eq!(out2[1].resolved_version, "B");
}

#[test]
fn ranking_orders_by_file_then_line_then_endpoint() {
    let cands = vec![
        mk_candidate("zz", 5, "X", "m1", 1, None, None, 0),
        mk_candidate("aa", 9, "Y", "m2", 1, None, None, 0),
        mk_candidate("aa", 2, "Z", "m3", 1, None, None, 3),
        mk_candidate("aa", 2, "W", "m4", 1, None, None, 1),
    ];
    let out = GitUtils::deduplicate_conflicts(&cands).unwrap();
    assert_eq!(out.len(), 4);
    assert_eq!(out[0].resolved_version, "W");
    assert_eq!(out[1].resolved_version, "Z");
    assert_eq!(out[2].resolved_version, "Y");
    assert_eq!(out[3].resolved_version, "X");
}

#[test]
fn dedup_is_idempotent_on_its_own_output() {
    let cands = vec![
        mk_candidate("f", 10, "A", "gpt (a)", 5, Some(10), Some(-2_000_000), 4),
        mk_candidate("f", 10, "A", "gpt (b)", 9, Some(20), Some(-4_000_000), 2),
        mk_candidate("f", 30, "B", "solo", 3, None, None, 1),
    ];
    let once = GitUtils::deduplicate_conflicts(&cands).unwrap();
    let twice = GitUtils::deduplicate_conflicts(&once).unwrap();
    assert_eq!(once.len(), twice.len());
    for a in &once {
        let b = twice
            .iter()
            .find(|b| b.resolved_version == a.resolved_version)
            .expect("every group survives a second pass");
        assert_eq!(b.conflict.file_path, a.conflict.file_path);
        assert_eq!(b.conflict.start_line, a.conflict.start_line);
        assert_eq!(b.model, a.model);
        assert_eq!(b.duration, a.duration);
        assert_eq!(b.total_tokens, a.total_tokens);
        assert_eq!(b.logprob, a.logprob);
        assert_eq!(b.endpoint, a.endpoint);
    }
    assert_eq!(once[0].model, "gpt (a|b)");
}
