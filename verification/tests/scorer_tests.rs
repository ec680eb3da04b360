use patchpal::scorer::{logprob, logprob_diff, lowest_logprob_position, TokenEntry, TopEntry};
use patchpal::strutil::{parse_usize, split_lines, trim};

const START: &str = "PATCHED CODE:";
const END: &str = "END PATCHED CODE";

fn entry(token: &str, lp_millionths: i64) -> TokenEntry {
    TokenEntry { token: token.to_string(), logprob: lp_millionths, top_logprobs: vec![] }
}

fn scaled(units: f64) -> i64 {
    (units * 1_000_000.0) as i64
}

#[test]
fn test_logprob_with_logprobs() {
    let trace = vec![
        entry(&format!("{}\n", START), scaled(0.0)),
        entry("2", scaled(-1.0)),
        entry(" ", scaled(-2.0)),
        entry(END, scaled(-3.0)),
    ];
    let mut perplexity = Vec::<String>::new();
    let prob = logprob(&trace, START, END, &mut perplexity);
    assert!(prob.is_some());
    assert!(
        prob.unwrap() == scaled(-2.0),
        "wrong prob: {} expected -2.0",
        prob.unwrap() as f64 / 1_000_000.0
    );
    assert!(perplexity.is_empty());
}

#[test]
fn test_logprob_no_logprobs() {
    // a response that carried no log-probability trace at all
    let trace: Vec<TokenEntry> = Vec::new();
    let mut perplexity = Vec::<String>::new();
    let prob = logprob(&trace, START, END, &mut perplexity);
    assert!(prob.is_none());
}

#[test]
fn test_logprob_empty_logprobs() {
    // a trace whose content list is present but empty
    let trace: Vec<TokenEntry> = vec![];
    let mut perplexity = Vec::<String>::new();
    let prob = logprob(&trace, START, END, &mut perplexity);
    assert!(prob.is_none());
}

#[test]
fn missing_sentinel_yields_no_confidence() {
    let trace = vec![entry("just text", scaled(-1.0))];
    let mut perplexity = Vec::<String>::new();
    assert!(logprob(&trace, START, END, &mut perplexity).is_none());
}

#[test]
fn perplexity_beam_substitutes_the_alternative() {
    let trace = vec![
        entry(&format!("{}\n", START), scaled(0.0)),
        TokenEntry {
            token: "alpha".to_string(),
            logprob: scaled(-1.0),
            top_logprobs: vec![
                TopEntry { token: "alpha".to_string(), logprob: scaled(-1.0) },
                TopEntry { token: "beta".to_string(), logprob: scaled(-1.5) },
            ],
        },
        entry("\n", scaled(-0.5)),
        entry(END, scaled(0.0)),
    ];
    let mut perplexity = Vec::<String>::new();
    let prob = logprob(&trace, START, END, &mut perplexity);
    assert_eq!(prob, Some(scaled(-1.0)));
    assert_eq!(perplexity.len(), 1);
    assert_eq!(perplexity[0], format!("{}\nbeta", START));
}

#[test]
fn lowest_position_ignores_final_empty_token() {
    let trace = vec![entry("a", scaled(-1.0)), entry("b", scaled(-5.0)), entry("", scaled(-9.0))];
    assert_eq!(lowest_logprob_position(&trace), Some(1));
    let empty: Vec<TokenEntry> = Vec::new();
    assert_eq!(lowest_logprob_position(&empty), None);
}

#[test]
fn logprob_diff_splits_the_trace_text() {
    let trace = vec![entry("ab", 0), entry("cd", 0), entry("ef", 0)];
    let (before, after) = logprob_diff(&trace, 1);
    assert_eq!(before, "ab");
    assert_eq!(after, "cdef");
}

#[test]
fn split_lines_keeps_terminators() {
    let lines = split_lines("a\nb\nc");
    assert_eq!(lines, vec!["a\n".to_string(), "b\n".to_string(), "c".to_string()]);
    assert_eq!(split_lines(""), Vec::<String>::new());
}

#[test]
fn trim_strips_both_ends() {
    assert_eq!(trim("  x y \n"), "x y");
    assert_eq!(trim("\t\n "), "");
}

#[test]
fn parse_usize_accepts_plain_decimals() {
    assert_eq!(parse_usize("12"), Some(12));
    assert_eq!(parse_usize("+7"), Some(7));
    assert_eq!(parse_usize(""), None);
    assert_eq!(parse_usize("12x"), None);
    assert_eq!(parse_usize("99999999999999999999999999"), None);
}
