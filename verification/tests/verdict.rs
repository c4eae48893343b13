use abnf_oracle::verdict::{decide, dir_exit_code, Verdict};
use abnf_oracle::{Grammar, MatchOptions};

#[test]
fn an_error_anywhere_dominates_a_rejection() {
    let v = vec![Verdict::Accept, Verdict::Reject, Verdict::Error("x".to_string())];
    assert_eq!(dir_exit_code(&v), 2);
    let v = vec![Verdict::Error("x".to_string()), Verdict::Accept];
    assert_eq!(dir_exit_code(&v), 2);
}

#[test]
fn a_rejection_without_errors_exits_one() {
    let v = vec![Verdict::Accept, Verdict::Reject, Verdict::Accept];
    assert_eq!(dir_exit_code(&v), 1);
}

#[test]
fn all_accepted_exits_zero() {
    assert_eq!(dir_exit_code(&vec![Verdict::Accept, Verdict::Accept]), 0);
    assert_eq!(dir_exit_code(&Vec::new()), 0);
}

#[test]
fn decide_answers_per_text_and_labels_the_verdict() {
    let g = Grammar::parse("start = \"ab\" / \"c\"\r\n").expect("parses").check().expect("checks");
    let o = MatchOptions::default();
    assert_eq!(decide(&g, "start", "ab", o).label(), "ACCEPT");
    assert_eq!(decide(&g, "start", "abc", o).label(), "REJECT");
    assert_eq!(decide(&g, "nope", "ab", o).label(), "ERROR unknown rule `nope`");
    let g = Grammar::parse("start = *\"a\"\r\n").expect("parses").check().expect("checks");
    let tight = MatchOptions { max_steps: Some(2), max_depth: Some(512) };
    assert_eq!(decide(&g, "start", "aaaa", tight).label(), "ERROR step limit exceeded");
}
