use std::collections::BTreeSet;

use abnf_oracle::{CheckedGrammar, Grammar, MatchError, MatchOptions, Recognizer};

fn checked(source: &str) -> CheckedGrammar {
    Grammar::parse(source)
        .unwrap_or_else(|e| panic!("{source:?}: {e:?}"))
        .check()
        .unwrap_or_else(|e| panic!("{source:?}: {e:?}"))
}

/// Whether `input` matches `start`, asserted to be independent of the memo table.
fn matches(source: &str, input: &str) -> bool {
    let grammar = checked(source);
    let with = Recognizer::new(&grammar, input)
        .accepts("start")
        .expect("recognizes");
    let without = Recognizer::new(&grammar, input)
        .without_memoization()
        .accepts("start")
        .expect("recognizes");
    assert_eq!(
        with, without,
        "memoization changed the answer for {input:?}"
    );
    with
}

fn body_matches(elements: &str, input: &str) -> bool {
    matches(&format!("start = {elements}\r\n"), input)
}

#[test]
fn quoted_strings_fold_ascii_case_by_default() {
    assert!(body_matches("\"abc\"", "abc"));
    assert!(body_matches("\"abc\"", "ABC"));
    assert!(body_matches("\"abc\"", "AbC"));
    assert!(!body_matches("\"abc\"", "abd"));
    assert!(!body_matches("\"abc\"", "ab"));
    assert!(!body_matches("\"abc\"", "abcd"));
}

#[test]
fn case_sensitive_and_case_insensitive_strings_differ() {
    assert!(body_matches("%s\"aBc\"", "aBc"));
    assert!(!body_matches("%s\"aBc\"", "abc"), "%s is exact (RFC 7405)");
    assert!(body_matches("%i\"aBc\"", "abc"));
    assert!(body_matches("%i\"aBc\"", "ABC"));
}

#[test]
fn folding_never_reaches_beyond_ascii() {
    assert!(body_matches("\"i\"", "I"), "ASCII letters fold");
    assert!(body_matches("%xE9", "\u{e9}"));
    assert!(
        !body_matches("%xE9", "\u{c9}"),
        "a numeric value never folds"
    );
    assert!(
        Grammar::parse("start = \"\u{e9}\"\r\n").is_err(),
        "and a non-ASCII quoted string is not even writable"
    );
}

#[test]
fn the_empty_string_matches_nothing_at_all() {
    assert!(body_matches("\"\"", ""));
    assert!(!body_matches("\"\"", "a"));
}

#[test]
fn numeric_terminals() {
    assert!(body_matches("%x41", "A"));
    assert!(!body_matches("%x41", "a"), "a numeric value is exact");
    assert!(body_matches("%d65", "A"));
    assert!(body_matches("%b1000001", "A"));
}

#[test]
fn recognize_numeric_ranges_and_concatenations() {
    assert!(body_matches("%x41-5A", "Q"));
    assert!(!body_matches("%x41-5A", "q"));
    assert!(body_matches("%x41.42.43", "ABC"));
    assert!(!body_matches("%x41.42.43", "AB"));
}

#[test]
fn a_terminal_above_the_basic_plane_matches_its_scalar() {
    assert!(body_matches("%x1D11E", "\u{1D11E}"));
    assert!(body_matches("%x1D11E \"x\"", "\u{1D11E}x"));
}

#[test]
fn an_unrepresentable_terminal_simply_never_matches() {
    let grammar = checked("start = \"a\" / other\r\nother = \"b\"\r\n");
    let mut recognizer = Recognizer::new(&grammar, "a");
    assert!(recognizer.accepts("start").expect("recognizes"));
}

#[test]
fn alternation_is_unordered() {
    assert!(body_matches("\"a\" / \"ab\"", "a"));
    assert!(
        body_matches("\"a\" / \"ab\"", "ab"),
        "a PEG would have committed to the first branch and rejected this"
    );
}

#[test]
fn ambiguity_reports_every_ending() {
    let grammar = checked("start = *\"a\" *\"a\"\r\n");
    let mut recognizer = Recognizer::new(&grammar, "aaa");
    let ends = recognizer.end_positions("start", 0).expect("recognizes");
    assert_eq!(ends, BTreeSet::from([0, 1, 2, 3]));
    assert!(recognizer.accepts("start").expect("recognizes"));
}

#[test]
fn concatenation_needs_every_part() {
    assert!(body_matches("\"a\" \"b\"", "ab"));
    assert!(!body_matches("\"a\" \"b\"", "a"));
    assert!(!body_matches("\"a\" \"b\"", "ba"));
}

#[test]
fn grouping_binds_tighter_than_alternation() {
    assert!(body_matches("\"a\" (\"b\" / \"c\")", "ac"));
    assert!(!body_matches("\"a\" (\"b\" / \"c\")", "c"));
    assert!(
        body_matches("\"a\" \"b\" / \"c\"", "c"),
        "without the group, the alternation wins"
    );
}

#[test]
fn optionals_nest() {
    assert!(body_matches("[\"a\"]", ""));
    assert!(body_matches("[\"a\"]", "a"));
    assert!(body_matches("[\"a\" [\"b\"]]", ""));
    assert!(body_matches("[\"a\" [\"b\"]]", "a"));
    assert!(body_matches("[\"a\" [\"b\"]]", "ab"));
    assert!(
        !body_matches("[\"a\" [\"b\"]]", "b"),
        "the inner one needs the outer"
    );
}

#[test]
fn prose_is_refused_before_the_input_is_looked_at() {
    let grammar = checked("start = <anything>\r\n");
    let mut recognizer = Recognizer::new(&grammar, "");
    assert!(matches!(
        recognizer.accepts("start"),
        Err(MatchError::ProseValueReachable { .. })
    ));
}

#[test]
fn rule_references_are_followed() {
    assert!(matches(
        "start = middle \"!\"\r\nmiddle = \"hi\"\r\n",
        "hi!"
    ));
    assert!(!matches(
        "start = middle \"!\"\r\nmiddle = \"hi\"\r\n",
        "ho!"
    ));
}

#[test]
fn incremental_alternatives_are_matched_as_one_rule() {
    let source = "start = \"a\"\r\nstart =/ \"b\"\r\nstart =/ \"c\"\r\n";
    assert!(matches(source, "a"));
    assert!(matches(source, "b"));
    assert!(matches(source, "c"));
    assert!(!matches(source, "d"));
}

#[test]
fn recognize_core_rules_need_no_definition() {
    assert!(matches("start = 1*ALPHA\r\n", "abcXYZ"));
    assert!(!matches("start = 1*ALPHA\r\n", "abc1"));
    assert!(matches("start = 1*DIGIT\r\n", "2026"));
    assert!(matches("start = CRLF\r\n", "\r\n"));
    assert!(
        matches("start = 1*HEXDIG\r\n", "dEaDbEeF"),
        "HEXDIG folds case"
    );
}

#[test]
fn a_user_rule_shadows_a_core_rule_for_user_references_only() {
    let grammar = checked("start = DIGIT\r\nhex = HEXDIG\r\nDIGIT = \"x\"\r\n");

    assert!(
        Recognizer::new(&grammar, "x")
            .accepts("start")
            .expect("recognizes")
    );
    assert!(
        !Recognizer::new(&grammar, "7")
            .accepts("start")
            .expect("recognizes")
    );
    assert!(
        Recognizer::new(&grammar, "7")
            .accepts("hex")
            .expect("recognizes"),
        "core HEXDIG still reaches core DIGIT"
    );
    assert!(
        !Recognizer::new(&grammar, "x")
            .accepts("hex")
            .expect("recognizes")
    );
}

#[test]
fn recursion_through_a_consuming_prefix_terminates() {
    let source = "start = \"(\" start \")\" / \"x\"\r\n";
    assert!(matches(source, "x"));
    assert!(matches(source, "(x)"));
    assert!(matches(source, "(((x)))"));
    assert!(!matches(source, "((x)"));
}

#[test]
fn an_unknown_rule_is_an_error() {
    let grammar = checked("start = \"a\"\r\n");
    assert!(matches!(
        Recognizer::new(&grammar, "a").accepts("nope"),
        Err(MatchError::UnknownRule(name)) if name == "nope"
    ));
}

#[test]
fn end_positions_can_start_anywhere() {
    let grammar = checked("start = \"b\"\r\n");
    let mut recognizer = Recognizer::new(&grammar, "ab");
    assert_eq!(
        recognizer.end_positions("start", 1).expect("recognizes"),
        BTreeSet::from([2])
    );
    assert!(
        recognizer
            .end_positions("start", 0)
            .expect("recognizes")
            .is_empty()
    );
}

#[test]
fn memoization_changes_the_work_and_not_the_answer() {
    let source = "start = a a a a\r\na = [\"x\"] [\"x\"] [\"x\"]\r\n";
    let grammar = checked(source);

    let mut memoized = Recognizer::new(&grammar, "xxxxxx");
    let with = memoized.accepts("start").expect("recognizes");

    let mut plain = Recognizer::new(&grammar, "xxxxxx").without_memoization();
    let without = plain.accepts("start").expect("recognizes");

    assert_eq!(with, without);
    assert!(
        memoized.steps() < plain.steps(),
        "memoized {} steps, plain {}",
        memoized.steps(),
        plain.steps()
    );
}

#[test]
fn an_unrepresentable_start_rule_is_refused_with_its_spelling() {
    let grammar = checked("bad = %xD800-DFFF\r\nfine = \"x\" / bad\r\nprosey = bad / <p>\r\n");
    match grammar.can_recognize("bad") {
        Err(MatchError::UnrepresentableTerminal { rule, terminal }) => {
            assert_eq!(rule, "bad");
            assert_eq!(terminal, "%xD800-DFFF");
        }
        other => panic!("{other:?}"),
    }
    assert!(matches!(
        grammar.can_recognize("fine"),
        Err(MatchError::UnrepresentableTerminal { .. })
    ));
    match grammar.can_recognize("PROSEY") {
        Err(MatchError::ProseValueReachable { rule, prose }) => {
            assert_eq!(rule, "prosey");
            assert_eq!(prose, "p");
        }
        other => panic!("{other:?}"),
    }
    assert!(matches!(
        grammar.can_recognize("missing"),
        Err(MatchError::UnknownRule(name)) if name == "missing"
    ));
    assert!(grammar.can_recognize("DIGIT").is_ok());
}

#[test]
fn a_range_that_spans_the_surrogates_is_usable() {
    assert!(body_matches("%xD000-E000", "\u{e000}"));
    assert!(!body_matches("%xD000-E000", "\u{e001}"));
}

#[test]
fn a_zero_repetition_hides_what_it_repeats() {
    let grammar = checked("start = \"a\" 0<p>\r\n");
    assert!(grammar.can_recognize("start").is_ok());
    assert!(Recognizer::new(&grammar, "a").accepts("start").expect("recognizes"));
}

#[test]
fn a_small_step_limit_stops_an_unbounded_repetition() {
    let grammar = checked("start = *\"a\"\r\n");
    let mut recognizer = Recognizer::new(&grammar, "aaaaaaaa").with_options(MatchOptions {
        max_steps: Some(3),
        ..MatchOptions::default()
    });
    assert!(matches!(recognizer.accepts("start"), Err(MatchError::StepLimit)));
}

#[test]
fn the_depth_limit_is_an_error_not_a_rejection() {
    let grammar = checked("start = \"(\" start \")\" / \"x\"\r\n");
    let options = MatchOptions {
        max_depth: Some(2),
        ..MatchOptions::default()
    };
    let mut shallow = Recognizer::new(&grammar, "(x)").with_options(options.clone());
    assert!(shallow.accepts("start").expect("recognizes"));
    let mut deep = Recognizer::new(&grammar, "(((x)))").with_options(options);
    assert!(matches!(deep.accepts("start"), Err(MatchError::DepthLimit)));
}

#[test]
fn the_options_default_to_no_step_limit_and_a_depth_limit() {
    let options = MatchOptions::default();
    assert_eq!(options.max_steps, None);
    assert_eq!(options.max_depth, Some(abnf_oracle::DEFAULT_MAX_DEPTH));
    let grammar = checked("start = \"a\"\r\n");
    let recognizer = Recognizer::new(&grammar, "a\u{e9}");
    assert_eq!(recognizer.input(), "a\u{e9}");
    assert_eq!(recognizer.steps(), 0);
}

#[test]
fn past_the_end_only_what_reads_nothing_matches() {
    let grammar = checked("start = [\"x\"] *a\r\na = \"y\"\r\nempty = \"\"\r\nref = start 0*3\"z\"\r\n");
    let mut recognizer = Recognizer::new(&grammar, "ab");
    assert_eq!(
        recognizer.end_positions("start", 5).expect("recognizes"),
        BTreeSet::from([5])
    );
    assert_eq!(
        recognizer.end_positions("ref", 3).expect("recognizes"),
        BTreeSet::from([3])
    );
    assert_eq!(
        recognizer.end_positions("empty", 2).expect("recognizes"),
        BTreeSet::from([2])
    );
    assert!(recognizer
        .end_positions("empty", 3)
        .expect("recognizes")
        .is_empty());
    assert!(recognizer
        .end_positions("a", 4)
        .expect("recognizes")
        .is_empty());
}

#[test]
fn without_limits_or_memoization_an_answer_is_given() {
    let grammar = Grammar::parse("start = \"a\" start / \"b\"\r\n")
        .expect("parses")
        .check()
        .expect("checks");
    let unlimited = MatchOptions { max_steps: None, max_depth: None };
    let mut recognizer = Recognizer::new(&grammar, "aaaaab").with_options(unlimited).without_memoization();
    assert!(matches!(recognizer.accepts("start"), Ok(true)));
    let mut recognizer = Recognizer::new(&grammar, "aaaaa").with_options(unlimited).without_memoization();
    assert!(matches!(recognizer.accepts("start"), Ok(false)));
}

#[test]
fn a_depth_limit_is_reported_only_where_the_nesting_exceeds_it() {
    let grammar = Grammar::parse("start = \"a\" start / \"b\"\r\n")
        .expect("parses")
        .check()
        .expect("checks");
    let shallow = MatchOptions { max_steps: None, max_depth: Some(2) };
    let mut recognizer = Recognizer::new(&grammar, "ab").with_options(shallow);
    assert!(matches!(recognizer.accepts("start"), Ok(true)));
    let mut recognizer = Recognizer::new(&grammar, "aaaaab").with_options(shallow);
    assert!(matches!(recognizer.accepts("start"), Err(MatchError::DepthLimit)));
}
