use std::collections::BTreeSet;

use abnf_oracle::{
    CheckedGrammar, GenError, GenOptions, Generator, Grammar, MatchOptions, Recognizer,
    DEFAULT_GEN_DEPTH, DEFAULT_MAX_OUTPUT_LEN, DEFAULT_MAX_STEPS, DEFAULT_SPREAD,
};

fn checked(source: &str) -> CheckedGrammar {
    Grammar::parse(source)
        .unwrap_or_else(|e| panic!("{source:?}: {e:?}"))
        .check()
        .unwrap_or_else(|e| panic!("{source:?}: {e:?}"))
}

fn match_options() -> MatchOptions {
    MatchOptions {
        max_depth: Some(4_096),
        ..MatchOptions::default()
    }
}

#[test]
fn an_unproductive_start_rule_is_refused_immediately() {
    let grammar = checked("start = \"ok\" / bad\r\nbad = \"x\" bad\r\n");
    assert!(matches!(
        Generator::new(&grammar, 0).generate("bad"),
        Err(GenError::NoFiniteExpansion { .. })
    ));
}

#[test]
fn a_dead_branch_is_never_emitted() {
    let grammar = checked("start = \"ok\" / bad\r\nbad = \"x\" bad\r\n");
    for seed in 0..1_000 {
        let produced = Generator::new(&grammar, seed)
            .with_options(GenOptions {
                preserve_case: true,
                ..GenOptions::default()
            })
            .generate("start")
            .expect("generates");
        assert_eq!(produced, "ok", "seed {seed}");
    }
}

#[test]
fn prose_and_unrepresentable_terminals_are_refused() {
    let grammar = checked("prosey = <anything>\r\nbad = %xD800-DFFF\r\nfine = \"x\"\r\n");
    assert!(matches!(
        Generator::new(&grammar, 0).generate("prosey"),
        Err(GenError::ProseValueReachable { .. })
    ));
    assert!(matches!(
        Generator::new(&grammar, 0).generate("bad"),
        Err(GenError::UnrepresentableTerminal { .. })
    ));
    assert!(Generator::new(&grammar, 0).generate("fine").is_ok());
}

#[test]
fn an_unbounded_mandatory_repetition_reports_a_limit() {
    let grammar = checked("start = 1000000000*\"a\"\r\n");
    assert!(matches!(
        Generator::new(&grammar, 0).generate("start"),
        Err(GenError::OutputLimit)
    ));
}

#[test]
fn witness_mode_terminates_where_choosing_would_not() {
    let grammar = checked("a = b / \"x\"\r\nb = \"z\" a / \"y\"\r\n");
    for seed in 0..100 {
        let produced = Generator::new(&grammar, seed)
            .with_options(GenOptions {
                max_depth: 0,
                preserve_case: true,
                ..GenOptions::default()
            })
            .generate("a")
            .expect("terminates");
        assert_eq!(produced, "x", "seed {seed}: witness mode is deterministic");
    }
}

#[test]
fn recursive_grammars_terminate_on_every_seed() {
    let grammar = checked("start = \"(\" start \")\" / \"x\"\r\n");
    for seed in 0..1_000 {
        let produced = Generator::new(&grammar, seed)
            .generate("start")
            .expect("terminates");
        let accepted = Recognizer::new(&grammar, &produced)
            .with_options(match_options())
            .accepts("start")
            .expect("recognizes");
        assert!(accepted, "seed {seed}: {produced:?}");
    }
}

#[test]
fn case_is_varied_unless_it_is_preserved() {
    let grammar = checked("start = \"abc\"\r\n");
    let varied: BTreeSet<String> = (0..100)
        .map(|seed| {
            Generator::new(&grammar, seed)
                .generate("start")
                .expect("generates")
        })
        .collect();
    assert!(varied.len() > 1, "case was never varied: {varied:?}");
    for text in &varied {
        assert_eq!(text.to_ascii_lowercase(), "abc");
    }

    let preserved: BTreeSet<String> = (0..100)
        .map(|seed| {
            Generator::new(&grammar, seed)
                .with_options(GenOptions {
                    preserve_case: true,
                    ..GenOptions::default()
                })
                .generate("start")
                .expect("generates")
        })
        .collect();
    assert_eq!(preserved.len(), 1, "preserve_case should pin the output");
    assert!(preserved.contains("abc"));
}

#[test]
fn a_case_sensitive_string_is_never_varied() {
    let grammar = checked("start = %s\"aBc\"\r\n");
    for seed in 0..100 {
        let produced = Generator::new(&grammar, seed)
            .generate("start")
            .expect("generates");
        assert_eq!(produced, "aBc", "seed {seed}");
    }
}

#[test]
fn generation_is_deterministic_for_a_seed() {
    let grammar = checked(
        "start = 1*(item / \"-\") [\"!\"]\r\nitem = 2*4DIGIT / %x41-5A / \"x\" start \"y\"\r\n",
    );
    let mut first = Generator::new(&grammar, 42);
    let mut second = Generator::new(&grammar, 42);
    for call in 0..100 {
        let left = first.generate("start");
        let right = second.generate("start");
        assert_eq!(left, right, "call {call}");
    }
}

#[test]
fn different_seeds_give_different_strings() {
    let grammar = checked("start = 1*8(ALPHA / DIGIT)\r\n");
    let produced: BTreeSet<String> = (0..50)
        .map(|seed| {
            Generator::new(&grammar, seed)
                .generate("start")
                .expect("generates")
        })
        .collect();
    assert!(produced.len() > 10, "only {} distinct strings", produced.len());
}

#[test]
fn generated_strings_are_accepted_across_constructs() {
    let grammar = checked(
        "start = a *b [c] 2*3d e\r\n\
         a = %x41-5A / %xD7FF-E001 / %x1D11E\r\n\
         b = \"xy\" / %s\"Q\"\r\n\
         c = %x61.62.63\r\n\
         d = DIGIT / HEXDIG\r\n\
         e = \"\" / 0\"never\" \"z\"\r\n",
    );
    for seed in 0..300 {
        let produced = Generator::new(&grammar, seed)
            .generate("start")
            .expect("generates");
        let accepted = Recognizer::new(&grammar, &produced)
            .with_options(match_options())
            .accepts("start")
            .expect("recognizes");
        assert!(accepted, "seed {seed}: {produced:?}");
        assert!(produced.chars().count() >= 3, "seed {seed}: {produced:?}");
    }
}

#[test]
fn an_unknown_start_rule_is_an_error() {
    let grammar = checked("start = \"a\"\r\n");
    assert!(matches!(
        Generator::new(&grammar, 0).generate("nope"),
        Err(GenError::UnknownRule(name)) if name == "nope"
    ));
}

#[test]
fn the_step_limit_stops_generation() {
    let grammar = checked("start = 50\"ab\"\r\n");
    let mut generator = Generator::new(&grammar, 7).with_options(GenOptions {
        max_steps: Some(10),
        ..GenOptions::default()
    });
    assert!(matches!(generator.generate("start"), Err(GenError::StepLimit)));
    assert_eq!(generator.steps(), 11);
    let mut roomy = Generator::new(&grammar, 7);
    assert_eq!(roomy.generate("start").expect("generates").len(), 100);
    assert_eq!(roomy.steps(), 51);
}

#[test]
fn the_output_limit_counts_scalars() {
    let grammar = checked("start = 5\"a\"\r\n");
    let mut tight = Generator::new(&grammar, 0).with_options(GenOptions {
        max_output_len: Some(4),
        preserve_case: true,
        ..GenOptions::default()
    });
    assert!(matches!(tight.generate("start"), Err(GenError::OutputLimit)));
    let mut exact = Generator::new(&grammar, 0).with_options(GenOptions {
        max_output_len: Some(5),
        preserve_case: true,
        ..GenOptions::default()
    });
    assert_eq!(exact.generate("start").expect("fits"), "aaaaa");
}

#[test]
fn the_default_options_are_the_documented_ones() {
    let options = GenOptions::default();
    assert_eq!(options.max_depth, DEFAULT_GEN_DEPTH);
    assert_eq!(options.spread, DEFAULT_SPREAD);
    assert!(!options.coverage);
    assert!(!options.preserve_case);
    assert_eq!(options.max_output_len, Some(DEFAULT_MAX_OUTPUT_LEN));
    assert_eq!(options.max_steps, Some(DEFAULT_MAX_STEPS));
    assert_eq!(DEFAULT_MAX_OUTPUT_LEN, 1 << 20);
    assert_eq!(DEFAULT_MAX_STEPS, 1 << 24);
}

#[test]
fn a_zero_spread_repeats_exactly_the_minimum() {
    let grammar = checked("start = 2*9\"a\" *\"b\"\r\n");
    for seed in 0..50 {
        let produced = Generator::new(&grammar, seed)
            .with_options(GenOptions {
                spread: 0,
                preserve_case: true,
                ..GenOptions::default()
            })
            .generate("start")
            .expect("generates");
        assert_eq!(produced, "aa", "seed {seed}");
    }
}

#[test]
fn the_date_example_round_trips() {
    let source = "full-date     = date-fullyear \"-\" date-month \"-\" date-mday\r\n\
                  date-fullyear = 4DIGIT\r\n\
                  date-month    = 2DIGIT\r\n\
                  date-mday     = 2DIGIT\r\n";
    let grammar = checked(source);
    assert!(Recognizer::new(&grammar, "2026-09-20").accepts("full-date").unwrap());
    assert!(!Recognizer::new(&grammar, "20260920").accepts("full-date").unwrap());
    let mut generator = Generator::new(&grammar, 42);
    let produced = generator.generate("full-date").expect("generates");
    assert_eq!(produced.len(), 10);
    assert!(Recognizer::new(&grammar, &produced).accepts("full-date").unwrap());
}

#[test]
fn the_same_seed_gives_the_same_strings() {
    let grammar = checked("start = *3(\"a\" / \"b\" / %x41-5A) [\"c\"] word\r\nword = 1*4%x61-7A\r\n");
    let mut first = Generator::new(&grammar, 42);
    let mut second = Generator::new(&grammar, 42);
    let mut seen = BTreeSet::new();
    for _ in 0..100 {
        let a = first.generate("start").expect("generates");
        let b = second.generate("start").expect("generates");
        assert_eq!(a, b);
        assert_eq!(first.steps(), second.steps());
        seen.insert(a);
    }
    assert!(seen.len() > 1, "the stream should vary from call to call");
}

#[test]
fn a_refused_request_leaves_the_random_state_alone() {
    let grammar = checked("start = *(\"a\" / \"b\" / \"c\")\r\nprosey = <words>\r\n");
    let mut plain = Generator::new(&grammar, 7);
    let mut interrupted = Generator::new(&grammar, 7);
    assert!(matches!(interrupted.generate("nope"), Err(GenError::UnknownRule(_))));
    assert!(matches!(interrupted.generate("prosey"), Err(GenError::ProseValueReachable { .. })));
    for _ in 0..5 {
        assert_eq!(plain.generate("start").expect("generates"), interrupted.generate("start").expect("generates"));
    }
}

#[test]
fn the_first_prose_value_in_arena_order_is_reported() {
    let grammar = checked("start = <one> / <two>\r\n");
    match Generator::new(&grammar, 0).generate("start") {
        Err(GenError::ProseValueReachable { rule, prose }) => {
            assert_eq!(rule, "start");
            assert_eq!(prose, "one");
        }
        other => panic!("unexpected {other:?}"),
    }
}

#[test]
fn a_successful_generation_stays_within_the_step_limit() {
    let grammar = checked("start = 1*5(\"a\" / \"b\")\r\n");
    for seed in 0..20 {
        let options = GenOptions { max_steps: Some(40), ..GenOptions::default() };
        let mut generator = Generator::new(&grammar, seed).with_options(options);
        if generator.generate("start").is_ok() {
            assert!(generator.steps() <= 40);
        }
    }
}
