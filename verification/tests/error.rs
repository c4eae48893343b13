use abnf_oracle::{CheckError, GenError, LintWarning, MatchError, ParseError, Span};

#[test]
fn incremental_without_base_suggests_the_workaround_for_core_rules() {
    let plain = CheckError::IncrementalWithoutBase {
        name: "foo".into(),
        shadows_core: false,
        span: Span::default(),
    };
    let core = CheckError::IncrementalWithoutBase {
        name: "DIGIT".into(),
        shadows_core: true,
        span: Span::default(),
    };
    assert!(!plain.to_string().contains("shadow"));
    assert!(core.to_string().contains("DIGIT = <core definition> / …"));
}

#[test]
fn parse_error_span_is_reported_for_every_variant() {
    let span = Span::new(3, 7);
    for error in [
        ParseError::NonAscii { span },
        ParseError::ExpectedCrlf { span },
        ParseError::NumberTooLarge { span },
        ParseError::Expected { what: "=", span },
        ParseError::UnexpectedEof { span },
    ] {
        assert_eq!(error.span(), span);
        assert!(!error.to_string().is_empty());
    }
}

#[test]
fn check_error_messages_spell_out_their_values() {
    let range = CheckError::InvalidNumericRange {
        lo: 0x5A,
        hi: 0x41,
        span: Span::default(),
    };
    assert_eq!(
        range.to_string(),
        "numeric range starts at 0x5A and ends below it at 0x41"
    );
    let repeat = CheckError::InvalidRepeatRange {
        min: 5,
        max: 2,
        span: Span::default(),
    };
    assert_eq!(
        repeat.to_string(),
        "repetition lower bound 5 exceeds upper bound 2"
    );
    let undefined = CheckError::UndefinedRule {
        name: "bar".into(),
        span: Span::default(),
    };
    assert_eq!(undefined.to_string(), "undefined rule `bar`");
    let cycle = CheckError::LeftRecursion {
        cycle: vec!["a".into(), "b".into()],
    };
    assert_eq!(cycle.to_string(), "left recursion: a -> b");
}

#[test]
fn match_gen_and_lint_messages_name_what_they_are_about() {
    assert_eq!(
        MatchError::UnknownRule("x".into()).to_string(),
        "unknown rule `x`"
    );
    assert_eq!(
        MatchError::ProseValueReachable {
            rule: "r".into(),
            prose: "p q".into()
        }
        .to_string(),
        "rule `r` can reach the prose value <p q>, which has no matching semantics"
    );
    assert_eq!(MatchError::DepthLimit.to_string(), "depth limit exceeded");
    assert_eq!(
        GenError::NoFiniteExpansion { rule: "bad".into() }.to_string(),
        "rule `bad` has no finite expansion"
    );
    assert_eq!(
        GenError::UnrepresentableTerminal {
            rule: "r".into(),
            terminal: "%xD800".into()
        }
        .to_string(),
        "rule `r` can reach terminal %xD800, which has no representable value"
    );
    assert_eq!(
        LintWarning::UnproductiveAlternative {
            rule: "start".into(),
            branch: 12
        }
        .to_string(),
        "branch 12 of an alternation in rule `start` can never match"
    );
}
