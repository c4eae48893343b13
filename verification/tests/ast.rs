use std::collections::HashSet;

use abnf_oracle::{
    CharVal, DefinedAs, Definition, Element, Grammar, Ignored, MinLen, ParseOptions, Repeat,
    RuleName, Span,
};

#[test]
fn rule_names_compare_case_insensitively() {
    assert_eq!(RuleName::new("Foo"), RuleName::new("fOO"));
    assert_ne!(RuleName::new("foo"), RuleName::new("foobar"));
    assert_eq!(RuleName::new("Foo").as_str(), "Foo");
    assert_eq!(RuleName::new("Foo").key(), "foo");
}

#[test]
fn rule_name_hash_agrees_with_eq() {
    let mut set = HashSet::new();
    set.insert(RuleName::new("DIGIT"));
    assert!(set.contains(&RuleName::new("digit")));
}

#[test]
fn spans_never_affect_equality() {
    let a = Element::RuleRef {
        name: RuleName::new("x"),
        span: Ignored(Span::new(0, 1)),
    };
    let b = Element::RuleRef {
        name: RuleName::new("X"),
        span: Ignored(Span::new(40, 41)),
    };
    assert_eq!(a, b);
}

#[test]
fn parse_options_do_not_affect_grammar_equality() {
    let def = Definition {
        name: RuleName::new("a"),
        defined_as: DefinedAs::Base,
        body: Element::CharVal(CharVal {
            value: "x".into(),
            case_sensitive: false,
        }),
        span: Ignored(Span::default()),
    };
    let lenient = Grammar::new(vec![def.clone()], ParseOptions::default());
    let strict = Grammar::new(vec![def], ParseOptions { strict_crlf: true });
    assert_eq!(lenient, strict);
}

#[test]
fn repeat_bounds() {
    assert!(Repeat::exactly(3).is_valid());
    assert!(Repeat::at_least(3).is_valid());
    assert!(Repeat::at_least(3).is_unbounded());
    assert!(!Repeat::bounded(5, 2).is_valid());
    assert!(Repeat::bounded(0, 0).is_never());
    assert!(!Repeat::bounded(0, 1).is_never());
}

#[test]
fn min_len_orders_finite_below_infinite() {
    assert!(MinLen::Finite(u64::MAX) < MinLen::Infinite);
    assert!(MinLen::Finite(1) < MinLen::Finite(2));
    assert!(MinLen::zero().is_finite());
    assert!(!MinLen::Infinite.is_finite());
}

#[test]
fn min_len_arithmetic_saturates() {
    assert_eq!(
        MinLen::Finite(2).saturating_add(MinLen::Finite(3)),
        MinLen::Finite(5)
    );
    assert_eq!(
        MinLen::Finite(u64::MAX).saturating_add(MinLen::Finite(1)),
        MinLen::Finite(u64::MAX)
    );
    assert_eq!(
        MinLen::Finite(1).saturating_add(MinLen::Infinite),
        MinLen::Infinite
    );
    assert_eq!(
        MinLen::Finite(u64::MAX).saturating_mul(2),
        MinLen::Finite(u64::MAX),
        "a saturated value is still finite, hence still productive"
    );
}

#[test]
fn zero_repetitions_of_an_unproductive_body_match_the_empty_string() {
    assert_eq!(MinLen::Infinite.saturating_mul(0), MinLen::zero());
    assert_eq!(MinLen::Infinite.saturating_mul(1), MinLen::Infinite);
}

#[test]
fn min_picks_the_shorter_alternative() {
    assert_eq!(MinLen::Finite(3).min(MinLen::Finite(1)), MinLen::Finite(1));
    assert_eq!(MinLen::Infinite.min(MinLen::Finite(7)), MinLen::Finite(7));
    assert_eq!(MinLen::Finite(7).min(MinLen::Infinite), MinLen::Finite(7));
    assert_eq!(MinLen::Infinite.min(MinLen::Infinite), MinLen::Infinite);
}

#[test]
fn span_range_covers_the_bytes_between_its_ends() {
    assert_eq!(Span::new(2, 5).range(), 2..5);
    assert_eq!(Span::new(0, 0).range(), 0..0);
}

#[test]
fn repeat_constructors_set_their_bounds() {
    assert_eq!(Repeat::exactly(4), Repeat { min: 4, max: Some(4) });
    assert_eq!(Repeat::at_least(2), Repeat { min: 2, max: None });
    assert_eq!(Repeat::bounded(1, 9), Repeat { min: 1, max: Some(9) });
    assert!(!Repeat::at_least(0).is_never());
}
