use abnf_oracle::{Grammar, ParseOptions};

/// The canonical form of a rule body, with the `x = ` and the line ending stripped.
fn canon(elements: &str) -> String {
    let grammar = Grammar::parse(&format!("x = {elements}\r\n"))
        .unwrap_or_else(|error| panic!("{elements:?} should parse: {error:?}"));
    let printed = grammar.to_string();
    printed
        .strip_prefix("x = ")
        .and_then(|rest| rest.strip_suffix("\r\n"))
        .unwrap_or_else(|| panic!("unexpected shape: {printed:?}"))
        .to_owned()
}

/// Reparsing the canonical form gives an equal grammar, and printing it again gives
/// identical text.
fn round_trip(src: &str) {
    let first = Grammar::parse(src).unwrap_or_else(|e| panic!("{src:?}: {e:?}"));
    let printed = first.to_string();
    let reparsed = Grammar::parse(&printed).unwrap_or_else(|e| {
        panic!("canonical form of {src:?} did not parse: {e:?}\n{printed:?}")
    });

    assert_eq!(
        first, reparsed,
        "round-trip changed {src:?} via {printed:?}"
    );
    assert_eq!(
        printed,
        reparsed.to_string(),
        "canonical form is not a fixpoint for {src:?}"
    );
}

#[test]
fn numeric_values_print_as_even_padded_uppercase_hex() {
    assert_eq!(canon("%d13"), "%x0D");
    assert_eq!(canon("%x41"), "%x41");
    assert_eq!(canon("%x100"), "%x0100");
    assert_eq!(canon("%x10FFFF"), "%x10FFFF");
    assert_eq!(
        canon("%b1000001"),
        "%x41",
        "the radix as written is not retained"
    );
    assert_eq!(canon("%x0"), "%x00");
}

#[test]
fn display_numeric_ranges_and_concatenations() {
    assert_eq!(canon("%x41-5A"), "%x41-5A");
    assert_eq!(canon("%d65-90"), "%x41-5A");
    assert_eq!(canon("%d65.66.67"), "%x41.42.43");
    assert_eq!(canon("%d13.10"), "%x0D.0A");
}

#[test]
fn quoted_strings() {
    assert_eq!(canon("\"abc\""), "\"abc\"");
    assert_eq!(canon("%i\"abc\""), "\"abc\"", "%i is never emitted");
    assert_eq!(canon("%s\"abc\""), "%s\"abc\"");
    assert_eq!(canon("%S\"abc\""), "%s\"abc\"");
    assert_eq!(canon("\"\""), "\"\"");
}

#[test]
fn repetition_bounds() {
    assert_eq!(canon("*\"a\""), "*\"a\"");
    assert_eq!(canon("3\"a\""), "3\"a\"");
    assert_eq!(canon("2*5\"a\""), "2*5\"a\"");
    assert_eq!(canon("*3\"a\""), "*3\"a\"");
    assert_eq!(canon("3*\"a\""), "3*\"a\"");
    assert_eq!(canon("0*3\"a\""), "*3\"a\"", "never 0*");
    assert_eq!(canon("0*\"a\""), "*\"a\"");
}

#[test]
fn optional_spellings_collapse_to_one() {
    assert_eq!(canon("[\"a\"]"), "[\"a\"]");
    assert_eq!(canon("*1\"a\""), "[\"a\"]");
    assert_eq!(canon("0*1\"a\""), "[\"a\"]");
    assert_eq!(canon("1*1\"a\""), "\"a\"");
    assert_eq!(canon("1\"a\""), "\"a\"", "1a is a bare element");
}

#[test]
fn parentheses_appear_exactly_where_they_change_the_parse() {
    assert_eq!(canon("(\"a\" / \"b\") \"c\""), "(\"a\" / \"b\") \"c\"");
    assert_eq!(canon("\"a\" (\"b\" / \"c\")"), "\"a\" (\"b\" / \"c\")");
    assert_eq!(canon("*(\"a\" / \"b\")"), "*(\"a\" / \"b\")");
    assert_eq!(canon("*(\"a\" \"b\")"), "*(\"a\" \"b\")");
    assert_eq!(canon("*(2*\"a\")"), "*(2*\"a\")");
    assert_eq!(canon("\"a\" \"b\" / \"c\""), "\"a\" \"b\" / \"c\"");
    assert_eq!(canon("[\"a\" / \"b\"]"), "[\"a\" / \"b\"]");
    assert_eq!(canon("*[\"a\" \"b\"]"), "*[\"a\" \"b\"]");
}

#[test]
fn redundant_groups_are_dropped() {
    assert_eq!(canon("(\"a\")"), "\"a\"");
    assert_eq!(canon("((\"a\"))"), "\"a\"");
    assert_eq!(canon("\"a\" (\"b\" \"c\")"), "\"a\" \"b\" \"c\"");
    assert_eq!(canon("\"a\" / (\"b\" / \"c\")"), "\"a\" / \"b\" / \"c\"");
    assert_eq!(canon("(\"a\" \"b\") \"c\""), "\"a\" \"b\" \"c\"");
}

#[test]
fn whitespace_is_normalized() {
    assert_eq!(canon("\"a\"     /\t\"b\""), "\"a\" / \"b\"");
    assert_eq!(canon("\"a\"  \"b\""), "\"a\" \"b\"");
}

#[test]
fn definition_operators_and_line_endings() {
    let grammar = Grammar::parse("foo=\"a\"\nfoo=/\"b\"\n").expect("parses");
    assert_eq!(grammar.to_string(), "foo = \"a\"\r\nfoo =/ \"b\"\r\n");
}

#[test]
fn comments_are_not_preserved() {
    let grammar = Grammar::parse("; header\r\nfoo = \"a\" ; why\r\n").expect("parses");
    assert_eq!(grammar.to_string(), "foo = \"a\"\r\n");
}

#[test]
fn prose_and_rule_references_survive_verbatim() {
    assert_eq!(canon("<any token>"), "<any token>");
    assert_eq!(canon("ALPHA"), "ALPHA");
    assert_eq!(canon("a1-b2"), "a1-b2", "rule names print as first written");
}

#[test]
fn round_trips_through_the_canonical_form() {
    for src in [
        "foo = \"a\"\r\n",
        "foo = \"a\" / \"b\" / \"c\"\r\n",
        "foo = \"a\" \"b\"\r\n",
        "foo = (\"a\" / \"b\") \"c\"\r\n",
        "foo = [\"a\"]\r\n",
        "foo = *\"a\"\r\n",
        "foo = 2*5(\"a\" / \"b\")\r\n",
        "foo = %x41-5A\r\n",
        "foo = %d13.10\r\n",
        "foo = %s\"aBc\"\r\n",
        "foo = <prose>\r\n",
        "foo = ALPHA DIGIT\r\n",
        "foo = \"a\"\r\nfoo =/ \"b\"\r\n",
        "; comment\r\nfoo = \"a\"  ; trailing\r\n\r\nbar = foo\r\n",
        "foo = \"a\"\r\n      \"b\"\r\n",
        "foo = *(2*3\"a\")\r\n",
        "\r\n",
    ] {
        round_trip(src);
    }
}

#[test]
fn the_empty_grammar_prints_as_a_blank_line() {
    let empty = Grammar::parse("\r\n").expect("parses");
    assert!(empty.definitions().is_empty());
    assert_eq!(empty.to_string(), "\r\n");
    assert_eq!(Grammar::parse(&empty.to_string()).expect("reparses"), empty);
}

#[test]
fn round_trips_under_strict_crlf() {
    let strict = ParseOptions { strict_crlf: true };
    let src = "foo = \"a\" / [\"b\"]\r\nfoo =/ %x41\r\n";
    let first = Grammar::parse_with(src, strict.clone()).expect("parses");
    let reparsed = Grammar::parse_with(&first.to_string(), strict).expect("reparses");
    assert_eq!(first, reparsed);
}

#[test]
fn lenient_and_strict_parses_of_the_same_grammar_are_equal() {
    let lenient = Grammar::parse("foo = \"a\"\n").expect("parses");
    let strict = Grammar::parse_with("foo = \"a\"\r\n", ParseOptions { strict_crlf: true })
        .expect("parses");
    assert_eq!(lenient, strict);
    assert_eq!(lenient.to_string(), strict.to_string());
}

#[test]
fn spellings_that_differ_only_syntactically_are_equal() {
    for (left, right) in [
        ("foo = *1\"a\"\r\n", "foo = [\"a\"]\r\n"),
        ("foo = 1*1\"a\"\r\n", "foo = \"a\"\r\n"),
        ("foo = %d65\r\n", "foo = %x41\r\n"),
        ("foo = %i\"a\"\r\n", "foo = \"a\"\r\n"),
        ("foo = (\"a\")\r\n", "foo = \"a\"\r\n"),
        (
            "foo = \"a\" / (\"b\" / \"c\")\r\n",
            "foo = \"a\" / \"b\" / \"c\"\r\n",
        ),
        ("foo = \"a\"\r\n", "FOO = \"a\"\r\n"),
    ] {
        let left_grammar = Grammar::parse(left).expect("parses");
        let right_grammar = Grammar::parse(right).expect("parses");
        assert_eq!(left_grammar, right_grammar, "{left:?} vs {right:?}");
    }
}

#[test]
fn spellings_that_differ_semantically_are_not_equal() {
    for (left, right) in [
        ("foo = \"a\" \"b\"\r\n", "foo = \"a\" / \"b\"\r\n"),
        ("foo = %s\"a\"\r\n", "foo = \"a\"\r\n"),
        ("foo = *\"a\"\r\n", "foo = 1*\"a\"\r\n"),
        ("foo = \"a\"\r\n", "foo =/ \"a\"\r\n"),
        ("foo = \"a\"\r\n", "bar = \"a\"\r\n"),
        ("foo = \"a\"\r\n", "foo = \"A\"\r\n"),
    ] {
        let left_grammar = Grammar::parse(left).expect("parses");
        let right_grammar = Grammar::parse(right).expect("parses");
        assert_ne!(left_grammar, right_grammar, "{left:?} vs {right:?}");
    }
}

#[test]
fn an_element_and_a_definition_print_on_their_own() {
    let grammar = Grammar::parse("foo =/ \"a\" (\"b\" / %x43)\r\n").expect("parses");
    let definition = &grammar.definitions()[0];
    assert_eq!(definition.to_string(), "foo =/ \"a\" (\"b\" / %x43)");
    assert_eq!(definition.body.to_string(), "\"a\" (\"b\" / %x43)");
}

#[test]
fn the_largest_value_prints_in_full() {
    assert_eq!(canon("%xFFFFFFFFFFFFFFFF"), "%xFFFFFFFFFFFFFFFF");
    assert_eq!(canon("%x1-FFF"), "%x01-0FFF");
    assert_eq!(canon("18446744073709551615*\"a\""), "18446744073709551615*\"a\"");
}
