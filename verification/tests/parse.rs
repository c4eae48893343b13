use abnf_oracle::{DefinedAs, Element, Grammar, ParseError, ParseOptions, Span};

/// The error that parsing `src` with the default options raises.
fn error_of(src: &str) -> ParseError {
    match Grammar::parse(src) {
        Ok(_) => panic!("{src:?} parsed"),
        Err(e) => e,
    }
}

fn expected(what: &'static str, start: u32, end: u32) -> ParseError {
    ParseError::Expected { what, span: Span::new(start, end) }
}

fn eof(at: u32) -> ParseError {
    ParseError::UnexpectedEof { span: Span::new(at, at) }
}

#[test]
fn empty_text_is_an_unexpected_end() {
    assert_eq!(error_of(""), eof(0));
}

#[test]
fn unclosed_group_names_the_missing_parenthesis() {
    assert_eq!(error_of("a = (b\r\n"), expected("closing parenthesis", 6, 7));
}

#[test]
fn unclosed_option_at_the_end_of_the_text_is_an_unexpected_end() {
    assert_eq!(error_of("a = [b"), eof(6));
}

#[test]
fn numeric_value_past_64_bits_is_too_large() {
    assert_eq!(
        error_of("a = %d99999999999999999999\r\n"),
        ParseError::NumberTooLarge { span: Span::new(6, 26) }
    );
}

#[test]
fn repeat_count_past_64_bits_is_too_large() {
    assert_eq!(
        error_of("a = 99999999999999999999b\r\n"),
        ParseError::NumberTooLarge { span: Span::new(4, 24) }
    );
}

#[test]
fn unknown_radix_letter_is_reported_at_the_letter() {
    assert_eq!(error_of("a = %q\r\n"), expected("numeric radix or string prefix", 5, 6));
}

#[test]
fn radix_without_digits_wants_a_digit() {
    assert_eq!(error_of("a = %x\r\n"), expected("digit", 6, 7));
    assert_eq!(error_of("a = %x41-\r\n"), expected("digit", 9, 10));
    assert_eq!(error_of("a = %x41.\r\n"), expected("digit", 9, 10));
}

#[test]
fn rule_name_without_definition_operator_is_reported() {
    assert_eq!(error_of("a b\r\n"), expected("\"=\" or \"=/\"", 2, 3));
}

#[test]
fn stray_text_after_the_elements_wants_the_end_of_the_line() {
    assert_eq!(error_of("a = b )\r\n"), expected("end of line", 6, 7));
}

#[test]
fn stray_line_between_rules_wants_a_rule_or_an_empty_line() {
    assert_eq!(error_of("a = b\r\n)\r\n"), expected("rule or end of line", 7, 8));
}

#[test]
fn comment_running_off_the_end_is_an_unexpected_end() {
    assert_eq!(error_of("a = b ;x"), eof(8));
}

#[test]
fn bare_line_feed_under_strict_crlf_is_reported() {
    let strict = ParseOptions { strict_crlf: true };
    match Grammar::parse_with("a = b\n", strict) {
        Ok(_) => panic!("a bare LF parsed under strict CRLF"),
        Err(e) => assert_eq!(e, ParseError::ExpectedCrlf { span: Span::new(5, 6) }),
    }
    assert!(Grammar::parse_with("a = b\r\n", strict).is_ok());
    assert!(Grammar::parse("a = b\n").is_ok());
    assert!(Grammar::parse("a = b\r").is_ok());
}

#[test]
fn unclosed_quote_and_prose_are_reported_where_they_stop() {
    assert_eq!(error_of("a = \"abc\r\n"), expected("closing quote", 8, 9));
    assert_eq!(error_of("a = <abc"), eof(8));
}

#[test]
fn string_prefix_without_a_quote_wants_a_quoted_string() {
    assert_eq!(error_of("a = %sx\r\n"), expected("quoted string", 6, 7));
    assert_eq!(error_of("a = %"), eof(5));
}

#[test]
fn stray_closing_parenthesis_is_not_an_element() {
    assert_eq!(error_of("a = )\r\n"), expected("element", 4, 5));
}

#[test]
fn continuation_lines_and_comments_are_whitespace() {
    let g = Grammar::parse("a = b ; first\r\n    c\r\n\r\n; a comment line\r\nd = %x41.42-43\r\n");
    assert!(g.is_err(), "a dotted value cannot also be a range");
    let g = Grammar::parse("a = b ; first\r\n    c\r\n\r\n; a comment line\r\nd = %x41.42.43\r\n")
        .expect("parses");
    assert_eq!(g.definitions().len(), 2);
}

#[test]
fn the_parser_flattens_and_respells_canonically() {
    let g = Grammar::parse("a = *1x 1*1y (b c) d\r\na =/ (e / f) / g\r\n").expect("parses");
    let defs = g.definitions();
    assert_eq!(defs.len(), 2);
    assert_eq!(defs[0].name.as_str(), "a");
    assert!(matches!(defs[0].defined_as, DefinedAs::Base));
    assert!(matches!(defs[1].defined_as, DefinedAs::Incremental));
    let names = |items: &[Element]| -> Vec<String> {
        items
            .iter()
            .map(|e| match e {
                Element::RuleRef { name, .. } => name.as_str().to_string(),
                Element::Optional(inner) => match &**inner {
                    Element::RuleRef { name, .. } => format!("[{}]", name.as_str()),
                    other => panic!("unexpected {other:?}"),
                },
                other => panic!("unexpected {other:?}"),
            })
            .collect()
    };
    match &defs[0].body {
        Element::Concat(items) => assert_eq!(names(items), vec!["[x]", "y", "b", "c", "d"]),
        other => panic!("unexpected {other:?}"),
    }
    match &defs[1].body {
        Element::Alt(branches) => assert_eq!(names(branches), vec!["e", "f", "g"]),
        other => panic!("unexpected {other:?}"),
    }
}
