use abnf_oracle::core_rules::{core_grammar, is_core_rule, CORE_RULES, CORE_RULE_COUNT};
use abnf_oracle::Grammar;

#[test]
fn the_core_rules_parse_to_appendix_b() {
    let grammar = core_grammar();
    let names: Vec<&str> = grammar
        .definitions()
        .iter()
        .map(|definition| definition.name.as_str())
        .collect();
    assert_eq!(
        names,
        [
            "ALPHA", "BIT", "CHAR", "CR", "CRLF", "CTL", "DIGIT", "DQUOTE", "HEXDIG", "HTAB",
            "LF", "LWSP", "OCTET", "SP", "VCHAR", "WSP"
        ]
    );
    assert_eq!(names.len(), CORE_RULE_COUNT);
}

#[test]
fn lwsp_is_the_one_nullable_core_rule() {
    assert!(CORE_RULES.contains("LWSP           =  *(WSP / CRLF WSP)"));
}

#[test]
fn the_built_core_grammar_is_what_the_text_parses_to() {
    let parsed = Grammar::parse(CORE_RULES).expect("the core rules parse");
    assert_eq!(parsed, core_grammar());
}

#[test]
fn core_rule_names_are_recognized_in_any_case() {
    assert!(is_core_rule("DIGIT"));
    assert!(is_core_rule("digit"));
    assert!(is_core_rule("HexDig"));
    assert!(!is_core_rule("digits"));
    assert!(!is_core_rule(""));
}
