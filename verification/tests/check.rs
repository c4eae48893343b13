use abnf_oracle::analysis::productivity;
use abnf_oracle::check::CheckedGrammar;
use abnf_oracle::core_rules::CORE_RULE_COUNT;
use abnf_oracle::{CheckError, Grammar, Node, NodeId, NumVal, RuleId};

fn check(src: &str) -> CheckedGrammar {
    Grammar::parse(src)
        .unwrap_or_else(|e| panic!("{src:?} should parse: {e:?}"))
        .check()
        .unwrap_or_else(|errors| panic!("{src:?} should check: {errors:?}"))
}

fn errors(src: &str) -> Vec<CheckError> {
    match Grammar::parse(src)
        .unwrap_or_else(|e| panic!("{src:?} should parse: {e:?}"))
        .check()
    {
        Ok(_) => panic!("{src:?} should not check"),
        Err(errors) => errors,
    }
}

#[test]
fn incremental_alternatives_are_merged_into_their_base() {
    let checked = check("foo = \"a\"\r\nfoo =/ \"b\"\r\nfoo =/ \"c\"\r\n");
    assert_eq!(checked.rules().len(), 1);
    assert_eq!(checked.to_string(), "foo = \"a\" / \"b\" / \"c\"\r\n");
}

#[test]
fn merging_flattens_rather_than_nests() {
    let split = check("foo = \"a\" / \"b\"\r\nfoo =/ \"c\" / \"d\"\r\n");
    let whole = check("foo = \"a\" / \"b\" / \"c\" / \"d\"\r\n");
    assert_eq!(split, whole);
}

#[test]
fn incremental_alternatives_match_the_base_name_case_insensitively() {
    let checked = check("foo = \"a\"\r\nFOO =/ \"b\"\r\n");
    assert_eq!(checked.rules().len(), 1);
    assert_eq!(checked.to_string(), "foo = \"a\" / \"b\"\r\n");
}

#[test]
fn a_rule_defined_twice_is_a_duplicate() {
    let found = errors("foo = \"a\"\r\nfoo = \"b\"\r\n");
    assert!(
        matches!(found.as_slice(), [CheckError::DuplicateDefinition { name, .. }] if name == "foo"),
        "{found:?}"
    );
}

#[test]
fn an_incremental_alternative_needs_a_base() {
    let found = errors("foo = \"a\"\r\nbar =/ \"b\"\r\n");
    assert!(
        matches!(
            found.as_slice(),
            [CheckError::IncrementalWithoutBase { name, shadows_core: false, .. }]
                if name == "bar"
        ),
        "{found:?}"
    );
}

#[test]
fn extending_an_implicit_core_rule_says_so() {
    let found = errors("foo = DIGIT\r\nDIGIT =/ \"x\"\r\n");
    assert!(
        matches!(
            found.as_slice(),
            [CheckError::IncrementalWithoutBase { name, shadows_core: true, .. }]
                if name == "DIGIT"
        ),
        "{found:?}"
    );
    assert!(found[0].to_string().contains("core definition"));
}

#[test]
fn an_inverted_repeat_range_is_a_structural_error() {
    let found = errors("start = 5*2\"a\"\r\n");
    assert!(
        matches!(
            found.as_slice(),
            [CheckError::InvalidRepeatRange { min: 5, max: 2, .. }]
        ),
        "{found:?}"
    );
}

#[test]
fn an_inverted_numeric_range_is_a_structural_error() {
    let found = errors("start = %x5A-41\r\n");
    assert!(
        matches!(
            found.as_slice(),
            [CheckError::InvalidNumericRange {
                lo: 0x5A,
                hi: 0x41,
                ..
            }]
        ),
        "{found:?}"
    );
}

#[test]
fn range_errors_point_at_the_range() {
    let src = "start = \"ok\" %x5A-41\r\n";
    let found = errors(src);
    let [CheckError::InvalidNumericRange { span, .. }] = found.as_slice() else {
        panic!("{found:?}")
    };
    assert_eq!(
        &src[span.range()],
        "%x5A-41",
        "the span must locate the typo"
    );
}

#[test]
fn repeat_errors_point_at_the_bounds() {
    let src = "start = \"ok\" 5*2\"a\"\r\n";
    let found = errors(src);
    let [CheckError::InvalidRepeatRange { span, .. }] = found.as_slice() else {
        panic!("{found:?}")
    };
    assert_eq!(&src[span.range()], "5*2");
}

#[test]
fn equal_bounds_and_unbounded_repetitions_are_valid() {
    check("start = 2*2\"a\" 3\"b\" *\"c\" 4*\"d\"\r\n");
}

#[test]
fn an_unrepresentable_terminal_is_not_a_structural_error() {
    let checked = check("start = %xD800-DFFF / %x110000\r\n");
    assert_eq!(checked.rules().len(), 1);
}

#[test]
fn octet_grammars_check() {
    check("obs-text = %x80-FF\r\nstart = obs-text\r\n");
}

#[test]
fn undefined_references_are_all_reported() {
    let found = errors("foo = bar baz / qux\r\n");
    assert_eq!(found.len(), 3, "errors accumulate: {found:?}");
    assert!(
        found
            .iter()
            .all(|e| matches!(e, CheckError::UndefinedRule { .. }))
    );
}

#[test]
fn check_core_rules_need_no_definition() {
    let checked = check("foo = ALPHA DIGIT HEXDIG CRLF\r\n");
    assert_eq!(checked.rules().len(), 1);
    assert_eq!(checked.core_rules().len(), CORE_RULE_COUNT);
}

#[test]
fn core_rule_resolution_is_hygienic() {
    let checked = check("start = DIGIT HEXDIG\r\nDIGIT = \"x\"\r\n");

    let start = checked.rule("start").expect("start exists");
    let Node::Concat { items } = checked.node(start.body) else {
        panic!("expected a concatenation")
    };
    assert!(
        matches!(checked.target(items[0]), Some(RuleId::User(_))),
        "a user reference to DIGIT resolves to the user's rule"
    );

    let hexdig = checked.rule("HEXDIG").expect("core HEXDIG");
    let Node::Alt { branches } = checked.node(hexdig.body) else {
        panic!("expected an alternation")
    };
    assert!(
        matches!(checked.target(branches[0]), Some(RuleId::Core(_))),
        "core HEXDIG's reference to DIGIT stays in the core environment"
    );
}

#[test]
fn shadowing_a_core_rule_is_not_an_error() {
    let checked = check("char = \"x\"\r\nfoo = char\r\n");
    assert_eq!(checked.rules().len(), 2);
    let foo = checked.rule("foo").expect("foo exists");
    assert!(matches!(checked.target(foo.body), Some(RuleId::User(_))));
}

#[test]
fn node_ids_are_the_pre_order_of_the_merged_table() {
    let checked = check("foo = \"a\" \"b\"\r\n");
    let foo = checked.rule("foo").expect("foo exists");
    assert_eq!(
        foo.body,
        NodeId::from_index(0),
        "the parent is emitted first"
    );
    let Node::Concat { items } = checked.node(foo.body) else {
        panic!("expected a concatenation")
    };
    assert_eq!(items, &[NodeId::from_index(1), NodeId::from_index(2)]);
}

#[test]
fn one_canonical_form_gives_one_set_of_node_ids() {
    let left = check("foo = *1(\"a\") / %d98\r\n");
    let right = check("FOO = [\"a\"]\r\nfoo =/ %x62\r\n");
    assert_eq!(left, right);
    assert_eq!(left.node_count(), right.node_count());
    for index in 0..left.node_count() {
        let id = NodeId::from_index(index as u32);
        assert_eq!(left.node(id), right.node(id), "node {index} differs");
    }
}

#[test]
fn the_arena_holds_user_nodes_before_core_nodes() {
    let checked = check("foo = \"a\"\r\n");
    assert_eq!(
        checked.rule("foo").expect("foo").body,
        NodeId::from_index(0)
    );
    assert!(checked.node_count() > 1);
    assert!(matches!(
        checked.node(NodeId::from_index(0)),
        Node::CharVal(_)
    ));
}

#[test]
fn numeric_values_survive_lowering() {
    let checked = check("foo = %x41-5A\r\n");
    let foo = checked.rule("foo").expect("foo exists");
    assert!(matches!(
        checked.node(foo.body),
        Node::NumVal {
            value: NumVal::Range { lo: 0x41, hi: 0x5A },
            ..
        }
    ));
}

#[test]
fn a_grammar_with_no_rules_checks() {
    let checked = check("\r\n");
    assert!(checked.rules().is_empty());
    assert_eq!(checked.core_rules().len(), CORE_RULE_COUNT);
}

#[test]
fn checked_grammars_round_trip() {
    for src in [
        "foo = \"a\"\r\n",
        "foo = \"a\"\r\nfoo =/ \"b\"\r\n",
        "foo = ALPHA *(DIGIT / \"-\")\r\n",
        "foo = [\"a\"] %x41-5A\r\n",
        "a = b\r\nb = \"x\"\r\n",
    ] {
        let checked = check(src);
        let reparsed = Grammar::parse(&checked.to_string())
            .expect("canonical form parses")
            .check()
            .expect("canonical form checks");
        assert_eq!(checked, reparsed, "{src:?} changed under round-trip");
        assert_eq!(checked.to_string(), reparsed.to_string());
    }
}

#[test]
fn rule_lookup_folds_case_and_reaches_core_rules() {
    let checked = check("Foo = \"a\"\r\n");
    assert_eq!(checked.rule("FOO").expect("found").name.as_str(), "Foo");
    assert!(checked.rule("digit").is_some());
    assert!(checked.rule("nope").is_none());
    assert_eq!(checked.rule_count(), 1 + CORE_RULE_COUNT);
}

#[test]
fn every_ordinary_grammar_fits_node_ids() {
    let grammar = Grammar::parse("foo = *(\"a\" / [\"b\" c])\r\nc = %x41-5A\r\n").expect("parses");
    assert!(grammar.fits_node_ids());
    assert!(Grammar::parse("\r\n").expect("parses").fits_node_ids());
}

#[test]
fn productivity_marks_what_can_match_something() {
    let checked = check("start = \"ok\" / bad\r\nbad = \"x\" bad\r\nopt = *bad\r\n");
    let ranks = productivity(&checked);
    assert!(ranks[checked.rule("start").expect("start").body.index()].is_some());
    assert!(ranks[checked.rule("bad").expect("bad").body.index()].is_none());
    assert!(ranks[checked.rule("opt").expect("opt").body.index()].is_some());
}

#[test]
fn a_checked_grammar_prints_each_rule_with_every_alternative_in_order() {
    let checked = check("a = b\r\nb = \"x\"\r\na =/ \"y\" \"z\"\r\nA =/ (\"p\" / \"q\")\r\n");
    assert_eq!(checked.to_string(), "a = b / \"y\" \"z\" / \"p\" / \"q\"\r\nb = \"x\"\r\n");
}

#[test]
fn merge_errors_come_first_in_the_order_of_the_definitions() {
    let found = errors("a = \"x\"\r\nb =/ \"y\"\r\na = \"z\"\r\nc = undefined\r\n");
    assert_eq!(found.len(), 3);
    assert!(matches!(&found[0], CheckError::IncrementalWithoutBase { name, shadows_core: false, .. } if name == "b"));
    assert!(matches!(&found[1], CheckError::DuplicateDefinition { name, .. } if name == "a"));
    assert!(matches!(&found[2], CheckError::UndefinedRule { name, .. } if name == "undefined"));
}

fn left_cycles_of(src: &str) -> Vec<Vec<String>> {
    let g = Grammar::parse(src).expect("parses");
    match g.check() {
        Ok(_) => Vec::new(),
        Err(errors) => errors
            .into_iter()
            .map(|e| match e {
                CheckError::LeftRecursion { cycle } => cycle,
                other => panic!("{src:?}: unexpected {other:?}"),
            })
            .collect(),
    }
}

#[test]
fn direct_left_recursion_is_a_structural_error() {
    assert_eq!(left_cycles_of("a = a \"x\"\r\n"), vec![vec!["a".to_string()]]);
}

#[test]
fn indirect_left_recursion_names_the_cycle_in_definition_order() {
    assert_eq!(
        left_cycles_of("a = b \"x\"\r\nb = \"y\" / a\r\nc = \"z\"\r\n"),
        vec![vec!["a".to_string(), "b".to_string()]]
    );
}

#[test]
fn each_left_recursive_cycle_is_reported_once() {
    assert_eq!(
        left_cycles_of("a = a \"x\"\r\nb = c\r\nc = b \"y\"\r\n"),
        vec![vec!["a".to_string()], vec!["b".to_string(), "c".to_string()]]
    );
}

#[test]
fn a_nullable_prefix_exposes_left_recursion() {
    assert_eq!(left_cycles_of("a = [\"x\"] a \"y\"\r\n"), vec![vec!["a".to_string()]]);
    assert_eq!(left_cycles_of("a = \"\" a \"y\"\r\n"), vec![vec!["a".to_string()]]);
    assert_eq!(left_cycles_of("a = *\"x\" b\r\nb = a / \"y\"\r\n"), vec![vec!["a".to_string(), "b".to_string()]]);
}

#[test]
fn consumed_input_or_a_zero_repetition_breaks_the_cycle() {
    assert!(left_cycles_of("a = \"x\" a / \"y\"\r\n").is_empty());
    assert!(left_cycles_of("a = *0(a) \"x\"\r\n").is_empty());
    assert!(left_cycles_of("a = <prose> a / \"y\"\r\n").is_empty());
}

#[test]
fn left_recursion_message_joins_the_cycle() {
    let g = Grammar::parse("a = b\r\nb = a\r\n").expect("parses");
    let errors = match g.check() {
        Ok(_) => panic!("left-recursive grammar checked"),
        Err(errors) => errors,
    };
    assert_eq!(errors.len(), 1);
    assert_eq!(errors[0].to_string(), "left recursion: a -> b");
}

#[test]
fn user_rules_come_in_the_order_of_their_first_definitions() {
    let g = check("zeta = \"1\" alpha\r\nalpha = \"2\"\r\nZETA =/ \"3\"\r\nmid = alpha\r\n");
    let names: Vec<&str> = g.rules().iter().map(|r| r.name.as_str()).collect();
    assert_eq!(names, vec!["zeta", "alpha", "mid"]);
}
