//! RFC 5234 Appendix B.1 core rules, as an implicit grammar.
//!
//! Always available, never configurable. The rules are kept twice: as the ABNF text of the
//! appendix, and as the grammar that text parses to, built here definition by definition so
//! that `check` can rely on what the environment holds. A test holds the two together.
//!
//! Resolution is hygienic: a reference inside a core rule body resolves against core rules
//! only, so a user's `DIGIT = "x"` changes what *their* `DIGIT` means without redefining
//! `HEXDIG`, `LWSP` and everything downstream. That is `check`'s job; this module only
//! supplies the environment.
use vstd::prelude::*;

use crate::ast::{
    element_size, elements_size, lemma_elements_size_push, definition_wf, CharVal, DefinedAs, Definition, Element, Grammar, Ignored, NumVal,
    ParseOptions, Repeat, RuleName, Span,
};
use crate::text::fold_case;

verus! {

/// The number of rules in RFC 5234 Appendix B.1.
pub const CORE_RULE_COUNT: usize = 16;

/// RFC 5234 Appendix B.1, verbatim.
pub const CORE_RULES: &'static str = r#"; RFC 5234 Appendix B.1 - Core Rules
; Transcribed from https://www.rfc-editor.org/rfc/rfc5234.txt
; Errata applied: none (no verified erratum touches Appendix B)

ALPHA          =  %x41-5A / %x61-7A   ; A-Z / a-z

BIT            =  "0" / "1"

CHAR           =  %x01-7F
                       ; any 7-bit US-ASCII character,
                       ;  excluding NUL
CR             =  %x0D
                       ; carriage return

CRLF           =  CR LF
                       ; Internet standard newline

CTL            =  %x00-1F / %x7F
                       ; controls

DIGIT          =  %x30-39
                       ; 0-9

DQUOTE         =  %x22
                       ; " (Double Quote)

HEXDIG         =  DIGIT / "A" / "B" / "C" / "D" / "E" / "F"

HTAB           =  %x09
                       ; horizontal tab

LF             =  %x0A
                       ; linefeed

LWSP           =  *(WSP / CRLF WSP)
                       ; Use of this linear-white-space rule
                       ;  permits lines containing only white
                       ;  space that are no longer legal in
                       ;  mail headers and have caused
                       ;  interoperability problems in other
                       ;  contexts.
                       ; Do not use when defining mail
                       ;  headers and use with caution in
                       ;  other contexts.

OCTET          =  %x00-FF
                       ; 8 bits of data

SP             =  %x20

VCHAR          =  %x21-7E
                       ; visible (printing) characters

WSP            =  SP / HTAB
                       ; white space
"#;

/// The names of the core rules, in the order Appendix B lists them.
pub open spec fn core_names() -> Seq<Seq<char>> {
    seq![
        "ALPHA"@, "BIT"@, "CHAR"@, "CR"@, "CRLF"@, "CTL"@, "DIGIT"@, "DQUOTE"@, "HEXDIG"@,
        "HTAB"@, "LF"@, "LWSP"@, "OCTET"@, "SP"@, "VCHAR"@, "WSP"@,
    ]
}

/// Whether `name` names a core rule, ignoring ASCII case.
pub open spec fn spec_is_core_rule(name: Seq<char>) -> bool {
    exists|i: int| 0 <= i < core_names().len() && fold_case(#[trigger] core_names()[i]) == fold_case(name)
}

/// Whether every rule reference inside `e` names, once case is folded, a member of `keys`.
pub open spec fn refs_within(e: Element, keys: Set<Seq<char>>) -> bool
    decreases e,
{
    match e {
        Element::Alt(branches) => forall|i: int|
            0 <= i < branches@.len() ==> refs_within(#[trigger] branches@[i], keys),
        Element::Concat(items) => forall|i: int|
            0 <= i < items@.len() ==> refs_within(#[trigger] items@[i], keys),
        Element::Repeat { body, .. } => refs_within(*body, keys),
        Element::Optional(body) => refs_within(*body, keys),
        Element::RuleRef { name, .. } => keys.contains(fold_case(name@)),
        _ => true,
    }
}

/// Whether every repetition inside `e` has `min <= max` and every numeric range `lo <= hi`.
pub open spec fn bounds_ok(e: Element) -> bool
    decreases e,
{
    match e {
        Element::Alt(branches) => forall|i: int|
            0 <= i < branches@.len() ==> bounds_ok(#[trigger] branches@[i]),
        Element::Concat(items) => forall|i: int|
            0 <= i < items@.len() ==> bounds_ok(#[trigger] items@[i]),
        Element::Repeat { repeat, body, .. } => repeat.spec_is_valid() && bounds_ok(*body),
        Element::Optional(body) => bounds_ok(*body),
        Element::NumVal { value: NumVal::Range { lo, hi }, .. } => lo <= hi,
        _ => true,
    }
}

/// The case-folded names of the core rules.
pub open spec fn core_keys() -> Set<Seq<char>> {
    Set::new(|k: Seq<char>| exists|i: int| 0 <= i < core_names().len() && k == fold_case(#[trigger] core_names()[i]))
}

fn no_span() -> (s: Ignored<Span>)
    ensures
        s.0.start == 0,
        s.0.end == 0,
{
    Ignored(Span::new(0, 0))
}

fn range(lo: u64, hi: u64) -> (e: Element)
    requires
        lo <= hi,
    ensures
        e is NumVal,
        bounds_ok(e),
        element_size(e) == 1,
        refs_within(e, core_keys()),
        element_wf_terminal(e),
{
    Element::NumVal { value: NumVal::Range { lo, hi }, span: no_span() }
}

fn scalar(v: u64) -> (e: Element)
    ensures
        e is NumVal,
        bounds_ok(e),
        element_size(e) == 1,
        refs_within(e, core_keys()),
        element_wf_terminal(e),
{
    Element::NumVal { value: NumVal::Scalar(v), span: no_span() }
}

fn lit(s: &str) -> (e: Element)
    requires
        s@.len() == 1,
        crate::ast::is_quoted_char(s@[0]),
    ensures
        e is CharVal,
        e->CharVal_0.value@ == s@,
        !e->CharVal_0.case_sensitive,
        bounds_ok(e),
        element_size(e) == 1,
        refs_within(e, core_keys()),
        element_wf_terminal(e),
{
    Element::CharVal(CharVal { value: s.to_owned(), case_sensitive: false })
}

fn rref(name: &str) -> (e: Element)
    requires
        core_keys().contains(fold_case(name@)),
    ensures
        e is RuleRef,
        e->RuleRef_name@ == name@,
        bounds_ok(e),
        element_size(e) == 1,
        refs_within(e, core_keys()),
{
    Element::RuleRef { name: RuleName::new(name), span: no_span() }
}

/// A terminal that is in canonical form.
pub open spec fn element_wf_terminal(e: Element) -> bool {
    crate::ast::element_wf(e) && !(e is Alt) && !(e is Concat)
}

fn def(name: &str, body: Element) -> (d: Definition)
    ensures
        d.name@ == name@,
        d.defined_as == DefinedAs::Base,
        d.body == body,
{
    Definition { name: RuleName::new(name), defined_as: DefinedAs::Base, body, span: no_span() }
}

/// Whether every element of `s` references core rules only and has valid bounds.
pub open spec fn all_core_ok(s: Seq<Element>) -> bool {
    forall|i: int| 0 <= i < s.len() ==> refs_within(#[trigger] s[i], core_keys()) && bounds_ok(s[i])
}

fn put(v: &mut Vec<Element>, e: Element)
    ensures
        final(v)@ == old(v)@.push(e),
        elements_size(final(v)@) == elements_size(old(v)@) + element_size(e),
        all_core_ok(old(v)@) && refs_within(e, core_keys()) && bounds_ok(e) ==> all_core_ok(
            final(v)@,
        ),
{
    proof {
        lemma_elements_size_push(v@, e);
    }
    v.push(e);
}

/// Whether `s` holds the first `s.len()` core definitions, each referencing core rules only
/// and with valid bounds.
pub open spec fn core_defs_ok(s: Seq<Definition>) -> bool {
    forall|i: int|
        0 <= i < s.len() ==> {
            &&& (#[trigger] s[i]).name@ == core_names()[i]
            &&& s[i].defined_as == DefinedAs::Base
            &&& refs_within(s[i].body, core_keys())
            &&& bounds_ok(s[i].body)
            &&& element_size(s[i].body) <= 16
        }
}

fn put_def(v: &mut Vec<Definition>, name: &str, body: Element)
    requires
        old(v)@.len() < CORE_RULE_COUNT,
        name@ == core_names()[old(v)@.len() as int],
        refs_within(body, core_keys()),
        bounds_ok(body),
        element_size(body) <= 16,
        core_defs_ok(old(v)@),
    ensures
        final(v)@.len() == old(v)@.len() + 1,
        core_defs_ok(final(v)@),
{
    v.push(def(name, body));
}

/// The core-rule environment: the grammar [`CORE_RULES`] parses to.
pub fn core_grammar() -> (g: Grammar)
    ensures
        g.spec_definitions().len() == CORE_RULE_COUNT,
        forall|i: int|
            0 <= i < CORE_RULE_COUNT ==> {
                &&& (#[trigger] g.spec_definitions()[i]).name@ == core_names()[i]
                &&& g.spec_definitions()[i].defined_as == DefinedAs::Base
                &&& refs_within(g.spec_definitions()[i].body, core_keys())
                &&& bounds_ok(g.spec_definitions()[i].body)
                &&& element_size(g.spec_definitions()[i].body) <= 16
            },
        !g.spec_parse_options().strict_crlf,
{
    assert(core_keys().contains(fold_case("CR"@))) by {
        assert(core_names()[3] == "CR"@);
    }
    assert(core_keys().contains(fold_case("LF"@))) by {
        assert(core_names()[10] == "LF"@);
    }
    assert(core_keys().contains(fold_case("DIGIT"@))) by {
        assert(core_names()[6] == "DIGIT"@);
    }
    assert(core_keys().contains(fold_case("WSP"@))) by {
        assert(core_names()[15] == "WSP"@);
    }
    assert(core_keys().contains(fold_case("CRLF"@))) by {
        assert(core_names()[4] == "CRLF"@);
    }
    assert(core_keys().contains(fold_case("SP"@))) by {
        assert(core_names()[13] == "SP"@);
    }
    assert(core_keys().contains(fold_case("HTAB"@))) by {
        assert(core_names()[9] == "HTAB"@);
    }
    proof {
        reveal_strlit("0");
        reveal_strlit("1");
        reveal_strlit("A");
        reveal_strlit("B");
        reveal_strlit("C");
        reveal_strlit("D");
        reveal_strlit("E");
        reveal_strlit("F");
    }
    let ghost k = core_keys();
    let mut v = Vec::new();
    assert(elements_size(v@) == 0);
    put(&mut v, range(0x41, 0x5A));
    put(&mut v, range(0x61, 0x7A));
    let alpha = Element::Alt(v);
    let mut v = Vec::new();
    proof { assert(elements_size(Seq::<Element>::empty()) == 0); }
    put(&mut v, lit("0"));
    put(&mut v, lit("1"));
    let bit = Element::Alt(v);
    let mut v = Vec::new();
    proof { assert(elements_size(Seq::<Element>::empty()) == 0); }
    put(&mut v, rref("CR"));
    put(&mut v, rref("LF"));
    let crlf = Element::Concat(v);
    let mut v = Vec::new();
    proof { assert(elements_size(Seq::<Element>::empty()) == 0); }
    put(&mut v, range(0x00, 0x1F));
    put(&mut v, scalar(0x7F));
    let ctl = Element::Alt(v);
    let mut v = Vec::new();
    proof { assert(elements_size(Seq::<Element>::empty()) == 0); }
    put(&mut v, rref("DIGIT"));
    put(&mut v, lit("A"));
    put(&mut v, lit("B"));
    put(&mut v, lit("C"));
    put(&mut v, lit("D"));
    put(&mut v, lit("E"));
    put(&mut v, lit("F"));
    let hexdig = Element::Alt(v);
    let mut v = Vec::new();
    proof { assert(elements_size(Seq::<Element>::empty()) == 0); }
    put(&mut v, rref("CRLF"));
    put(&mut v, rref("WSP"));
    let crlf_wsp = Element::Concat(v);
    let mut v = Vec::new();
    proof { assert(elements_size(Seq::<Element>::empty()) == 0); }
    put(&mut v, rref("WSP"));
    put(&mut v, crlf_wsp);
    let lwsp_body = Element::Alt(v);
    assert(refs_within(lwsp_body, k) && bounds_ok(lwsp_body));
    assert(element_size(crlf_wsp) == 3);
    assert(element_size(lwsp_body) == 5);
    let lwsp = Element::Repeat {
        repeat: Repeat::at_least(0),
        body: Box::new(lwsp_body),
        span: no_span(),
    };
    let mut v = Vec::new();
    proof { assert(elements_size(Seq::<Element>::empty()) == 0); }
    put(&mut v, rref("SP"));
    put(&mut v, rref("HTAB"));
    let wsp = Element::Alt(v);
    let char_ = range(0x01, 0x7F);
    let cr = scalar(0x0D);
    let digit = range(0x30, 0x39);
    let dquote = scalar(0x22);
    let htab = scalar(0x09);
    let lf = scalar(0x0A);
    let octet = range(0x00, 0xFF);
    let sp = scalar(0x20);
    let vchar = range(0x21, 0x7E);
    let mut defs: Vec<Definition> = Vec::new();
    put_def(&mut defs, "ALPHA", alpha);
    put_def(&mut defs, "BIT", bit);
    put_def(&mut defs, "CHAR", char_);
    put_def(&mut defs, "CR", cr);
    put_def(&mut defs, "CRLF", crlf);
    put_def(&mut defs, "CTL", ctl);
    put_def(&mut defs, "DIGIT", digit);
    put_def(&mut defs, "DQUOTE", dquote);
    put_def(&mut defs, "HEXDIG", hexdig);
    put_def(&mut defs, "HTAB", htab);
    put_def(&mut defs, "LF", lf);
    put_def(&mut defs, "LWSP", lwsp);
    put_def(&mut defs, "OCTET", octet);
    put_def(&mut defs, "SP", sp);
    put_def(&mut defs, "VCHAR", vchar);
    put_def(&mut defs, "WSP", wsp);
    let g = Grammar::new(defs, ParseOptions { strict_crlf: false });
    g
}

/// Whether `name` names a core rule, ignoring ASCII case.
pub fn is_core_rule(name: &str) -> (r: bool)
    ensures
        r == spec_is_core_rule(name@),
{
    let probe = RuleName::new(name);
    let core = core_grammar();
    let defs = core.definitions();
    let mut i: usize = 0;
    while i < defs.len()
        invariant
            defs@ == core.spec_definitions(),
            defs@.len() == CORE_RULE_COUNT,
            probe@ == name@,
            i <= defs@.len(),
            forall|j: int| 0 <= j < CORE_RULE_COUNT ==> (#[trigger] defs@[j]).name@ == core_names()[j],
            forall|j: int| 0 <= j < i ==> fold_case(#[trigger] core_names()[j]) != fold_case(name@),
        decreases defs@.len() - i,
    {
        assert(defs@[i as int].name@ == core_names()[i as int]);
        if defs[i].name.same_rule(&probe) {
            assert(fold_case(core_names()[i as int]) == fold_case(name@));
            return true;
        }
        i = i + 1;
    }
    false
}

} // verus!
