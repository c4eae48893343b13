//! Canonical serialization.
//!
//! One definition per line, single spaces, CRLF endings, `%x` for every numeric value. The
//! printed form of a grammar parses back to an equal grammar, so this module and the
//! grammar's equality have to agree about what a grammar *is*: anything the printer drops
//! must be something equality ignores. Comments are not preserved.
//!
//! # Parentheses
//!
//! The printer emits a group exactly when dropping it would change the parse. An alternation
//! needs parentheses inside a concatenation or a repetition; a concatenation needs them inside
//! a repetition, since `*a b` is `(*a) b`; a repetition needs them inside a repetition, since
//! ABNF has no `**a`. Everything else — a concatenation in an alternation branch, anything
//! inside `[...]` — stands bare.
//!
//! Every printer here is stated by a spec function ([`element_text`], [`definition_text`],
//! [`grammar_text`], [`checked_text`]) and proved to produce exactly that text.
use vstd::prelude::*;

use crate::ast::{
    CharVal, DefinedAs, Definition, Element, Grammar, Ignored, Node, NodeId, NumVal, Repeat, Rule, Span,
};
use crate::check::CheckedGrammar;
use crate::error::{decimal, hex, hex_len_is_odd, push_decimal, push_hex};
use crate::text::push_char;

verus! {

/// Where an element sits, which decides whether it needs parentheses.
#[derive(Clone, Copy, Debug, PartialEq, Eq, Structural)]
pub enum Context {
    /// A rule body, an alternation branch, or inside `(...)` or `[...]`: nothing needs
    /// parentheses, because the surrounding construct already delimits it.
    Free,
    /// An item of a concatenation.
    Concat,
    /// The body of a repetition, which the grammar restricts to a single element.
    Repeat,
}

/// Whether `e` must be parenthesized where `c` puts it.
pub open spec fn needs_parens(e: Element, c: Context) -> bool {
    match c {
        Context::Free => false,
        Context::Concat => e is Alt,
        Context::Repeat => e is Alt || e is Concat || e is Repeat,
    }
}

/// `n` in uppercase hexadecimal, zero-padded to an even number of digits.
pub open spec fn padded_hex(n: nat) -> Seq<char> {
    if hex(n).len() % 2 == 1 {
        seq!['0'] + hex(n)
    } else {
        hex(n)
    }
}

/// The spelling of repetition bounds: never `0*n`, and `n` alone for an exact count.
pub open spec fn repeat_text(r: Repeat) -> Seq<char> {
    match r.max {
        None => if r.min == 0 {
            seq!['*']
        } else {
            decimal(r.min as nat).push('*')
        },
        Some(max) => if r.min == 0 {
            seq!['*'] + decimal(max as nat)
        } else if r.min == max {
            decimal(r.min as nat)
        } else {
            decimal(r.min as nat).push('*') + decimal(max as nat)
        },
    }
}

/// A quoted string: `%s"..."` when case-sensitive, bare `"..."` otherwise.
pub open spec fn char_val_text(cv: CharVal) -> Seq<char> {
    let quoted = seq!['"'] + cv.value@ + seq!['"'];
    if cv.case_sensitive {
        seq!['%', 's'] + quoted
    } else {
        quoted
    }
}

/// Padded hexadecimal values joined by dots.
pub open spec fn dotted_hex(values: Seq<u64>) -> Seq<char>
    decreases values.len(),
{
    if values.len() == 0 {
        Seq::empty()
    } else if values.len() == 1 {
        padded_hex(values[0] as nat)
    } else {
        dotted_hex(values.subrange(0, values.len() - 1)).push('.') + padded_hex(
            values[values.len() - 1] as nat,
        )
    }
}

/// A numeric terminal: `%x` and padded hexadecimal, whatever radix it was written in.
pub open spec fn num_val_text(v: NumVal) -> Seq<char> {
    seq!['%', 'x'] + match v {
        NumVal::Scalar(x) => padded_hex(x as nat),
        NumVal::Range { lo, hi } => padded_hex(lo as nat).push('-') + padded_hex(hi as nat),
        NumVal::Concat(values) => dotted_hex(values@),
    }
}

/// The canonical text of element `e` where context `c` puts it.
pub open spec fn element_text(e: Element, c: Context) -> Seq<char>
    decreases e, 1nat,
{
    if needs_parens(e, c) {
        seq!['('] + bare_text(e) + seq![')']
    } else {
        bare_text(e)
    }
}

/// The canonical text of element `e`, without surrounding parentheses.
pub open spec fn bare_text(e: Element) -> Seq<char>
    decreases e, 0nat,
{
    match e {
        Element::Alt(branches) => joined_text(branches@, " / "@, Context::Free),
        Element::Concat(items) => joined_text(items@, " "@, Context::Concat),
        Element::Repeat { repeat, body, .. } => repeat_text(repeat) + element_text(
            *body,
            Context::Repeat,
        ),
        Element::Optional(body) => seq!['['] + element_text(*body, Context::Free) + seq![']'],
        Element::RuleRef { name, .. } => name@,
        Element::CharVal(cv) => char_val_text(cv),
        Element::NumVal { value, .. } => num_val_text(value),
        Element::ProseVal { text, .. } => seq!['<'] + text@ + seq!['>'],
    }
}

/// The texts of `s` in context `c`, separated by `sep`.
pub open spec fn joined_text(s: Seq<Element>, sep: Seq<char>, c: Context) -> Seq<char>
    decreases s, 0nat,
{
    if s.len() == 0 {
        Seq::empty()
    } else if s.len() == 1 {
        element_text(s[0], c)
    } else {
        joined_text(s.subrange(0, s.len() - 1), sep, c) + sep + element_text(s[s.len() - 1], c)
    }
}

/// One definition: its name as written, `=` or `=/`, and its body.
pub open spec fn definition_text(d: Definition) -> Seq<char> {
    let op = match d.defined_as {
        DefinedAs::Base => " = "@,
        DefinedAs::Incremental => " =/ "@,
    };
    d.name@ + op + element_text(d.body, Context::Free)
}

/// Definitions, each on a line of its own ending in CRLF.
pub open spec fn definitions_text(defs: Seq<Definition>) -> Seq<char>
    decreases defs.len(),
{
    if defs.len() == 0 {
        Seq::empty()
    } else {
        definitions_text(defs.subrange(0, defs.len() - 1)) + definition_text(defs[defs.len() - 1])
            + "\r\n"@
    }
}

/// A grammar: its definitions as written, one per line; a single blank line when it has
/// none, the only text ABNF has for "no rules".
pub open spec fn grammar_text(defs: Seq<Definition>) -> Seq<char> {
    if defs.len() == 0 {
        "\r\n"@
    } else {
        definitions_text(defs)
    }
}

/// Whether node `n` must be parenthesized where context `c` puts it.
pub open spec fn node_needs_parens(n: Node, c: Context) -> bool {
    match c {
        Context::Free => false,
        Context::Concat => n is Alt,
        Context::Repeat => n is Alt || n is Concat || n is Repeat,
    }
}

/// The canonical text of node `m` of an arena where context `c` puts it: the same text
/// [`element_text`] gives the element the node was lowered from.
pub open spec fn node_text(nodes: Seq<Node>, m: int, c: Context) -> Seq<char>
    decreases nodes.len() - m, 2nat, 0nat,
{
    if !(0 <= m < nodes.len()) {
        Seq::empty()
    } else if node_needs_parens(nodes[m], c) {
        seq!['('] + node_bare(nodes, m) + seq![')']
    } else {
        node_bare(nodes, m)
    }
}

/// The text of the child `child` of node `m`, which lies after it in the arena.
pub open spec fn child_text(nodes: Seq<Node>, m: int, child: NodeId, c: Context) -> Seq<char>
    decreases nodes.len() - m, 0nat, 0nat,
{
    if 0 <= m < child.spec_index() < nodes.len() {
        node_text(nodes, child.spec_index() as int, c)
    } else {
        Seq::empty()
    }
}

/// The canonical text of node `m` of an arena, without surrounding parentheses.
pub open spec fn node_bare(nodes: Seq<Node>, m: int) -> Seq<char>
    decreases nodes.len() - m, 1nat, 0nat,
{
    if !(0 <= m < nodes.len()) {
        Seq::empty()
    } else {
        match nodes[m] {
            Node::Alt { branches } => ids_text(nodes, m, branches@, " / "@, Context::Free),
            Node::Concat { items } => ids_text(nodes, m, items@, " "@, Context::Concat),
            Node::Repeat { repeat, body, .. } => repeat_text(repeat) + child_text(
                nodes,
                m,
                body,
                Context::Repeat,
            ),
            Node::Optional { body } => seq!['['] + child_text(nodes, m, body, Context::Free)
                + seq![']'],
            Node::RuleRef { name, .. } => name@,
            Node::CharVal(cv) => char_val_text(cv),
            Node::NumVal { value, .. } => num_val_text(value),
            Node::ProseVal(text) => seq!['<'] + text@ + seq!['>'],
        }
    }
}

/// The texts of the children `ids` of node `m` in context `c`, separated by `sep`.
pub open spec fn ids_text(nodes: Seq<Node>, m: int, ids: Seq<NodeId>, sep: Seq<char>, c: Context) -> Seq<char>
    decreases nodes.len() - m, 0nat, ids.len(),
{
    if ids.len() == 0 {
        Seq::empty()
    } else if ids.len() == 1 {
        child_text(nodes, m, ids[0], c)
    } else {
        ids_text(nodes, m, ids.subrange(0, ids.len() - 1), sep, c) + sep + child_text(
            nodes,
            m,
            ids[ids.len() - 1],
            c,
        )
    }
}

/// Whether node `k`'s children all lie after it and before `b`.
pub open spec fn children_within(n: Node, k: int, b: int) -> bool {
    match n {
        Node::Alt { branches } => forall|i: int|
            0 <= i < branches@.len() ==> k < (#[trigger] branches@[i]).spec_index() < b,
        Node::Concat { items } => forall|i: int|
            0 <= i < items@.len() ==> k < (#[trigger] items@[i]).spec_index() < b,
        Node::Repeat { body, .. } => k < body.spec_index() < b,
        Node::Optional { body } => k < body.spec_index() < b,
        _ => true,
    }
}

/// Whether the nodes from `a` up to `b` form a closed stretch of the arena: every child of
/// one of them lies after it and before `b`.
pub open spec fn closed(nodes: Seq<Node>, a: int, b: int) -> bool {
    &&& 0 <= a <= b <= nodes.len()
    &&& forall|k: int| a <= k < b ==> children_within(#[trigger] nodes[k], k, b)
}

/// Whether two arenas hold the same nodes from `a` up to `b`.
pub open spec fn agree(n1: Seq<Node>, n2: Seq<Node>, a: int, b: int) -> bool {
    &&& b <= n1.len()
    &&& b <= n2.len()
    &&& forall|k: int| a <= k < b ==> #[trigger] n2[k] == n1[k]
}

/// Two closed stretches, the first carried over unchanged, make one.
pub proof fn lemma_closed_join(n1: Seq<Node>, n2: Seq<Node>, a: int, m: int, b: int)
    requires
        closed(n1, a, m),
        agree(n1, n2, a, m),
        closed(n2, m, b),
    ensures
        closed(n2, a, b),
{
    assert forall|k: int| a <= k < b implies children_within(#[trigger] n2[k], k, b) by {
        if k < m {
            assert(n2[k] == n1[k]);
            assert(children_within(n1[k], k, m));
        }
    }
}

/// The text of a node in a closed stretch depends only on the stretch.
pub proof fn lemma_node_text_frame(n1: Seq<Node>, n2: Seq<Node>, a: int, b: int, k: int, c: Context)
    requires
        closed(n1, a, b),
        agree(n1, n2, a, b),
        a <= k < b,
    ensures
        node_text(n2, k, c) == node_text(n1, k, c),
        node_bare(n2, k) == node_bare(n1, k),
    decreases b - k, 1nat,
{
    assert(n2[k] == n1[k]);
    assert(children_within(n1[k], k, b));
    match n1[k] {
        Node::Alt { branches } => {
            lemma_ids_text_frame(n1, n2, a, b, k, branches@, " / "@, Context::Free, branches@.len() as int);
            assert(branches@.subrange(0, branches@.len() as int) =~= branches@);
        },
        Node::Concat { items } => {
            lemma_ids_text_frame(n1, n2, a, b, k, items@, " "@, Context::Concat, items@.len() as int);
            assert(items@.subrange(0, items@.len() as int) =~= items@);
        },
        Node::Repeat { body, .. } => {
            lemma_node_text_frame(n1, n2, a, b, body.spec_index() as int, Context::Repeat);
        },
        Node::Optional { body } => {
            lemma_node_text_frame(n1, n2, a, b, body.spec_index() as int, Context::Free);
        },
        _ => {},
    }
}

/// [`lemma_node_text_frame`] for the first `m` children of node `k`.
proof fn lemma_ids_text_frame(
    n1: Seq<Node>,
    n2: Seq<Node>,
    a: int,
    b: int,
    k: int,
    ids: Seq<NodeId>,
    sep: Seq<char>,
    c: Context,
    m: int,
)
    requires
        closed(n1, a, b),
        agree(n1, n2, a, b),
        a <= k < b,
        0 <= m <= ids.len(),
        forall|i: int| 0 <= i < ids.len() ==> k < (#[trigger] ids[i]).spec_index() < b,
    ensures
        ids_text(n2, k, ids.subrange(0, m), sep, c) == ids_text(n1, k, ids.subrange(0, m), sep, c),
    decreases b - k, 0nat, m,
{
    if m > 0 {
        lemma_ids_text_frame(n1, n2, a, b, k, ids, sep, c, m - 1);
        let t = ids.subrange(0, m);
        assert(t.subrange(0, m - 1) =~= ids.subrange(0, m - 1));
        assert(t[m - 1] == ids[m - 1]);
        lemma_node_text_frame(n1, n2, a, b, ids[m - 1].spec_index() as int, c);
        assert(child_text(n2, k, ids[m - 1], c) == child_text(n1, k, ids[m - 1], c));
    }
}

/// Merged rules, one per line: name, ` = `, body, CRLF.
pub open spec fn rules_text(nodes: Seq<Node>, rules: Seq<Rule>) -> Seq<char>
    decreases rules.len(),
{
    if rules.len() == 0 {
        Seq::empty()
    } else {
        let r = rules[rules.len() - 1];
        rules_text(nodes, rules.subrange(0, rules.len() - 1)) + r.name@ + " = "@ + node_text(
            nodes,
            r.body.spec_index() as int,
            Context::Free,
        ) + "\r\n"@
    }
}

/// A checked grammar: its user rules, merged, in first-definition order. The implicit core
/// rules are never printed: they are the resolution environment, not part of the grammar.
pub open spec fn checked_text(g: CheckedGrammar) -> Seq<char> {
    if g.spec_user_rules() == 0 {
        "\r\n"@
    } else {
        rules_text(g.spec_nodes(), g.spec_rules().subrange(0, g.spec_user_rules() as int))
    }
}

/// Appends `n` in padded uppercase hexadecimal.
fn write_padded_hex(out: &mut String, n: u64)
    ensures
        final(out)@ == old(out)@ + padded_hex(n as nat),
{
    let ghost start = out@;
    if hex_len_is_odd(n) {
        push_char(out, '0');
    }
    push_hex(out, n);
    assert(out@ =~= start + padded_hex(n as nat));
}

/// Appends the spelling of repetition bounds.
fn write_repeat(out: &mut String, r: Repeat)
    ensures
        final(out)@ == old(out)@ + repeat_text(r),
{
    let ghost start = out@;
    match r.max {
        None => {
            if r.min != 0 {
                push_decimal(out, r.min);
            }
            push_char(out, '*');
        },
        Some(max) => {
            if r.min == 0 {
                push_char(out, '*');
                push_decimal(out, max);
            } else if r.min == max {
                push_decimal(out, r.min);
            } else {
                push_decimal(out, r.min);
                push_char(out, '*');
                push_decimal(out, max);
            }
        },
    }
    assert(out@ =~= start + repeat_text(r));
}

/// Appends a quoted string.
fn write_char_val(out: &mut String, cv: &CharVal)
    ensures
        final(out)@ == old(out)@ + char_val_text(*cv),
{
    let ghost start = out@;
    if cv.case_sensitive {
        push_char(out, '%');
        push_char(out, 's');
    }
    push_char(out, '"');
    out.append(cv.value.as_str());
    push_char(out, '"');
    assert(out@ =~= start + char_val_text(*cv));
}

/// Appends a numeric terminal.
pub(crate) fn write_num_val(out: &mut String, v: &NumVal)
    ensures
        final(out)@ == old(out)@ + num_val_text(*v),
{
    let ghost start = out@;
    push_char(out, '%');
    push_char(out, 'x');
    let ghost after = out@;
    match v {
        NumVal::Scalar(x) => {
            write_padded_hex(out, *x);
        },
        NumVal::Range { lo, hi } => {
            write_padded_hex(out, *lo);
            push_char(out, '-');
            write_padded_hex(out, *hi);
        },
        NumVal::Concat(values) => {
            let mut i: usize = 0;
            while i < values.len()
                invariant
                    i <= values@.len(),
                    out@ == after + dotted_hex(values@.subrange(0, i as int)),
                decreases values.len() - i,
            {
                let ghost before = out@;
                if i > 0 {
                    push_char(out, '.');
                }
                write_padded_hex(out, values[i]);
                proof {
                    let t = values@.subrange(0, i + 1);
                    assert(t.subrange(0, i as int) =~= values@.subrange(0, i as int));
                    if i == 0 {
                        assert(out@ =~= after + dotted_hex(t));
                    } else {
                        assert(out@ =~= after + dotted_hex(t));
                    }
                }
                i = i + 1;
            }
            assert(values@.subrange(0, values@.len() as int) =~= values@);
        },
    }
    assert(out@ =~= start + num_val_text(*v));
}

/// Whether `e` must be parenthesized where context `c` puts it.
fn parens_needed(e: &Element, c: Context) -> (b: bool)
    ensures
        b == needs_parens(*e, c),
{
    match c {
        Context::Free => false,
        Context::Concat => match e {
            Element::Alt(_) => true,
            _ => false,
        },
        Context::Repeat => match e {
            Element::Alt(_) => true,
            Element::Concat(_) => true,
            Element::Repeat { .. } => true,
            _ => false,
        },
    }
}

/// The text of the first `i + 1` elements of `s`, from that of the first `i`.
proof fn lemma_joined_step(s: Seq<Element>, sep: Seq<char>, c: Context, i: int)
    requires
        0 <= i < s.len(),
    ensures
        joined_text(s.subrange(0, i + 1), sep, c) == if i == 0 {
            element_text(s[0], c)
        } else {
            joined_text(s.subrange(0, i), sep, c) + sep + element_text(s[i], c)
        },
{
    let t = s.subrange(0, i + 1);
    assert(t.subrange(0, i) =~= s.subrange(0, i));
    assert(t[i] == s[i]);
}

/// Appends the text of `e` where context `c` puts it.
fn write_element(out: &mut String, e: &Element, c: Context)
    ensures
        final(out)@ == old(out)@ + element_text(*e, c),
    decreases e, 1nat,
{
    let ghost start = out@;
    if parens_needed(e, c) {
        push_char(out, '(');
        write_bare(out, e);
        push_char(out, ')');
    } else {
        write_bare(out, e);
    }
    assert(out@ =~= start + element_text(*e, c));
}

/// Appends the elements of `elems` in context `c`, separated by `sep`.
fn write_joined(out: &mut String, elems: &Vec<Element>, sep: &str, c: Context)
    ensures
        final(out)@ == old(out)@ + joined_text(elems@, sep@, c),
    decreases elems@, 0nat,
{
    let ghost start = out@;
    let mut i: usize = 0;
    while i < elems.len()
        invariant
            i <= elems@.len(),
            out@ == start + joined_text(elems@.subrange(0, i as int), sep@, c),
        decreases elems.len() - i,
    {
        if i > 0 {
            out.append(sep);
        }
        assert(decreases_to!(elems@ => elems@[i as int]));
        write_element(out, &elems[i], c);
        proof {
            lemma_joined_step(elems@, sep@, c, i as int);
        }
        i = i + 1;
    }
    assert(elems@.subrange(0, elems@.len() as int) =~= elems@);
}

/// Appends the text of `e`, without surrounding parentheses.
fn write_bare(out: &mut String, e: &Element)
    ensures
        final(out)@ == old(out)@ + bare_text(*e),
    decreases e, 0nat,
{
    let ghost start = out@;
    match e {
        Element::Alt(branches) => {
            write_joined(out, branches, " / ", Context::Free);
        },
        Element::Concat(items) => {
            write_joined(out, items, " ", Context::Concat);
        },
        Element::Repeat { repeat, body, .. } => {
            write_repeat(out, *repeat);
            write_element(out, &**body, Context::Repeat);
        },
        Element::Optional(body) => {
            push_char(out, '[');
            write_element(out, &**body, Context::Free);
            push_char(out, ']');
        },
        Element::RuleRef { name, .. } => {
            out.append(name.as_str());
        },
        Element::CharVal(cv) => {
            write_char_val(out, cv);
        },
        Element::NumVal { value, .. } => {
            write_num_val(out, value);
        },
        Element::ProseVal { text, .. } => {
            push_char(out, '<');
            out.append(text.as_str());
            push_char(out, '>');
        },
    }
    assert(out@ =~= start + bare_text(*e));
}

impl Element {
    /// The canonical text of this element, standing alone.
    pub fn to_string(&self) -> (s: String)
        ensures
            s@ == element_text(*self, Context::Free),
    {
        let mut s = String::new();
        write_element(&mut s, self, Context::Free);
        assert(s@ =~= element_text(*self, Context::Free));
        s
    }
}

/// Appends one definition, without its line ending.
fn write_definition(out: &mut String, d: &Definition)
    ensures
        final(out)@ == old(out)@ + definition_text(*d),
{
    let ghost start = out@;
    out.append(d.name.as_str());
    match d.defined_as {
        DefinedAs::Base => out.append(" = "),
        DefinedAs::Incremental => out.append(" =/ "),
    }
    write_element(out, &d.body, Context::Free);
    assert(out@ =~= start + definition_text(*d));
}

impl Definition {
    /// The canonical text of this definition: name, `=` or `=/`, body; no line ending.
    pub fn to_string(&self) -> (s: String)
        ensures
            s@ == definition_text(*self),
    {
        let mut s = String::new();
        write_definition(&mut s, self);
        assert(s@ =~= definition_text(*self));
        s
    }
}

impl Grammar {
    /// The canonical text of this grammar: the definitions as written, one per line, every
    /// line ending in CRLF. `=/` is not merged here.
    pub fn to_string(&self) -> (s: String)
        ensures
            s@ == grammar_text(self.spec_definitions()),
    {
        let defs = self.definitions();
        let mut s = String::new();
        if defs.len() == 0 {
            s.append("\r\n");
            return s;
        }
        let mut i: usize = 0;
        while i < defs.len()
            invariant
                i <= defs@.len(),
                defs@ == self.spec_definitions(),
                s@ == definitions_text(defs@.subrange(0, i as int)),
            decreases defs.len() - i,
        {
            write_definition(&mut s, &defs[i]);
            s.append("\r\n");
            proof {
                let t = defs@.subrange(0, i + 1);
                assert(t.subrange(0, i as int) =~= defs@.subrange(0, i as int));
                assert(s@ =~= definitions_text(t));
            }
            i = i + 1;
        }
        assert(defs@.subrange(0, defs@.len() as int) =~= defs@);
        s
    }
}

/// The elements of `v` print as the children `ids` of node `m` do, context by context.
pub proof fn lemma_joined_ids(
    nodes: Seq<Node>,
    m: int,
    v: Seq<Element>,
    ids: Seq<NodeId>,
    sep: Seq<char>,
    c: Context,
)
    requires
        v.len() == ids.len(),
        forall|k: int| 0 <= k < v.len() ==> #[trigger] element_text(v[k], c) == child_text(nodes, m, ids[k], c),
    ensures
        joined_text(v, sep, c) == ids_text(nodes, m, ids, sep, c),
    decreases v.len(),
{
    if v.len() > 1 {
        let vp = v.subrange(0, v.len() - 1);
        let ip = ids.subrange(0, ids.len() - 1);
        assert forall|k: int| 0 <= k < vp.len() implies #[trigger] element_text(vp[k], c) == child_text(nodes, m, ip[k], c) by {
            assert(element_text(v[k], c) == child_text(nodes, m, ids[k], c));
        }
        lemma_joined_ids(nodes, m, vp, ip, sep, c);
        assert(element_text(v[v.len() - 1], c) == child_text(nodes, m, ids[ids.len() - 1], c));
    } else if v.len() == 1 {
        assert(element_text(v[0], c) == child_text(nodes, m, ids[0], c));
    }
}

impl CheckedGrammar {
    /// The element node `id` was lowered from, rebuilt from the arena: in every context it
    /// prints exactly as the node does. Source positions of prose values are not kept in the
    /// arena and come back empty.
    pub(crate) fn element_at(&self, id: NodeId) -> (e: Element)
        requires
            id.spec_index() < self.spec_nodes().len(),
        ensures
            forall|c: Context| #[trigger] element_text(e, c) == node_text(self.spec_nodes(), id.spec_index() as int, c),
        decreases self.spec_nodes().len() - id.spec_index(), 1nat,
    {
        proof {
            use_type_invariant(self);
            crate::language::lemma_children_below(*self, id.spec_index() as int);
            assert(crate::check::node_ok(
                self.spec_nodes(),
                self.spec_resolved(),
                self.spec_names(),
                self.spec_user_rules(),
                self.spec_user_nodes(),
                id.spec_index() as int,
            ));
        }
        let ghost nodes = self.spec_nodes();
        let ghost m = id.spec_index() as int;
        let e = match self.node(id) {
            Node::Alt { branches } => {
                let v = self.elements_at(id, branches);
                let e = Element::Alt(v);
                proof {
                    assert forall|c: Context| #[trigger] element_text(e, c) == node_text(nodes, m, c) by {
                        lemma_joined_ids(nodes, m, v@, branches@, " / "@, Context::Free);
                    }
                }
                e
            },
            Node::Concat { items } => {
                let v = self.elements_at(id, items);
                let e = Element::Concat(v);
                proof {
                    assert forall|c: Context| #[trigger] element_text(e, c) == node_text(nodes, m, c) by {
                        lemma_joined_ids(nodes, m, v@, items@, " "@, Context::Concat);
                    }
                }
                e
            },
            Node::Repeat { repeat, body, span } => {
                let inner = self.element_at(*body);
                let e = Element::Repeat { repeat: *repeat, body: Box::new(inner), span: *span };
                proof {
                    assert forall|c: Context| #[trigger] element_text(e, c) == node_text(nodes, m, c) by {
                        assert(element_text(inner, Context::Repeat) == node_text(nodes, body.spec_index() as int, Context::Repeat));
                    }
                }
                e
            },
            Node::Optional { body } => {
                let inner = self.element_at(*body);
                let e = Element::Optional(Box::new(inner));
                proof {
                    assert forall|c: Context| #[trigger] element_text(e, c) == node_text(nodes, m, c) by {
                        assert(element_text(inner, Context::Free) == node_text(nodes, body.spec_index() as int, Context::Free));
                    }
                }
                e
            },
            Node::RuleRef { name, span } => Element::RuleRef { name: name.clone(), span: *span },
            Node::CharVal(cv) => Element::CharVal(cv.clone()),
            Node::NumVal { value, span } => Element::NumVal { value: value.clone(), span: *span },
            Node::ProseVal(text) => Element::ProseVal {
                text: text.clone(),
                span: Ignored(Span::new(0, 0)),
            },
        };
        e
    }

    /// The elements the children `ids` of node `id` were lowered from.
    fn elements_at(&self, id: NodeId, ids: &Vec<NodeId>) -> (v: Vec<Element>)
        requires
            id.spec_index() < self.spec_nodes().len(),
            forall|k: int|
                0 <= k < ids@.len() ==> id.spec_index() < (#[trigger] ids@[k]).spec_index()
                    < self.spec_nodes().len(),
        ensures
            v@.len() == ids@.len(),
            forall|k: int, c: Context|
                0 <= k < v@.len() ==> #[trigger] element_text(v@[k], c) == child_text(
                    self.spec_nodes(),
                    id.spec_index() as int,
                    ids@[k],
                    c,
                ),
        decreases self.spec_nodes().len() - id.spec_index(), 0nat,
    {
        let ghost nodes = self.spec_nodes();
        let ghost m = id.spec_index() as int;
        let mut v: Vec<Element> = Vec::new();
        let mut i: usize = 0;
        while i < ids.len()
            invariant
                i <= ids@.len(),
                nodes == self.spec_nodes(),
                m == id.spec_index(),
                forall|k: int| 0 <= k < ids@.len() ==> m < (#[trigger] ids@[k]).spec_index() < nodes.len(),
                v@.len() == i,
                forall|k: int, c: Context|
                    0 <= k < i ==> #[trigger] element_text(v@[k], c) == child_text(nodes, m, ids@[k], c),
            decreases ids.len() - i,
        {
            let child = ids[i];
            assert(m < child.spec_index() < nodes.len());
            let e = self.element_at(child);
            v.push(e);
            proof {
                assert forall|k: int, c: Context|
                    0 <= k < i + 1 implies #[trigger] element_text(v@[k], c) == child_text(nodes, m, ids@[k], c) by {
                    if k == i {
                        assert(element_text(e, c) == node_text(nodes, child.spec_index() as int, c));
                    }
                }
            }
            i = i + 1;
        }
        v
    }

    /// The canonical text of the merged rule table: one user rule per line, `=/` folded in,
    /// in first-definition order. Implicit core rules are never printed.
    pub fn to_string(&self) -> (s: String)
        ensures
            s@ == checked_text(*self),
    {
        proof {
            use_type_invariant(self);
        }
        let rules = self.rules();
        let mut s = String::new();
        if rules.len() == 0 {
            s.append("\r\n");
            return s;
        }
        let ghost nodes = self.spec_nodes();
        let mut i: usize = 0;
        while i < rules.len()
            invariant
                i <= rules@.len(),
                nodes == self.spec_nodes(),
                self.wf(),
                rules@ == self.spec_rules().subrange(0, self.spec_user_rules() as int),
                s@ == rules_text(nodes, rules@.subrange(0, i as int)),
            decreases rules.len() - i,
        {
            let rule = &rules[i];
            assert(rule.body.spec_index() < nodes.len()) by {
                assert(self.spec_rules()[i as int] == rules@[i as int]);
            }
            s.append(rule.name.as_str());
            s.append(" = ");
            let body = self.element_at(rule.body);
            write_element(&mut s, &body, Context::Free);
            s.append("\r\n");
            proof {
                let t = rules@.subrange(0, i + 1);
                assert(t.subrange(0, i as int) =~= rules@.subrange(0, i as int));
                assert(s@ =~= rules_text(nodes, t));
            }
            i = i + 1;
        }
        assert(rules@.subrange(0, rules@.len() as int) =~= rules@);
        s
    }
}

} // verus!
