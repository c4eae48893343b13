//! [`Grammar`] to [`CheckedGrammar`]: the merged rule table, and the arena it is lowered into.
//!
//! This is where the syntactic layer becomes the semantic one. Three things happen, in this
//! order, and the order matters:
//!
//! 1. **The rule table is built.** Definitions are grouped by ASCII-lowercased name; the first
//!    `=` defines a rule and every later `=/` appends its alternatives to it. A second `=` is a
//!    duplicate, and a `=/` with no base is an orphan.
//! 2. **The table is lowered into a node arena.** Each node is emitted before its children, so
//!    a [`NodeId`] *is* the pre-order position of its node, with no separate numbering pass.
//! 3. **References are resolved**, user rules first and then the implicit core environment,
//!    except inside a core rule body, which sees core rules only.
//!
//! Only *structural* problems are errors here, and they accumulate: a grammar with four
//! undefined references reports four, not the first.
use vstd::prelude::*;

use crate::first::{left_cycles, left_recursive, reports_cycles};

use crate::ast::{
    element_size, elements_size, lemma_elements_size_concat, lemma_elements_size_push, DefinedAs, Definition, Element, Grammar, Ignored, Node, NodeId, NumVal, Repeat, Rule, RuleId,
    RuleName, Span,
};
use crate::core_rules::{
    bounds_ok, core_grammar, core_keys, core_names, is_core_rule, refs_within, spec_is_core_rule,
    CORE_RULE_COUNT,
};
use crate::display::{
    agree, bare_text, checked_text, closed, element_text, joined_text, lemma_closed_join,
    lemma_joined_ids, lemma_node_text_frame, node_text, rules_text, Context,
};
use crate::error::CheckError;
use crate::text::fold_case;

verus! {

/// The size of a list of definitions: one per definition plus the size of its body. Bounds
/// the size of the arena a grammar lowers to.
pub open spec fn definitions_size(s: Seq<Definition>) -> nat
    decreases s.len(),
{
    if s.len() == 0 {
        0
    } else {
        definitions_size(s.subrange(0, s.len() - 1)) + 1 + element_size(s[s.len() - 1].body)
    }
}

/// How many nodes the core-rule environment lowers to, at most.
pub open spec fn core_size_bound() -> nat {
    (CORE_RULE_COUNT * 16) as nat
}

/// The case-folded spelling of a rule name: what rule names are compared by.
#[verifier::opaque]
pub open spec fn name_key(n: RuleName) -> Seq<char> {
    fold_case(n@)
}

/// The case-folded name of a definition.
pub open spec fn def_key(d: Definition) -> Seq<char> {
    name_key(d.name)
}

/// Whether definition `j` is the first `=` of `d` for the rule whose name folds to `key`.
pub open spec fn first_base(d: Seq<Definition>, key: Seq<char>, j: int) -> bool {
    &&& 0 <= j < d.len()
    &&& d[j].defined_as == DefinedAs::Base
    &&& def_key(d[j]) == key
    &&& forall|x: int| 0 <= x < j && (#[trigger] d[x]).defined_as == DefinedAs::Base ==> def_key(d[x]) != key
}

/// Where the first `=` of `d` for the rule named `n` stands.
pub open spec fn base_rank(d: Seq<Definition>, n: RuleName) -> int {
    choose|j: int| first_base(d, name_key(n), j)
}

/// Whether the rules named `names` come in the order of their first `=` definitions in `d`.
pub open spec fn in_base_order(names: Seq<RuleName>, d: Seq<Definition>) -> bool {
    &&& forall|m: int| 0 <= m < names.len() ==> first_base(d, name_key(names[m]), #[trigger] base_rank(d, names[m]))
    &&& forall|a: int, b: int|
        0 <= a < b < names.len() ==> #[trigger] base_rank(d, names[a]) < #[trigger] base_rank(d, names[b])
}

/// The first `=` for a rule is where [`base_rank`] says.
proof fn lemma_base_rank_is(d: Seq<Definition>, n: RuleName, j: int)
    requires
        first_base(d, name_key(n), j),
    ensures
        base_rank(d, n) == j,
{
    let k = base_rank(d, n);
    assert(first_base(d, name_key(n), k));
    if k < j {
        assert(d[k].defined_as == DefinedAs::Base);
    } else if j < k {
        assert(d[j].defined_as == DefinedAs::Base);
    }
}

/// Whether the node `id` of `nodes`, lowered from element `e`, has its children in pre-order:
/// the first child right after it, each later one right after the subtree before it.
pub open spec fn children_in_preorder(nodes: Seq<Node>, id: int, e: Element) -> bool {
    match e {
        Element::Alt(bs) => nodes[id] matches Node::Alt { branches } && branches@.len() == bs@.len() && forall|i: int|
            0 <= i < branches@.len() ==> (#[trigger] branches@[i]).spec_index() == id + 1 + elements_size(
                bs@.subrange(0, i),
            ),
        Element::Concat(xs) => nodes[id] matches Node::Concat { items } && items@.len() == xs@.len() && forall|i: int|
            0 <= i < items@.len() ==> (#[trigger] items@[i]).spec_index() == id + 1 + elements_size(
                xs@.subrange(0, i),
            ),
        Element::Repeat { .. } => nodes[id] matches Node::Repeat { body, .. } && body.spec_index() == id + 1,
        Element::Optional(_) => nodes[id] matches Node::Optional { body } && body.spec_index() == id + 1,
        _ => true,
    }
}

/// The names of merged rules.
spec fn merged_rule_names(merged: Seq<Merged>) -> Seq<RuleName> {
    merged.map_values(|x: Merged| x.name)
}

/// The names of a merge table's entries.
spec fn entry_names(c: Seq<(RuleName, Vec<Element>)>) -> Seq<RuleName> {
    c.map_values(|x: (RuleName, Vec<Element>)| x.0)
}

/// Whether definition `i` of `s` merges cleanly given the ones before it: an `=` names a
/// rule no earlier `=` named, and an `=/` extends a rule an earlier `=` named.
pub open spec fn merges_at(s: Seq<Definition>, i: int) -> bool {
    &&& s[i].defined_as == DefinedAs::Base ==> forall|k: int|
        0 <= k < i && s[k].defined_as == DefinedAs::Base ==> def_key(#[trigger] s[k]) != def_key(s[i])
    &&& s[i].defined_as == DefinedAs::Incremental ==> exists|k: int|
        0 <= k < i && s[k].defined_as == DefinedAs::Base && def_key(#[trigger] s[k]) == def_key(s[i])
}

/// Whether the first `n` definitions of `s` merge without error.
pub open spec fn merge_clean_upto(s: Seq<Definition>, n: int) -> bool {
    forall|j: int| 0 <= j < n ==> #[trigger] merges_at(s, j)
}

/// Whether merging `s` raises no error: no name gets two `=`, and every `=/` comes after an
/// `=` for the same name.
pub open spec fn merge_clean(s: Seq<Definition>) -> bool {
    merge_clean_upto(s, s.len() as int)
}

/// The positions, in order, of the first `n` definitions of `s` that do not merge.
pub open spec fn merge_failures(s: Seq<Definition>, n: int) -> Seq<int>
    decreases n,
{
    if n <= 0 {
        Seq::empty()
    } else {
        let p = merge_failures(s, n - 1);
        if merges_at(s, n - 1) {
            p
        } else {
            p.push(n - 1)
        }
    }
}

/// Whether `e` is the error merging reports for definition `i` of `s`: a second `=` is a
/// duplicate, an `=/` with no `=` before it extends nothing, each named as written and placed
/// at the definition.
pub open spec fn merge_error_for(s: Seq<Definition>, i: int, e: CheckError) -> bool {
    match e {
        CheckError::DuplicateDefinition { name, span } => {
            &&& s[i].defined_as == DefinedAs::Base
            &&& name@ == s[i].name@
            &&& span == s[i].span.0
        },
        CheckError::IncrementalWithoutBase { name, shadows_core, span } => {
            &&& s[i].defined_as == DefinedAs::Incremental
            &&& name@ == s[i].name@
            &&& shadows_core == spec_is_core_rule(s[i].name@)
            &&& span == s[i].span.0
        },
        _ => false,
    }
}

/// Whether `errors` begins with the merge errors of `s`, one per definition that does not
/// merge, in the order of the definitions.
pub open spec fn starts_with_merge_errors(errors: Seq<CheckError>, s: Seq<Definition>) -> bool {
    let fails = merge_failures(s, s.len() as int);
    &&& errors.len() >= fails.len()
    &&& forall|t: int| 0 <= t < fails.len() ==> merge_error_for(s, #[trigger] fails[t], errors[t])
}

/// The case-folded names of the rules a list of definitions defines with `=`.
pub open spec fn base_keys(s: Seq<Definition>) -> Set<Seq<char>> {
    Set::new(
        |k: Seq<char>|
            exists|i: int|
                0 <= i < s.len() && (#[trigger] s[i]).defined_as == DefinedAs::Base && def_key(s[i])
                    == k,
    )
}

/// Whether `check` accepts a grammar: merging raises nothing, every reference names a rule
/// defined with `=` or a core rule, and every repetition and numeric range is the right way up.
pub open spec fn check_clean(s: Seq<Definition>) -> bool {
    &&& merge_clean(s)
    &&& forall|j: int|
        0 <= j < s.len() ==> refs_within((#[trigger] s[j]).body, base_keys(s).union(core_keys()))
            && bounds_ok(s[j].body)
}

/// The bodies the definitions of `d` give the rule whose name folds to `key`, in order: the
/// `=` first, then each `=/` where it stands.
pub open spec fn alternatives_for(d: Seq<Definition>, key: Seq<char>) -> Seq<Element>
    decreases d.len(),
{
    if d.len() == 0 {
        Seq::empty()
    } else {
        let rest = alternatives_for(d.subrange(0, d.len() - 1), key);
        if def_key(d[d.len() - 1]) == key {
            rest.push(d[d.len() - 1].body)
        } else {
            rest
        }
    }
}

/// The branches of a rule whose alternatives are `s`: an alternative that is an alternation
/// gives its branches in place, any other alternative gives itself.
pub open spec fn flat_alternatives(s: Seq<Element>) -> Seq<Element>
    decreases s.len(),
{
    if s.len() == 0 {
        Seq::empty()
    } else {
        flat_alternatives(s.subrange(0, s.len() - 1)) + match s[s.len() - 1] {
            Element::Alt(v) => v@,
            other => seq![other],
        }
    }
}

/// How the body of a rule whose alternatives are `alts` prints where `c` puts it: a single
/// alternative as itself, several as one alternation of their flattened branches.
pub open spec fn merged_text(alts: Seq<Element>, c: Context) -> Seq<char> {
    if alts.len() == 1 {
        element_text(alts[0], c)
    } else {
        let bare = joined_text(flat_alternatives(alts), " / "@, Context::Free);
        if c == Context::Free {
            bare
        } else {
            seq!['('] + bare + seq![')']
        }
    }
}

/// The rules named `names`, one per line: each name, ` = `, the body the definitions `d` give
/// that rule, and CRLF.
pub open spec fn merged_rules_text(names: Seq<RuleName>, d: Seq<Definition>) -> Seq<char>
    decreases names.len(),
{
    if names.len() == 0 {
        Seq::empty()
    } else {
        let n = names[names.len() - 1];
        merged_rules_text(names.subrange(0, names.len() - 1), d) + n@ + " = "@ + merged_text(
            alternatives_for(d, name_key(n)),
            Context::Free,
        ) + "\r\n"@
    }
}

/// A grammar that passed structural validation.
///
/// The only route to a recognizer or a generator, so there is no way to match against a
/// grammar whose structure was never checked.
#[derive(Debug, PartialEq, Eq)]
pub struct CheckedGrammar {
    /// User rules first, then the core rules, so a user [`NodeId`] is exactly the pre-order
    /// position it would have in the user grammar alone.
    rules: Vec<Rule>,
    /// How many of `rules` are the user's.
    user_rules: usize,
    /// How many of `nodes` belong to user rules; core nodes follow them.
    user_nodes: usize,
    /// The node arena. `NodeId` indexes this.
    nodes: Vec<Node>,
    /// What each `RuleRef` node resolves to; `None` for every other kind of node.
    resolved: Vec<Option<RuleId>>,
}

/// The names of a list of rules, in order.
pub open spec fn rule_names(rules: Seq<Rule>) -> Seq<RuleName> {
    Seq::new(rules.len(), |i: int| rules[i].name)
}

/// Whether `t` names a rule of a table with `users` user rules and the core environment.
pub open spec fn valid_target(t: RuleId, users: nat) -> bool {
    match t {
        RuleId::User(u) => u < users,
        RuleId::Core(c) => c < CORE_RULE_COUNT,
    }
}

/// Where rule `t` sits in a table whose first `users` rules are the user's.
pub open spec fn table_index(t: RuleId, users: nat) -> int {
    match t {
        RuleId::User(u) => u as int,
        RuleId::Core(c) => users + c,
    }
}

/// Whether node `k` of an arena is well formed: its children come after it and inside the
/// arena, its bounds are the right way up, and it is resolved exactly when it is a reference,
/// to a rule of the same name: the user's first, except in the core environment (`in_core`),
/// which sees core rules only.
pub open spec fn node_ok_in(
    nodes: Seq<Node>,
    resolved: Seq<Option<RuleId>>,
    names: Seq<RuleName>,
    users: nat,
    k: int,
    in_core: bool,
) -> bool {
    let n = nodes.len();
    &&& 0 <= k < n
    &&& k < resolved.len()
    &&& match nodes[k] {
        Node::Alt { branches } => forall|i: int|
            0 <= i < branches@.len() ==> k < (#[trigger] branches@[i]).spec_index() < n,
        Node::Concat { items } => forall|i: int|
            0 <= i < items@.len() ==> k < (#[trigger] items@[i]).spec_index() < n,
        Node::Repeat { repeat, body, .. } => repeat.spec_is_valid() && k < body.spec_index() < n,
        Node::Optional { body } => k < body.spec_index() < n,
        Node::NumVal { value: NumVal::Range { lo, hi }, .. } => lo <= hi,
        _ => true,
    }
    &&& match nodes[k] {
        Node::RuleRef { name, .. } => match resolved[k] {
            Some(t) => {
                &&& valid_target(t, users)
                &&& name_key(names[table_index(t, users)]) == name_key(name)
                &&& in_core ==> t is Core
                &&& (t is Core && !in_core) ==> forall|u: int|
                    0 <= u < users ==> name_key(#[trigger] names[u]) != name_key(name)
            },
            None => false,
        },
        _ => resolved[k] is None,
    }
}

/// Whether node `k` is well formed, in the environment its position puts it in.
pub open spec fn node_ok(
    nodes: Seq<Node>,
    resolved: Seq<Option<RuleId>>,
    names: Seq<RuleName>,
    users: nat,
    user_nodes: nat,
    k: int,
) -> bool {
    node_ok_in(nodes, resolved, names, users, k, k >= user_nodes)
}

impl CheckedGrammar {
    /// The merged rule table: user rules, then the core rules.
    pub closed spec fn spec_rules(&self) -> Seq<Rule> {
        self.rules@
    }

    /// How many rules of the table are the user's.
    pub closed spec fn spec_user_rules(&self) -> nat {
        self.user_rules as nat
    }

    /// How many nodes of the arena belong to user rules.
    pub closed spec fn spec_user_nodes(&self) -> nat {
        self.user_nodes as nat
    }

    /// The node arena.
    pub closed spec fn spec_nodes(&self) -> Seq<Node> {
        self.nodes@
    }

    /// The resolution side table.
    pub closed spec fn spec_resolved(&self) -> Seq<Option<RuleId>> {
        self.resolved@
    }

    /// The names of the rules of the table, in order.
    pub open spec fn spec_names(&self) -> Seq<RuleName> {
        rule_names(self.spec_rules())
    }

    /// Where rule `t` sits in the table.
    pub open spec fn spec_rule_index(&self, t: RuleId) -> int {
        table_index(t, self.spec_user_rules())
    }

    /// The rule `t` names.
    pub open spec fn spec_rule(&self, t: RuleId) -> Rule {
        self.spec_rules()[self.spec_rule_index(t)]
    }

    /// What `check` guarantees of every grammar it produces.
    pub open spec fn wf(&self) -> bool {
        let nodes = self.spec_nodes();
        let rules = self.spec_rules();
        let users = self.spec_user_rules();
        &&& self.spec_resolved().len() == nodes.len()
        &&& nodes.len() <= u32::MAX
        &&& rules.len() == users + CORE_RULE_COUNT
        &&& users < u32::MAX
        &&& self.spec_user_nodes() <= nodes.len()
        &&& forall|i: int| 0 <= i < rules.len() ==> (#[trigger] rules[i]).body.spec_index() < nodes.len()
        &&& forall|c: int|
            0 <= c < CORE_RULE_COUNT ==> (#[trigger] rules[users + c]).name@ == core_names()[c]
        &&& forall|c: int|
            0 <= c < CORE_RULE_COUNT ==> (#[trigger] rules[users + c]).body.spec_index()
                >= self.spec_user_nodes()
        &&& forall|k: int|
            0 <= k < nodes.len() ==> #[trigger] node_ok(
                nodes,
                self.spec_resolved(),
                self.spec_names(),
                users,
                self.spec_user_nodes(),
                k,
            )
    }

    /// Every checked grammar is well formed; `use_type_invariant` brings it into a proof.
    #[verifier::type_invariant]
    pub open spec fn inv(&self) -> bool {
        self.wf()
    }

    /// The user's rules, in first-definition order. Core rules are not included: they are
    /// the resolution environment, not part of the grammar.
    pub fn rules(&self) -> (r: &[Rule])
        ensures
            r@ == self.spec_rules().subrange(0, self.spec_user_rules() as int),
    {
        proof {
            use_type_invariant(self);
        }
        &self.rules.as_slice()[0..self.user_rules]
    }

    /// The implicit RFC 5234 Appendix B environment.
    pub fn core_rules(&self) -> (r: &[Rule])
        ensures
            r@ == self.spec_rules().subrange(
                self.spec_user_rules() as int,
                self.spec_rules().len() as int,
            ),
            r@.len() == CORE_RULE_COUNT,
    {
        proof {
            use_type_invariant(self);
        }
        &self.rules.as_slice()[self.user_rules..self.rules.len()]
    }

    /// Where a rule named `name` sits in the table: the first user rule of that name, else
    /// the core rule of that name.
    pub fn rule_position(&self, name: &str) -> (r: Option<usize>)
        ensures
            match r {
                Some(i) => {
                    &&& i < self.spec_rules().len()
                    &&& fold_case(self.spec_rules()[i as int].name@) == fold_case(name@)
                    &&& forall|j: int|
                        0 <= j < i ==> fold_case(#[trigger] self.spec_rules()[j].name@)
                            != fold_case(name@)
                },
                None => forall|j: int|
                    0 <= j < self.spec_rules().len() ==> fold_case(
                        #[trigger] self.spec_rules()[j].name@,
                    ) != fold_case(name@),
            },
    {
        let probe = RuleName::new(name);
        let mut i: usize = 0;
        while i < self.rules.len()
            invariant
                probe@ == name@,
                i <= self.rules@.len(),
                forall|j: int|
                    0 <= j < i ==> fold_case(#[trigger] self.rules@[j].name@) != fold_case(name@),
            decreases self.rules@.len() - i,
        {
            if self.rules[i].name.same_rule(&probe) {
                return Some(i);
            }
            i = i + 1;
        }
        None
    }

    /// Looks a rule up by name, case-insensitively, user rules before core rules.
    pub fn rule(&self, name: &str) -> (r: Option<&Rule>)
        ensures
            match r {
                Some(rule) => exists|i: int|
                    0 <= i < self.spec_rules().len() && *rule == self.spec_rules()[i] && fold_case(
                        rule.name@,
                    ) == fold_case(name@) && forall|j: int|
                        0 <= j < i ==> fold_case(#[trigger] self.spec_rules()[j].name@)
                            != fold_case(name@),
                None => forall|j: int|
                    0 <= j < self.spec_rules().len() ==> fold_case(
                        #[trigger] self.spec_rules()[j].name@,
                    ) != fold_case(name@),
            },
    {
        match self.rule_position(name) {
            Some(i) => Some(&self.rules[i]),
            None => None,
        }
    }

    /// The node at `id`.
    pub fn node(&self, id: NodeId) -> (n: &Node)
        requires
            id.spec_index() < self.spec_nodes().len(),
        ensures
            *n == self.spec_nodes()[id.spec_index() as int],
    {
        &self.nodes[id.index()]
    }

    /// The rule a `RuleRef` node resolves to, or `None` for any other node.
    pub fn target(&self, id: NodeId) -> (t: Option<RuleId>)
        requires
            id.spec_index() < self.spec_nodes().len(),
        ensures
            t == self.spec_resolved()[id.spec_index() as int],
    {
        proof {
            use_type_invariant(self);
        }
        self.resolved[id.index()]
    }

    /// Where rule `id` sits in the table.
    pub fn rule_index(&self, id: RuleId) -> (i: usize)
        requires
            valid_target(id, self.spec_user_rules()),
        ensures
            i == self.spec_rule_index(id),
            i < self.spec_rules().len(),
    {
        proof {
            use_type_invariant(self);
        }
        let total = self.rules.len();
        match id {
            RuleId::User(index) => index as usize,
            RuleId::Core(index) => {
                assert(self.user_rules + index < total);
                self.user_rules + index as usize
            },
        }
    }

    /// The rule `id` names.
    pub fn rule_by_id(&self, id: RuleId) -> (r: &Rule)
        requires
            valid_target(id, self.spec_user_rules()),
        ensures
            *r == self.spec_rule(id),
    {
        let i = self.rule_index(id);
        &self.rules[i]
    }

    /// Rule `i` of the table, user rules first, then the core rules.
    pub fn rule_at(&self, i: usize) -> (r: &Rule)
        requires
            i < self.spec_rules().len(),
        ensures
            *r == self.spec_rules()[i as int],
    {
        &self.rules[i]
    }

    /// How many rules the table holds, user and core together.
    pub fn rule_count(&self) -> (n: usize)
        ensures
            n == self.spec_rules().len(),
    {
        self.rules.len()
    }

    /// How many nodes the arena holds, user and core together.
    pub fn node_count(&self) -> (n: usize)
        ensures
            n == self.spec_nodes().len(),
    {
        self.nodes.len()
    }
}


/// Whether `err` is an error lowering reports for a part of `x`, with `keys` the names in
/// scope: a reference to no rule in scope, a repetition whose minimum exceeds its maximum, or
/// a numeric range the wrong way up, each named and placed as written.
pub open spec fn flaw_in(x: Element, keys: Set<Seq<char>>, err: CheckError) -> bool
    decreases x,
{
    ||| match err {
        CheckError::UndefinedRule { name, span } => x matches Element::RuleRef { name: n, span: sp } && n@
            == name@ && sp.0 == span && !keys.contains(name_key(n)),
        CheckError::InvalidRepeatRange { min, max, span } => x matches Element::Repeat { repeat, span: sp, .. }
            && !repeat.spec_is_valid() && repeat.min == min && max == (match repeat.max {
            Some(m) => m,
            None => 0,
        }) && sp.0 == span,
        CheckError::InvalidNumericRange { lo, hi, span } => x matches Element::NumVal {
            value: NumVal::Range { lo: a, hi: b },
            span: sp,
        } && a == lo && b == hi && lo > hi && sp.0 == span,
        _ => false,
    }
    ||| match x {
        Element::Alt(v) => exists|i: int| 0 <= i < v@.len() && flaw_in(#[trigger] v@[i], keys, err),
        Element::Concat(v) => exists|i: int| 0 <= i < v@.len() && flaw_in(#[trigger] v@[i], keys, err),
        Element::Repeat { body, .. } => flaw_in(*body, keys, err),
        Element::Optional(body) => flaw_in(*body, keys, err),
        _ => false,
    }
}

/// Whether `err` is a flaw of the body of one of the definitions `d`.
pub open spec fn flaw_of_definitions(d: Seq<Definition>, keys: Set<Seq<char>>, err: CheckError) -> bool {
    exists|j: int| 0 <= j < d.len() && flaw_in(d[j].body, keys, err)
}

/// Whether every error of `errs` from position `from` on is a flaw of one of `xs`.
pub open spec fn flaws_of(errs: Seq<CheckError>, from: int, xs: Seq<Element>, keys: Set<Seq<char>>) -> bool {
    forall|t: int| from <= t < errs.len() ==> exists|i: int| 0 <= i < xs.len() && flaw_in(xs[i], keys, #[trigger] errs[t])
}

/// Whether `e` references only rules whose folded names are in `keys` and has valid bounds.
#[verifier::opaque]
pub open spec fn clean_in(e: Element, keys: Set<Seq<char>>) -> bool {
    refs_within(e, keys) && bounds_ok(e)
}

/// The total size of the merged table entries `s`: one per rule plus its alternatives.
spec fn entries_size(s: Seq<(RuleName, Vec<Element>)>) -> nat
    decreases s.len(),
{
    if s.len() == 0 {
        0
    } else {
        entries_size(s.subrange(0, s.len() - 1)) + 1 + elements_size(s[s.len() - 1].1@)
    }
}

proof fn lemma_entries_size_update(s: Seq<(RuleName, Vec<Element>)>, m: int, x: (RuleName, Vec<Element>))
    requires
        0 <= m < s.len(),
    ensures
        entries_size(s.update(m, x)) + elements_size(s[m].1@) == entries_size(s) + elements_size(
            x.1@,
        ),
    decreases s.len(),
{
    let t = s.update(m, x);
    if m == s.len() - 1 {
        assert(t.subrange(0, t.len() - 1) =~= s.subrange(0, s.len() - 1));
    } else {
        let p = s.subrange(0, s.len() - 1);
        lemma_entries_size_update(p, m, x);
        assert(t.subrange(0, t.len() - 1) =~= p.update(m, x));
    }
}

proof fn lemma_definitions_size_prefix(s: Seq<Definition>, i: int)
    requires
        0 <= i < s.len(),
    ensures
        definitions_size(s.subrange(0, i + 1)) == definitions_size(s.subrange(0, i)) + 1
            + element_size(s[i].body),
{
    assert(s.subrange(0, i + 1).subrange(0, i) =~= s.subrange(0, i));
}

proof fn lemma_definitions_size_mono(s: Seq<Definition>, i: int)
    requires
        0 <= i <= s.len(),
    ensures
        definitions_size(s.subrange(0, i)) <= definitions_size(s),
    decreases s.len() - i,
{
    if i < s.len() {
        lemma_definitions_size_prefix(s, i);
        lemma_definitions_size_mono(s, i + 1);
    } else {
        assert(s.subrange(0, i) =~= s);
    }
}

/// One entry of the merged rule table: a name and the body every `=` and `=/` for it produced.
struct Merged {
    name: RuleName,
    body: Element,
}

/// Each branch of the flattened alternatives is an alternative or a branch of one.
proof fn lemma_flat_member(s: Seq<Element>, i: int)
    requires
        0 <= i < flat_alternatives(s).len(),
    ensures
        exists|k: int|
            0 <= k < s.len() && (s[k] == flat_alternatives(s)[i] || (s[k] matches Element::Alt(v) && exists|q: int|
                0 <= q < v@.len() && v@[q] == flat_alternatives(s)[i])),
    decreases s.len(),
{
    let front = s.subrange(0, s.len() - 1);
    let p = flat_alternatives(front);
    let last = s[s.len() - 1];
    let piece = match last {
        Element::Alt(v) => v@,
        other => seq![other],
    };
    assert(flat_alternatives(s) == p + piece);
    if i < p.len() {
        lemma_flat_member(front, i);
        let k = choose|k: int|
            0 <= k < front.len() && (front[k] == p[i] || (front[k] matches Element::Alt(v) && exists|q: int|
                0 <= q < v@.len() && v@[q] == p[i]));
        assert(s[k] == front[k]);
        assert(flat_alternatives(s)[i] == p[i]);
    } else {
        assert(flat_alternatives(s)[i] == piece[i - p.len()]);
        match last {
            Element::Alt(v) => {
                assert(v@[i - p.len()] == flat_alternatives(s)[i]);
            },
            _ => {},
        }
    }
}

/// A flaw of one of the flattened branches is a flaw of one of the alternatives.
proof fn lemma_flat_flaw(alts: Seq<Element>, ks: Set<Seq<char>>, err: CheckError, i: int)
    requires
        0 <= i < flat_alternatives(alts).len(),
        flaw_in(flat_alternatives(alts)[i], ks, err),
    ensures
        exists|k: int| 0 <= k < alts.len() && flaw_in(alts[k], ks, err),
{
    lemma_flat_member(alts, i);
    let k = choose|k: int|
        0 <= k < alts.len() && (alts[k] == flat_alternatives(alts)[i] || (alts[k] matches Element::Alt(v) && exists|q: int|
            0 <= q < v@.len() && v@[q] == flat_alternatives(alts)[i]));
    if alts[k] != flat_alternatives(alts)[i] {
        let v = alts[k]->Alt_0;
        let q = choose|q: int| 0 <= q < v@.len() && v@[q] == flat_alternatives(alts)[i];
        assert(flaw_in(v@[q], ks, err));
        assert(flaw_in(alts[k], ks, err));
    }
}

/// Folds a rule's alternatives into one body.
///
/// Flattened into a single alternation rather than nested, so that branch indices do not
/// depend on how many `=/` lines the author happened to use.
fn combine(alternatives: Vec<Element>, Ghost(keys): Ghost<Set<Seq<char>>>) -> (e: Element)
    requires
        alternatives@.len() >= 1,
    ensures
        element_size(e) <= 1 + elements_size(alternatives@),
        clean_in(e, keys) <==> forall|k: int|
            0 <= k < alternatives@.len() ==> clean_in(#[trigger] alternatives@[k], keys),
        forall|c: Context| #[trigger] element_text(e, c) == merged_text(alternatives@, c),
        forall|ks: Set<Seq<char>>, err: CheckError|
            #[trigger] flaw_in(e, ks, err) ==> exists|k: int| 0 <= k < alternatives@.len() && flaw_in(alternatives@[k], ks, err),
        alternatives@.len() == 1 ==> e == alternatives@[0],
        alternatives@.len() > 1 ==> (e matches Element::Alt(v) && v@ == flat_alternatives(alternatives@)),
{
    reveal(clean_in);
    let ghost alts = alternatives@;
    let mut rest = alternatives;
    if rest.len() == 1 {
        let e = rest.pop().unwrap();
        proof {
            assert(e == alts[0]);
            assert(alts.subrange(0, 0) =~= Seq::<Element>::empty());
            assert(elements_size(alts.subrange(0, 0)) == 0);
            assert(elements_size(alts) == element_size(e));
            if clean_in(e, keys) {
                assert forall|k: int| 0 <= k < alts.len() implies clean_in(#[trigger] alts[k], keys) by {
                    assert(k == 0);
                }
            }
        }
        return e;
    }
    let mut branches: Vec<Element> = Vec::new();
    let mut i: usize = 0;
    let total = rest.len();
    while rest.len() > 0
        invariant
            alts.len() == total,
            rest@ == alts.subrange(i as int, alts.len() as int),
            i <= alts.len(),
            elements_size(branches@) <= elements_size(alts.subrange(0, i as int)),
            branches@ == flat_alternatives(alts.subrange(0, i as int)),
            (forall|k: int| 0 <= k < branches@.len() ==> clean_in(#[trigger] branches@[k], keys))
                <==> (forall|k: int| 0 <= k < i ==> clean_in(#[trigger] alts[k], keys)),
        decreases rest@.len(),
    {
        reveal(clean_in);
        let alternative = rest.remove(0);
        let ghost before = branches@;
        proof {
            assert(alts.subrange(0, i + 1).subrange(0, i as int) =~= alts.subrange(0, i as int));
            assert(alternative == alts[i as int]);
            assert(elements_size(alts.subrange(0, i + 1)) == elements_size(alts.subrange(0, i as int))
                + element_size(alts[i as int]));
            assert(flat_alternatives(alts.subrange(0, i + 1)) == flat_alternatives(alts.subrange(0, i as int))
                + match alts[i as int] {
                Element::Alt(v) => v@,
                other => seq![other],
            });
        }
        match alternative {
            Element::Alt(nested) => {
                let mut nested = nested;
                let ghost n = nested@;
                branches.append(&mut nested);
                proof {
                    assert(element_size(alts[i as int]) == 1 + elements_size(n));
                    lemma_elements_size_concat(before, n);
                    {
                        if forall|k: int| 0 <= k < branches@.len() ==> clean_in(#[trigger] branches@[k], keys) {
                            assert forall|k: int| 0 <= k < before.len() implies clean_in(#[trigger] before[k], keys) by {
                                assert(branches@[k] == before[k]);
                            }
                            assert forall|k: int| 0 <= k < n.len() implies clean_in(#[trigger] n[k], keys) by {
                                assert(branches@[before.len() + k] == n[k]);
                            }
                            assert(clean_in(alts[i as int], keys));
                        }
                        if forall|k: int| 0 <= k < i + 1 ==> clean_in(#[trigger] alts[k], keys) {
                            assert(clean_in(alts[i as int], keys));
                            assert forall|k: int| 0 <= k < branches@.len() implies clean_in(#[trigger] branches@[k], keys) by {
                                if k < before.len() {
                                    assert(branches@[k] == before[k]);
                                } else {
                                    assert(branches@[k] == n[k - before.len()]);
                                }
                            }
                        }
                    }
                }
            },
            other => {
                branches.push(other);
                proof {
                    assert(branches@ =~= before + seq![other]);
                    lemma_elements_size_push(before, other);
                    if forall|k: int| 0 <= k < branches@.len() ==> clean_in(#[trigger] branches@[k], keys) {
                        assert forall|k: int| 0 <= k < before.len() implies clean_in(#[trigger] before[k], keys) by {
                            assert(branches@[k] == before[k]);
                        }
                        assert(branches@[before.len() as int] == alts[i as int]);
                    }
                    if forall|k: int| 0 <= k < i + 1 ==> clean_in(#[trigger] alts[k], keys) {
                        assert(clean_in(alts[i as int], keys));
                        assert forall|k: int| 0 <= k < branches@.len() implies clean_in(#[trigger] branches@[k], keys) by {
                            if k < before.len() {
                                assert(branches@[k] == before[k]);
                            }
                        }
                    }
                }
            },
        }
        i = i + 1;
    }
    proof {
        assert(alts.subrange(0, alts.len() as int) =~= alts);
    }
    let e = Element::Alt(branches);
    proof {
        assert forall|c: Context| #[trigger] element_text(e, c) == merged_text(alts, c) by {
            assert(bare_text(e) == joined_text(flat_alternatives(alts), " / "@, Context::Free));
        }
        assert forall|ks: Set<Seq<char>>, err: CheckError| #[trigger] flaw_in(e, ks, err) implies exists|k: int|
            0 <= k < alts.len() && flaw_in(alts[k], ks, err) by {
            let i = choose|i: int| 0 <= i < branches@.len() && flaw_in(#[trigger] branches@[i], ks, err);
            lemma_flat_flaw(alts, ks, err, i);
        }
    }
    e
}


/// The total size of the merged bodies of `s`.
spec fn merged_size(s: Seq<Merged>) -> nat
    decreases s.len(),
{
    if s.len() == 0 {
        0
    } else {
        merged_size(s.subrange(0, s.len() - 1)) + element_size(s[s.len() - 1].body)
    }
}

/// Where the entry for `name` is in the table being merged, if there is one.
fn find_entry(c: &Vec<(RuleName, Vec<Element>)>, name: &RuleName) -> (r: Option<usize>)
    ensures
        match r {
            Some(m) => m < c@.len() && name_key(c@[m as int].0) == name_key(*name),
            None => forall|m: int| 0 <= m < c@.len() ==> name_key(#[trigger] c@[m].0) != name_key(*name),
        },
{
    let mut m: usize = 0;
    while m < c.len()
        invariant
            m <= c@.len(),
            forall|j: int| 0 <= j < m ==> name_key(#[trigger] c@[j].0) != name_key(*name),
        decreases c@.len() - m,
    {
        let same = c[m].0.same_rule(name);
        proof {
            reveal(name_key);
        }
        if same {
            return Some(m);
        }
        m = m + 1;
    }
    None
}

/// The merge table so far is no larger than the definitions it came from.
#[verifier::opaque]
spec fn mi_size(c: Seq<(RuleName, Vec<Element>)>, d: Seq<Definition>, i: int) -> bool {
    entries_size(c) <= definitions_size(d.subrange(0, i))
}

/// No two entries of the merge table are the same rule.
#[verifier::opaque]
spec fn mi_distinct(c: Seq<(RuleName, Vec<Element>)>) -> bool {
    forall|a: int, b: int|
        0 <= a < c.len() && 0 <= b < c.len() && a != b ==> name_key(#[trigger] c[a].0) != name_key(
            #[trigger] c[b].0,
        )
}

/// Every entry is named as an `=` among the first `i` definitions names it.
#[verifier::opaque]
spec fn mi_names(c: Seq<(RuleName, Vec<Element>)>, d: Seq<Definition>, i: int) -> bool {
    forall|m: int|
        0 <= m < c.len() ==> exists|j: int|
            0 <= j < i && (#[trigger] d[j]).defined_as == DefinedAs::Base && (#[trigger] c[m]).0
                == d[j].name
}

/// Every rule an `=` among the first `i` definitions defines has an entry.
#[verifier::opaque]
spec fn mi_bases(c: Seq<(RuleName, Vec<Element>)>, d: Seq<Definition>, i: int) -> bool {
    forall|j: int|
        0 <= j < i && (#[trigger] d[j]).defined_as == DefinedAs::Base ==> exists|m: int|
            0 <= m < c.len() && name_key((#[trigger] c[m]).0) == def_key(d[j])
}

/// Every entry has at least one alternative.
#[verifier::opaque]
spec fn mi_nonempty(c: Seq<(RuleName, Vec<Element>)>) -> bool {
    forall|m: int| 0 <= m < c.len() ==> (#[trigger] c[m]).1@.len() >= 1
}

/// While nothing was dropped, each entry holds the bodies the first `i` definitions give its
/// rule.
#[verifier::opaque]
spec fn mi_bodies(c: Seq<(RuleName, Vec<Element>)>, d: Seq<Definition>, i: int) -> bool {
    merge_clean_upto(d, i) ==> forall|m: int|
        0 <= m < c.len() ==> (#[trigger] c[m]).1@ == alternatives_for(d.subrange(0, i), name_key(c[m].0))
}

/// Taking one more definition adds its body to the alternatives of its own rule only.
proof fn lemma_alternatives_step(d: Seq<Definition>, i: int, key: Seq<char>)
    requires
        0 <= i < d.len(),
    ensures
        alternatives_for(d.subrange(0, i + 1), key) == (if def_key(d[i]) == key {
            alternatives_for(d.subrange(0, i), key).push(d[i].body)
        } else {
            alternatives_for(d.subrange(0, i), key)
        }),
{
    let t = d.subrange(0, i + 1);
    assert(t.subrange(0, i) =~= d.subrange(0, i));
    assert(t[i] == d[i]);
}

/// In a prefix that merges cleanly, a rule no `=` of the prefix defines has no alternatives.
proof fn lemma_alternatives_none(d: Seq<Definition>, i: int, key: Seq<char>)
    requires
        0 <= i <= d.len(),
        merge_clean_upto(d, i),
        forall|k: int| 0 <= k < i && (#[trigger] d[k]).defined_as == DefinedAs::Base ==> def_key(d[k]) != key,
    ensures
        alternatives_for(d.subrange(0, i), key) == Seq::<Element>::empty(),
    decreases i,
{
    if i == 0 {
        assert(d.subrange(0, 0) =~= Seq::<Definition>::empty());
    } else {
        lemma_alternatives_none(d, i - 1, key);
        lemma_alternatives_step(d, i - 1, key);
        assert(merges_at(d, i - 1));
        if def_key(d[i - 1]) == key {
            if d[i - 1].defined_as == DefinedAs::Incremental {
                let k = choose|k: int|
                    0 <= k < i - 1 && d[k].defined_as == DefinedAs::Base && def_key(#[trigger] d[k]) == def_key(d[i - 1]);
                assert(d[k].defined_as == DefinedAs::Base);
            }
        }
    }
}

/// Every alternative of every entry is the body of one of the first `i` definitions.
#[verifier::opaque]
spec fn mi_from(c: Seq<(RuleName, Vec<Element>)>, d: Seq<Definition>, i: int) -> bool {
    forall|m: int, k: int|
        0 <= m < c.len() && 0 <= k < c[m].1@.len() ==> exists|j: int|
            0 <= j < i && (#[trigger] d[j]).body == #[trigger] c[m].1@[k]
}

/// Whether every alternative of every entry is clean.
spec fn entries_clean(c: Seq<(RuleName, Vec<Element>)>, keys: Set<Seq<char>>) -> bool {
    forall|m: int, k: int|
        0 <= m < c.len() && 0 <= k < c[m].1@.len() ==> clean_in(#[trigger] c[m].1@[k], keys)
}

/// Whether the first `i` definitions are clean.
spec fn defs_clean(d: Seq<Definition>, i: int, keys: Set<Seq<char>>) -> bool {
    forall|j: int| 0 <= j < i ==> clean_in((#[trigger] d[j]).body, keys)
}

/// Clean definitions make clean entries.
#[verifier::opaque]
spec fn mi_fwd(c: Seq<(RuleName, Vec<Element>)>, d: Seq<Definition>, i: int, keys: Set<Seq<char>>) -> bool {
    defs_clean(d, i, keys) ==> entries_clean(c, keys)
}

/// When nothing was dropped, clean entries come only from clean definitions.
#[verifier::opaque]
spec fn mi_back(c: Seq<(RuleName, Vec<Element>)>, d: Seq<Definition>, i: int, keys: Set<Seq<char>>) -> bool {
    merge_clean_upto(d, i) ==> (entries_clean(c, keys) ==> defs_clean(d, i, keys))
}

/// The invariant of the merge loop, after `i` definitions, over the table `c` it has built.
spec fn merge_inv(c: Seq<(RuleName, Vec<Element>)>, d: Seq<Definition>, i: int, keys: Set<Seq<char>>) -> bool {
    &&& 0 <= i <= d.len()
    &&& mi_size(c, d, i)
    &&& mi_distinct(c)
    &&& mi_names(c, d, i)
    &&& mi_bases(c, d, i)
    &&& mi_nonempty(c)
    &&& mi_fwd(c, d, i, keys)
    &&& mi_back(c, d, i, keys)
    &&& mi_bodies(c, d, i)
    &&& mi_from(c, d, i)
}

proof fn lemma_entries_size_push(c: Seq<(RuleName, Vec<Element>)>, x: (RuleName, Vec<Element>))
    ensures
        entries_size(c.push(x)) == entries_size(c) + 1 + elements_size(x.1@),
{
    assert(c.push(x).subrange(0, c.len() as int) =~= c);
}

/// Definition `i` raised an error and was dropped: the table is unchanged.
proof fn lemma_merge_skip(c: Seq<(RuleName, Vec<Element>)>, d: Seq<Definition>, i: int, keys: Set<Seq<char>>)
    requires
        0 <= i < d.len(),
        merge_inv(c, d, i, keys),
        d[i].defined_as == DefinedAs::Base ==> exists|m: int|
            0 <= m < c.len() && name_key((#[trigger] c[m]).0) == def_key(d[i]),
        d[i].defined_as == DefinedAs::Incremental ==> forall|m: int|
            0 <= m < c.len() ==> name_key((#[trigger] c[m]).0) != def_key(d[i]),
    ensures
        merge_inv(c, d, i + 1, keys),
        !merges_at(d, i),
{
    assert(!merges_at(d, i)) by {
        if d[i].defined_as == DefinedAs::Base {
            reveal(mi_names);
            let m = choose|m: int| 0 <= m < c.len() && name_key((#[trigger] c[m]).0) == def_key(d[i]);
            let j = choose|j: int|
                0 <= j < i && (#[trigger] d[j]).defined_as == DefinedAs::Base && (#[trigger] c[m]).0 == d[j].name;
            assert(def_key(d[j]) == def_key(d[i]));
        } else {
            reveal(mi_bases);
            if merges_at(d, i) {
                let k = choose|k: int|
                    0 <= k < i && d[k].defined_as == DefinedAs::Base && def_key(#[trigger] d[k]) == def_key(d[i]);
                let mm = choose|mm: int| 0 <= mm < c.len() && name_key((#[trigger] c[mm]).0) == def_key(d[k]);
            }
        }
    }
    assert(mi_size(c, d, i + 1)) by {
        reveal(mi_size);
        lemma_definitions_size_prefix(d, i);
    }
    assert(mi_names(c, d, i + 1)) by {
        reveal(mi_names);
        assert forall|m: int| 0 <= m < c.len() implies exists|j: int|
            0 <= j < i + 1 && (#[trigger] d[j]).defined_as == DefinedAs::Base && (#[trigger] c[m]).0 == d[j].name by {
            let j = choose|j: int|
                0 <= j < i && (#[trigger] d[j]).defined_as == DefinedAs::Base && (#[trigger] c[m]).0 == d[j].name;
        }
    }
    assert(mi_bases(c, d, i + 1)) by {
        reveal(mi_bases);
        if d[i].defined_as == DefinedAs::Base {
            let m = choose|m: int| 0 <= m < c.len() && name_key((#[trigger] c[m]).0) == def_key(d[i]);
        }
    }
    assert(mi_fwd(c, d, i + 1, keys)) by {
        reveal(mi_fwd);
    }
    assert(mi_back(c, d, i + 1, keys)) by {
        reveal(mi_back);
        assert(!merge_clean_upto(d, i + 1));
    }
    assert(mi_bodies(c, d, i + 1)) by {
        reveal(mi_bodies);
        assert(!merge_clean_upto(d, i + 1));
    }
    assert(mi_from(c, d, i + 1)) by {
        reveal(mi_from);
        assert forall|m: int, k: int| 0 <= m < c.len() && 0 <= k < c[m].1@.len() implies exists|j: int|
            0 <= j < i + 1 && (#[trigger] d[j]).body == #[trigger] c[m].1@[k] by {
            let j = choose|j: int| 0 <= j < i && (#[trigger] d[j]).body == #[trigger] c[m].1@[k];
        }
    }
}

proof fn lemma_merge_start(d: Seq<Definition>, keys: Set<Seq<char>>)
    ensures
        merge_inv(Seq::empty(), d, 0, keys),
{
    reveal(mi_size);
    reveal(mi_distinct);
    reveal(mi_names);
    reveal(mi_bases);
    reveal(mi_nonempty);
    reveal(mi_fwd);
    reveal(mi_back);
    reveal(mi_bodies);
    reveal(mi_from);
    assert(d.subrange(0, 0) =~= Seq::<Definition>::empty());
}

/// Adds definition `i`, an `=` for a name not seen yet, as a new rule.
fn merge_new_base(
    c: &mut Vec<(RuleName, Vec<Element>)>,
    definition: Definition,
    Ghost(d): Ghost<Seq<Definition>>,
    Ghost(i): Ghost<int>,
    Ghost(keys): Ghost<Set<Seq<char>>>,
)
    requires
        0 <= i < d.len(),
        definition == d[i],
        definition.defined_as == DefinedAs::Base,
        merge_inv(old(c)@, d, i, keys),
        forall|m: int| 0 <= m < old(c)@.len() ==> name_key(#[trigger] old(c)@[m].0) != def_key(d[i]),
    ensures
        merge_inv(final(c)@, d, i + 1, keys),
        merges_at(d, i),
        entry_names(final(c)@) == entry_names(old(c)@).push(d[i].name),
{
    let ghost c0 = c@;
    let mut alts: Vec<Element> = Vec::new();
    alts.push(definition.body);
    let ghost x = (definition.name, alts);
    c.push((definition.name, alts));
    proof {
        lemma_new_base(c0, x, d, i, keys);
    }
}

proof fn lemma_new_base(
    c0: Seq<(RuleName, Vec<Element>)>,
    x: (RuleName, Vec<Element>),
    d: Seq<Definition>,
    i: int,
    keys: Set<Seq<char>>,
)
    requires
        0 <= i < d.len(),
        d[i].defined_as == DefinedAs::Base,
        x.0 == d[i].name,
        x.1@ == seq![d[i].body],
        merge_inv(c0, d, i, keys),
        forall|m: int| 0 <= m < c0.len() ==> name_key(#[trigger] c0[m].0) != def_key(d[i]),
    ensures
        merge_inv(c0.push(x), d, i + 1, keys),
        merges_at(d, i),
{
    let c = c0.push(x);
    assert forall|m: int| 0 <= m < c0.len() implies #[trigger] c[m] == c0[m] by {}
    assert(c[c0.len() as int] == x);
    assert(merges_at(d, i)) by {
        reveal(mi_bases);
        assert forall|k: int| 0 <= k < i && d[k].defined_as == DefinedAs::Base implies def_key(
            #[trigger] d[k],
        ) != def_key(d[i]) by {
            let m = choose|m: int| 0 <= m < c0.len() && name_key((#[trigger] c0[m]).0) == def_key(d[k]);
        }
    }
    assert(mi_size(c, d, i + 1)) by {
        reveal(mi_size);
        lemma_definitions_size_prefix(d, i);
        lemma_entries_size_push(c0, x);
        assert(x.1@.subrange(0, 0) =~= Seq::<Element>::empty());
        assert(elements_size(x.1@.subrange(0, 0)) == 0);
        assert(elements_size(x.1@) == element_size(d[i].body));
    }
    assert(mi_distinct(c)) by {
        reveal(mi_distinct);
        assert forall|a: int, b: int|
            0 <= a < c.len() && 0 <= b < c.len() && a != b implies name_key(#[trigger] c[a].0) != name_key(
                #[trigger] c[b].0,
            ) by {
            if a < c0.len() && b < c0.len() {
                assert(c[a] == c0[a] && c[b] == c0[b]);
            } else if a < c0.len() {
                assert(c[a] == c0[a]);
                assert(name_key(c0[a].0) != def_key(d[i]));
            } else {
                assert(c[b] == c0[b]);
                assert(name_key(c0[b].0) != def_key(d[i]));
            }
        }
    }
    assert(mi_names(c, d, i + 1)) by {
        reveal(mi_names);
        assert forall|m: int| 0 <= m < c.len() implies exists|j: int|
            0 <= j < i + 1 && (#[trigger] d[j]).defined_as == DefinedAs::Base && (#[trigger] c[m]).0 == d[j].name by {
            if m == c0.len() {
                assert(c[m].0 == d[i].name);
                assert(d[i].defined_as == DefinedAs::Base);
            } else {
                assert(c[m] == c0[m]);
                let j = choose|j: int|
                    0 <= j < i && (#[trigger] d[j]).defined_as == DefinedAs::Base && (#[trigger] c0[m]).0 == d[j].name;
                assert(d[j].defined_as == DefinedAs::Base && c[m].0 == d[j].name);
            }
        }
    }
    assert(mi_bases(c, d, i + 1)) by {
        reveal(mi_bases);
        assert forall|j: int| 0 <= j < i + 1 && (#[trigger] d[j]).defined_as == DefinedAs::Base implies exists|m: int|
            0 <= m < c.len() && name_key((#[trigger] c[m]).0) == def_key(d[j]) by {
            if j == i {
                assert(name_key(c[c0.len() as int].0) == def_key(d[j]));
            } else {
                let m = choose|m: int| 0 <= m < c0.len() && name_key((#[trigger] c0[m]).0) == def_key(d[j]);
                assert(c[m] == c0[m]);
            }
        }
    }
    assert(mi_nonempty(c)) by {
        reveal(mi_nonempty);
    }
    assert(mi_fwd(c, d, i + 1, keys)) by {
        reveal(mi_fwd);
        if defs_clean(d, i + 1, keys) {
            assert(clean_in(d[i].body, keys));
            assert forall|m: int, k: int|
                0 <= m < c.len() && 0 <= k < c[m].1@.len() implies clean_in(#[trigger] c[m].1@[k], keys) by {
                if m == c0.len() {
                    assert(c[m].1@[k] == d[i].body);
                }
            }
        }
    }
    assert(mi_back(c, d, i + 1, keys)) by {
        reveal(mi_back);
        if merge_clean_upto(d, i + 1) && entries_clean(c, keys) {
            assert forall|m: int, k: int|
                0 <= m < c0.len() && 0 <= k < c0[m].1@.len() implies clean_in(#[trigger] c0[m].1@[k], keys) by {
                assert(c[m] == c0[m]);
                assert(clean_in(c[m].1@[k], keys));
            }
            assert(clean_in(c[c0.len() as int].1@[0], keys));
        }
    }
    assert(mi_from(c, d, i + 1)) by {
        reveal(mi_from);
        assert forall|m: int, k: int| 0 <= m < c.len() && 0 <= k < c[m].1@.len() implies exists|j: int|
            0 <= j < i + 1 && (#[trigger] d[j]).body == #[trigger] c[m].1@[k] by {
            if m == c0.len() {
                assert(c[m].1@[k] == d[i].body);
            } else {
                assert(c[m] == c0[m]);
                let j = choose|j: int| 0 <= j < i && (#[trigger] d[j]).body == #[trigger] c0[m].1@[k];
            }
        }
    }
    assert(mi_bodies(c, d, i + 1)) by {
        reveal(mi_bodies);
        if merge_clean_upto(d, i + 1) {
            assert(merge_clean_upto(d, i));
            assert forall|m: int| 0 <= m < c.len() implies (#[trigger] c[m]).1@ == alternatives_for(
                d.subrange(0, i + 1),
                name_key(c[m].0),
            ) by {
                lemma_alternatives_step(d, i, name_key(c[m].0));
                if m == c0.len() {
                    reveal(mi_bases);
                    assert forall|k: int|
                        0 <= k < i && (#[trigger] d[k]).defined_as == DefinedAs::Base implies def_key(d[k]) != def_key(d[i]) by {
                        let a = choose|a: int| 0 <= a < c0.len() && name_key((#[trigger] c0[a]).0) == def_key(d[k]);
                    }
                    lemma_alternatives_none(d, i, def_key(d[i]));
                    assert(x.1@ =~= Seq::<Element>::empty().push(d[i].body));
                } else {
                    assert(c[m] == c0[m]);
                }
            }
        }
    }
}

/// Appends definition `i`, an `=/`, to entry `m` of the table, the rule it extends.
fn merge_incremental(
    c: &mut Vec<(RuleName, Vec<Element>)>,
    m: usize,
    definition: Definition,
    Ghost(d): Ghost<Seq<Definition>>,
    Ghost(i): Ghost<int>,
    Ghost(keys): Ghost<Set<Seq<char>>>,
)
    requires
        0 <= i < d.len(),
        definition == d[i],
        definition.defined_as == DefinedAs::Incremental,
        merge_inv(old(c)@, d, i, keys),
        m < old(c)@.len(),
        name_key(old(c)@[m as int].0) == def_key(d[i]),
    ensures
        merge_inv(final(c)@, d, i + 1, keys),
        merges_at(d, i),
        entry_names(final(c)@) == entry_names(old(c)@),
{
    let ghost c0 = c@;
    let (name, mut alts) = c.remove(m);
    let ghost old_alts = alts@;
    alts.push(definition.body);
    let ghost x = (name, alts);
    c.insert(m, (name, alts));
    proof {
        assert(c@ =~= c0.update(m as int, x));
        lemma_incremental(c0, m as int, x, d, i, keys);
    }
}

proof fn lemma_incremental(
    c0: Seq<(RuleName, Vec<Element>)>,
    m: int,
    x: (RuleName, Vec<Element>),
    d: Seq<Definition>,
    i: int,
    keys: Set<Seq<char>>,
)
    requires
        0 <= i < d.len(),
        d[i].defined_as == DefinedAs::Incremental,
        0 <= m < c0.len(),
        x.0 == c0[m].0,
        x.1@ == c0[m].1@.push(d[i].body),
        merge_inv(c0, d, i, keys),
        name_key(c0[m].0) == def_key(d[i]),
    ensures
        merge_inv(c0.update(m, x), d, i + 1, keys),
        merges_at(d, i),
{
    let c = c0.update(m, x);
    assert forall|a: int| 0 <= a < c0.len() implies (#[trigger] c[a]).0 == c0[a].0 by {}
    assert forall|a: int| 0 <= a < c0.len() && a != m implies #[trigger] c[a] == c0[a] by {}
    assert(merges_at(d, i)) by {
        reveal(mi_names);
        let j = choose|j: int|
            0 <= j < i && (#[trigger] d[j]).defined_as == DefinedAs::Base && (#[trigger] c0[m]).0 == d[j].name;
    }
    assert(mi_size(c, d, i + 1)) by {
        reveal(mi_size);
        lemma_definitions_size_prefix(d, i);
        lemma_entries_size_update(c0, m, x);
        lemma_elements_size_push(c0[m].1@, d[i].body);
    }
    assert(mi_distinct(c)) by {
        reveal(mi_distinct);
        assert forall|a: int, b: int|
            0 <= a < c.len() && 0 <= b < c.len() && a != b implies name_key(#[trigger] c[a].0) != name_key(
                #[trigger] c[b].0,
            ) by {
            assert(c[a].0 == c0[a].0 && c[b].0 == c0[b].0);
        }
    }
    assert(mi_names(c, d, i + 1)) by {
        reveal(mi_names);
        assert forall|a: int| 0 <= a < c.len() implies exists|j: int|
            0 <= j < i + 1 && (#[trigger] d[j]).defined_as == DefinedAs::Base && (#[trigger] c[a]).0 == d[j].name by {
            let j = choose|j: int|
                0 <= j < i && (#[trigger] d[j]).defined_as == DefinedAs::Base && (#[trigger] c0[a]).0 == d[j].name;
            assert(c[a].0 == c0[a].0);
        }
    }
    assert(mi_bases(c, d, i + 1)) by {
        reveal(mi_bases);
        assert forall|j: int| 0 <= j < i + 1 && (#[trigger] d[j]).defined_as == DefinedAs::Base implies exists|a: int|
            0 <= a < c.len() && name_key((#[trigger] c[a]).0) == def_key(d[j]) by {
            let a = choose|a: int| 0 <= a < c0.len() && name_key((#[trigger] c0[a]).0) == def_key(d[j]);
            assert(c[a].0 == c0[a].0);
        }
    }
    assert(mi_nonempty(c)) by {
        reveal(mi_nonempty);
        assert forall|a: int| 0 <= a < c.len() implies (#[trigger] c[a]).1@.len() >= 1 by {
            if a != m {
                assert(c[a] == c0[a]);
            }
        }
    }
    assert(mi_fwd(c, d, i + 1, keys)) by {
        reveal(mi_fwd);
        if defs_clean(d, i + 1, keys) {
            assert(defs_clean(d, i, keys));
            assert(clean_in(d[i].body, keys));
            assert forall|a: int, k: int|
                0 <= a < c.len() && 0 <= k < c[a].1@.len() implies clean_in(#[trigger] c[a].1@[k], keys) by {
                if a != m {
                    assert(c[a] == c0[a]);
                } else if k < c0[m].1@.len() {
                    assert(c[a].1@[k] == c0[m].1@[k]);
                } else {
                    assert(c[a].1@[k] == d[i].body);
                }
            }
        }
    }
    assert(mi_back(c, d, i + 1, keys)) by {
        reveal(mi_back);
        if merge_clean_upto(d, i + 1) && entries_clean(c, keys) {
            assert forall|a: int, k: int|
                0 <= a < c0.len() && 0 <= k < c0[a].1@.len() implies clean_in(#[trigger] c0[a].1@[k], keys) by {
                if a != m {
                    assert(c[a] == c0[a]);
                } else {
                    assert(c[a].1@[k] == c0[m].1@[k]);
                }
            }
            assert(clean_in(c[m].1@[c0[m].1@.len() as int], keys));
            assert(merge_clean_upto(d, i));
        }
    }
    assert(mi_from(c, d, i + 1)) by {
        reveal(mi_from);
        assert forall|a: int, k: int| 0 <= a < c.len() && 0 <= k < c[a].1@.len() implies exists|j: int|
            0 <= j < i + 1 && (#[trigger] d[j]).body == #[trigger] c[a].1@[k] by {
            if a != m {
                assert(c[a] == c0[a]);
                let j = choose|j: int| 0 <= j < i && (#[trigger] d[j]).body == #[trigger] c0[a].1@[k];
            } else if k < c0[m].1@.len() {
                assert(c[a].1@[k] == c0[m].1@[k]);
                let j = choose|j: int| 0 <= j < i && (#[trigger] d[j]).body == #[trigger] c0[m].1@[k];
            } else {
                assert(c[a].1@[k] == d[i].body);
            }
        }
    }
    assert(mi_bodies(c, d, i + 1)) by {
        reveal(mi_bodies);
        if merge_clean_upto(d, i + 1) {
            assert(merge_clean_upto(d, i));
            assert forall|a: int| 0 <= a < c.len() implies (#[trigger] c[a]).1@ == alternatives_for(
                d.subrange(0, i + 1),
                name_key(c[a].0),
            ) by {
                lemma_alternatives_step(d, i, name_key(c[a].0));
                if a != m {
                    reveal(mi_distinct);
                    assert(c[a] == c0[a]);
                    assert(name_key(c0[a].0) != name_key(c0[m].0));
                }
            }
        }
    }
}

/// What the merge loop has established once every definition is in.
proof fn lemma_merge_done(c: Seq<(RuleName, Vec<Element>)>, d: Seq<Definition>, keys: Set<Seq<char>>)
    requires
        merge_inv(c, d, d.len() as int, keys),
    ensures
        entries_size(c) <= definitions_size(d),
        forall|a: int, b: int|
            0 <= a < c.len() && 0 <= b < c.len() && a != b ==> name_key(#[trigger] c[a].0) != name_key(
                #[trigger] c[b].0,
            ),
        forall|m: int|
            0 <= m < c.len() ==> exists|j: int|
                0 <= j < d.len() && (#[trigger] d[j]).defined_as == DefinedAs::Base && (#[trigger] c[m]).0
                    == d[j].name,
        forall|j: int|
            0 <= j < d.len() && (#[trigger] d[j]).defined_as == DefinedAs::Base ==> exists|m: int|
                0 <= m < c.len() && name_key((#[trigger] c[m]).0) == def_key(d[j]),
        forall|m: int| 0 <= m < c.len() ==> (#[trigger] c[m]).1@.len() >= 1,
        defs_clean(d, d.len() as int, keys) ==> entries_clean(c, keys),
        merge_clean(d) ==> (entries_clean(c, keys) ==> defs_clean(d, d.len() as int, keys)),
        merge_clean(d) ==> forall|m: int|
            0 <= m < c.len() ==> (#[trigger] c[m]).1@ == alternatives_for(d, name_key(c[m].0)),
        forall|m: int, k: int|
            0 <= m < c.len() && 0 <= k < c[m].1@.len() ==> exists|j: int|
                0 <= j < d.len() && (#[trigger] d[j]).body == #[trigger] c[m].1@[k],
{
    reveal(mi_size);
    reveal(mi_distinct);
    reveal(mi_names);
    reveal(mi_bases);
    reveal(mi_nonempty);
    reveal(mi_fwd);
    reveal(mi_back);
    reveal(mi_bodies);
    reveal(mi_from);
    assert(d.subrange(0, d.len() as int) =~= d);
}

/// Groups definitions by name into `(name, alternatives)` entries, folding each `=/` into the
/// rule it extends, and reports the definitions that cannot be merged.
#[verifier::spinoff_prover]
fn merge_entries(
    defs: Vec<Definition>,
    errors: &mut Vec<CheckError>,
    Ghost(keys): Ghost<Set<Seq<char>>>,
) -> (c: Vec<(RuleName, Vec<Element>)>)
    ensures
        merge_inv(c@, defs@, defs@.len() as int, keys),
        in_base_order(entry_names(c@), defs@),
        final(errors)@.len() >= old(errors)@.len(),
        final(errors)@.subrange(0, old(errors)@.len() as int) == old(errors)@,
        (final(errors)@.len() == old(errors)@.len()) <==> merge_clean(defs@),
        final(errors)@.len() == old(errors)@.len() + merge_failures(defs@, defs@.len() as int).len(),
        forall|t: int|
            0 <= t < merge_failures(defs@, defs@.len() as int).len() ==> merge_error_for(
                defs@,
                #[trigger] merge_failures(defs@, defs@.len() as int)[t],
                final(errors)@[old(errors)@.len() + t],
            ),
{
    let ghost d = defs@;
    let ghost e0 = old(errors)@;
    let total = defs.len();
    let mut rest = defs;
    let mut c: Vec<(RuleName, Vec<Element>)> = Vec::new();
    let mut i: usize = 0;
    proof {
        lemma_merge_start(d, keys);
        assert(errors@.subrange(0, e0.len() as int) =~= e0);
    }
    while rest.len() > 0
        invariant
            d.len() == total,
            i <= total,
            rest@ == d.subrange(i as int, d.len() as int),
            merge_inv(c@, d, i as int, keys),
            in_base_order(entry_names(c@), d),
            forall|m: int| 0 <= m < c@.len() ==> #[trigger] base_rank(d, entry_names(c@)[m]) < i,
            errors@.len() >= e0.len(),
            errors@.subrange(0, e0.len() as int) == e0,
            (errors@.len() == e0.len()) <==> merge_clean_upto(d, i as int),
            errors@.len() == e0.len() + merge_failures(d, i as int).len(),
            forall|t: int|
                0 <= t < merge_failures(d, i as int).len() ==> merge_error_for(
                    d,
                    #[trigger] merge_failures(d, i as int)[t],
                    errors@[e0.len() + t],
                ),
        decreases rest@.len(),
    {
        let definition = rest.remove(0);
        proof {
            assert(definition == d[i as int]);
        }
        let found = find_entry(&c, &definition.name);
        let failed = match definition.defined_as {
            DefinedAs::Base => match found {
                Some(_) => {
                    proof {
                        lemma_merge_skip(c@, d, i as int, keys);
                    }
                    Some(CheckError::DuplicateDefinition {
                        name: definition.name.as_str().to_owned(),
                        span: definition.span.0,
                    })
                },
                None => {
                    let ghost names0 = entry_names(c@);
                    proof {
                        reveal(mi_bases);
                        assert forall|x: int| 0 <= x < i && (#[trigger] d[x]).defined_as == DefinedAs::Base implies def_key(d[x])
                            != def_key(d[i as int]) by {
                            let m = choose|m: int| 0 <= m < c@.len() && name_key((#[trigger] c@[m]).0) == def_key(d[x]);
                        }
                        assert(first_base(d, def_key(d[i as int]), i as int));
                        lemma_base_rank_is(d, d[i as int].name, i as int);
                    }
                    merge_new_base(&mut c, definition, Ghost(d), Ghost(i as int), Ghost(keys));
                    proof {
                        let names = entry_names(c@);
                        assert(names == names0.push(d[i as int].name));
                        assert forall|m: int| 0 <= m < names.len() implies first_base(d, name_key(names[m]), #[trigger] base_rank(d, names[m]))
                            && base_rank(d, names[m]) < i + 1 by {
                            if m < names0.len() {
                                assert(names[m] == names0[m]);
                            }
                        }
                        assert forall|a: int, b: int| 0 <= a < b < names.len() implies #[trigger] base_rank(d, names[a]) < #[trigger] base_rank(d, names[b]) by {
                            assert(names[a] == names0[a]);
                            if b < names0.len() {
                                assert(names[b] == names0[b]);
                            }
                        }
                    }
                    None
                },
            },
            DefinedAs::Incremental => match found {
                Some(m) => {
                    let ghost names0 = entry_names(c@);
                    let ghost c_before = c@;
                    proof {
                        assert forall|q: int| 0 <= q < c_before.len() implies base_rank(d, #[trigger] names0[q]) < i by {
                            assert(base_rank(d, entry_names(c_before)[q]) < i);
                        }
                    }
                    merge_incremental(&mut c, m, definition, Ghost(d), Ghost(i as int), Ghost(keys));
                    proof {
                        assert(entry_names(c@) == names0);
                        assert(c@.len() == entry_names(c@).len());
                        assert forall|q: int| 0 <= q < c@.len() implies #[trigger] base_rank(d, entry_names(c@)[q]) < i + 1 by {
                            assert(entry_names(c@)[q] == names0[q]);
                            assert(base_rank(d, names0[q]) < i);
                        }
                    }
                    None
                },
                None => {
                    proof {
                        lemma_merge_skip(c@, d, i as int, keys);
                    }
                    let shadows = is_core_rule(definition.name.as_str());
                    Some(CheckError::IncrementalWithoutBase {
                        name: definition.name.as_str().to_owned(),
                        shadows_core: shadows,
                        span: definition.span.0,
                    })
                },
            },
        };
        proof {
            if failed is Some {
                assert(!merges_at(d, i as int));
                assert(merge_error_for(d, i as int, failed->Some_0));
            } else {
                assert(merges_at(d, i as int));
            }
        }
        let ghost before = errors@;
        match failed {
            Some(error) => {
                errors.push(error);
                proof {
                    assert(errors@.subrange(0, e0.len() as int) =~= e0);
                }
            },
            None => {},
        }
        proof {
            let p = merge_failures(d, i as int);
            let q = merge_failures(d, i + 1);
            assert forall|t: int| 0 <= t < q.len() implies merge_error_for(d, #[trigger] q[t], errors@[e0.len() + t]) by {
                if t < p.len() {
                    assert(q[t] == p[t]);
                    assert(errors@[e0.len() + t] == before[e0.len() + t]);
                }
            }
        }
        i = i + 1;
    }
    c
}

/// Folds each entry's alternatives into one body.
fn finish_merge(c: Vec<(RuleName, Vec<Element>)>, Ghost(keys): Ghost<Set<Seq<char>>>) -> (merged: Vec<Merged>)
    requires
        forall|k: int| 0 <= k < c@.len() ==> (#[trigger] c@[k]).1@.len() >= 1,
    ensures
        merged@.len() == c@.len(),
        forall|k: int| 0 <= k < c@.len() ==> (#[trigger] merged@[k]).name == c@[k].0,
        forall|k: int|
            0 <= k < c@.len() ==> (clean_in((#[trigger] merged@[k]).body, keys) <==> forall|x: int|
                0 <= x < c@[k].1@.len() ==> clean_in(#[trigger] c@[k].1@[x], keys)),
        merged_size(merged@) <= entries_size(c@),
        forall|k: int, t: Context|
            0 <= k < c@.len() ==> #[trigger] element_text(merged@[k].body, t) == merged_text(c@[k].1@, t),
        forall|k: int, ks: Set<Seq<char>>, err: CheckError|
            0 <= k < c@.len() && #[trigger] flaw_in(merged@[k].body, ks, err) ==> exists|x: int|
                0 <= x < c@[k].1@.len() && flaw_in(c@[k].1@[x], ks, err),
{
    let ghost c0 = c@;
    let mut c = c;
    let mut merged: Vec<Merged> = Vec::new();
    let mut m: usize = 0;
    let count = c.len();
    proof {
        assert(c0.subrange(0, 0) =~= Seq::<(RuleName, Vec<Element>)>::empty());
    }
    while c.len() > 0
        invariant
            c0.len() == count,
            m <= count,
            c@ == c0.subrange(m as int, c0.len() as int),
            merged@.len() == m,
            forall|k: int| 0 <= k < m ==> (#[trigger] merged@[k]).name == c0[k].0,
            forall|k: int| 0 <= k < c0.len() ==> (#[trigger] c0[k]).1@.len() >= 1,
            forall|k: int|
                0 <= k < m ==> (clean_in((#[trigger] merged@[k]).body, keys) <==> forall|x: int|
                    0 <= x < c0[k].1@.len() ==> clean_in(#[trigger] c0[k].1@[x], keys)),
            merged_size(merged@) <= entries_size(c0.subrange(0, m as int)),
            forall|k: int, t: Context|
                0 <= k < m ==> #[trigger] element_text(merged@[k].body, t) == merged_text(c0[k].1@, t),
            forall|k: int, ks: Set<Seq<char>>, err: CheckError|
                0 <= k < m && #[trigger] flaw_in(merged@[k].body, ks, err) ==> exists|x: int|
                    0 <= x < c0[k].1@.len() && flaw_in(c0[k].1@[x], ks, err),
        decreases c@.len(),
    {
        let (name, alts) = c.remove(0);
        proof {
            assert((name, alts) == c0[m as int]);
        }
        let body = combine(alts, Ghost(keys));
        let ghost before = merged@;
        merged.push(Merged { name, body });
        proof {
            assert(merged@.subrange(0, m as int) =~= before);
            assert(c0.subrange(0, m + 1).subrange(0, m as int) =~= c0.subrange(0, m as int));
        }
        m = m + 1;
    }
    proof {
        assert(c0.subrange(0, m as int) =~= c0);
    }
    merged
}

/// The merged rules are named as in the definitions: no two name the same rule, each is named
/// as an `=` names it, and every rule an `=` defines is among them.
#[verifier::opaque]
spec fn merged_names_ok(merged: Seq<Merged>, d: Seq<Definition>) -> bool {
    &&& forall|a: int, b: int|
        0 <= a < merged.len() && 0 <= b < merged.len() && a != b ==> name_key(
            #[trigger] merged[a].name,
        ) != name_key(#[trigger] merged[b].name)
    &&& forall|m: int|
        0 <= m < merged.len() ==> exists|j: int|
            0 <= j < d.len() && (#[trigger] d[j]).defined_as == DefinedAs::Base && (#[trigger] merged[m]).name
                == d[j].name
    &&& forall|j: int|
        0 <= j < d.len() && (#[trigger] d[j]).defined_as == DefinedAs::Base ==> exists|m: int|
            0 <= m < merged.len() && name_key((#[trigger] merged[m]).name) == def_key(d[j])
}

/// Whether every merged body is clean.
spec fn merged_clean(merged: Seq<Merged>, keys: Set<Seq<char>>) -> bool {
    forall|m: int| 0 <= m < merged.len() ==> clean_in((#[trigger] merged[m]).body, keys)
}

/// Clean definitions make clean merged bodies, and, when nothing was dropped, the converse.
#[verifier::opaque]
spec fn merged_clean_ok(merged: Seq<Merged>, d: Seq<Definition>, keys: Set<Seq<char>>) -> bool {
    &&& defs_clean(d, d.len() as int, keys) ==> merged_clean(merged, keys)
    &&& merge_clean(d) && merged_clean(merged, keys) ==> defs_clean(d, d.len() as int, keys)
}

proof fn lemma_merge_names(c0: Seq<(RuleName, Vec<Element>)>, merged: Seq<Merged>, d: Seq<Definition>)
    requires
        forall|a: int, b: int|
            0 <= a < c0.len() && 0 <= b < c0.len() && a != b ==> name_key(#[trigger] c0[a].0) != name_key(
                #[trigger] c0[b].0,
            ),
        forall|m: int|
            0 <= m < c0.len() ==> exists|j: int|
                0 <= j < d.len() && (#[trigger] d[j]).defined_as == DefinedAs::Base && (#[trigger] c0[m]).0
                    == d[j].name,
        forall|j: int|
            0 <= j < d.len() && (#[trigger] d[j]).defined_as == DefinedAs::Base ==> exists|m: int|
                0 <= m < c0.len() && name_key((#[trigger] c0[m]).0) == def_key(d[j]),
        merged.len() == c0.len(),
        forall|k: int| 0 <= k < c0.len() ==> (#[trigger] merged[k]).name == c0[k].0,
    ensures
        merged_names_ok(merged, d),
{
    reveal(merged_names_ok);
    assert forall|a: int, b: int|
        0 <= a < merged.len() && 0 <= b < merged.len() && a != b implies name_key(
            #[trigger] merged[a].name,
        ) != name_key(#[trigger] merged[b].name) by {
        assert(merged[a].name == c0[a].0 && merged[b].name == c0[b].0);
    }
    assert forall|mm: int| 0 <= mm < merged.len() implies exists|j: int|
        0 <= j < d.len() && (#[trigger] d[j]).defined_as == DefinedAs::Base
            && (#[trigger] merged[mm]).name == d[j].name by {
        assert(merged[mm].name == c0[mm].0);
        let j = choose|j: int|
            0 <= j < d.len() && (#[trigger] d[j]).defined_as == DefinedAs::Base && (#[trigger] c0[mm]).0 == d[j].name;
    }
    assert forall|j: int|
        0 <= j < d.len() && (#[trigger] d[j]).defined_as == DefinedAs::Base implies exists|mm: int|
            0 <= mm < merged.len() && name_key((#[trigger] merged[mm]).name) == def_key(d[j]) by {
        let mm = choose|mm: int| 0 <= mm < c0.len() && name_key((#[trigger] c0[mm]).0) == def_key(d[j]);
        assert(merged[mm].name == c0[mm].0);
    }
}

proof fn lemma_merge_clean(
    c0: Seq<(RuleName, Vec<Element>)>,
    merged: Seq<Merged>,
    d: Seq<Definition>,
    keys: Set<Seq<char>>,
)
    requires
        defs_clean(d, d.len() as int, keys) ==> entries_clean(c0, keys),
        merge_clean(d) ==> (entries_clean(c0, keys) ==> defs_clean(d, d.len() as int, keys)),
        merged.len() == c0.len(),
        forall|k: int|
            0 <= k < c0.len() ==> (clean_in((#[trigger] merged[k]).body, keys) <==> forall|x: int|
                0 <= x < c0[k].1@.len() ==> clean_in(#[trigger] c0[k].1@[x], keys)),
    ensures
        merged_clean_ok(merged, d, keys),
{
    reveal(merged_clean_ok);
    if defs_clean(d, d.len() as int, keys) {
        assert forall|mm: int| 0 <= mm < merged.len() implies clean_in((#[trigger] merged[mm]).body, keys) by {
            assert forall|x: int| 0 <= x < c0[mm].1@.len() implies clean_in(#[trigger] c0[mm].1@[x], keys) by {}
        }
    }
    if merge_clean(d) && merged_clean(merged, keys) {
        assert forall|mm: int, k: int| 0 <= mm < c0.len() && 0 <= k < c0[mm].1@.len() implies clean_in(#[trigger] c0[mm].1@[k], keys) by {
            assert(clean_in(merged[mm].body, keys));
        }
    }
}

/// Groups definitions by name and folds `=/` into the rule it extends.
#[verifier::rlimit(40)]
fn merge(defs: Vec<Definition>, errors: &mut Vec<CheckError>, Ghost(keys): Ghost<Set<Seq<char>>>) -> (merged: Vec<Merged>)
    ensures
        in_base_order(merged_rule_names(merged@), defs@),
        final(errors)@.len() >= old(errors)@.len(),
        final(errors)@.subrange(0, old(errors)@.len() as int) == old(errors)@,
        (final(errors)@.len() == old(errors)@.len()) <==> merge_clean(defs@),
        final(errors)@.len() == old(errors)@.len() + merge_failures(defs@, defs@.len() as int).len(),
        forall|t: int|
            0 <= t < merge_failures(defs@, defs@.len() as int).len() ==> merge_error_for(
                defs@,
                #[trigger] merge_failures(defs@, defs@.len() as int)[t],
                final(errors)@[old(errors)@.len() + t],
            ),
        merged_size(merged@) <= definitions_size(defs@),
        merged_names_ok(merged@, defs@),
        merged_clean_ok(merged@, defs@, keys),
        merge_clean(defs@) ==> forall|k: int, t: Context|
            0 <= k < merged@.len() ==> #[trigger] element_text(merged@[k].body, t) == merged_text(
                alternatives_for(defs@, name_key(merged@[k].name)),
                t,
            ),
        forall|k: int, ks: Set<Seq<char>>, err: CheckError|
            0 <= k < merged@.len() && #[trigger] flaw_in(merged@[k].body, ks, err) ==> exists|j: int|
                0 <= j < defs@.len() && flaw_in(defs@[j].body, ks, err),
{
    let ghost d = defs@;
    let c = merge_entries(defs, errors, Ghost(keys));
    proof {
        lemma_merge_done(c@, d, keys);
    }
    let ghost c0 = c@;
    let merged = finish_merge(c, Ghost(keys));
    proof {
        assert(merged_rule_names(merged@) =~= entry_names(c0));
        lemma_merge_names(c0, merged@, d);
        lemma_merge_clean(c0, merged@, d, keys);
        assert forall|k: int, ks: Set<Seq<char>>, err: CheckError|
            0 <= k < merged@.len() && #[trigger] flaw_in(merged@[k].body, ks, err) implies exists|j: int|
                0 <= j < d.len() && flaw_in(d[j].body, ks, err) by {
            let x = choose|x: int| 0 <= x < c0[k].1@.len() && flaw_in(c0[k].1@[x], ks, err);
            let j = choose|j: int| 0 <= j < d.len() && (#[trigger] d[j]).body == #[trigger] c0[k].1@[x];
        }
    }
    merged
}

/// The case-folded names of a list of rule names.
pub open spec fn key_set(names: Seq<RuleName>) -> Set<Seq<char>> {
    Set::new(|k: Seq<char>| exists|u: int| 0 <= u < names.len() && name_key(#[trigger] names[u]) == k)
}

/// Which environment a rule reference is being resolved in.
#[derive(Clone, Copy, PartialEq, Eq, Structural)]
enum Scope {
    /// A user rule body: user rules first, then core.
    User,
    /// A core rule body: core rules only, so that shadowing cannot reach inside.
    Core,
}

/// Whether `scope` is the core environment.
spec fn is_core(scope: Scope) -> bool {
    scope == Scope::Core
}

/// The arena under construction, and the errors found so far.
struct Builder {
    rules: Vec<Rule>,
    nodes: Vec<Node>,
    resolved: Vec<Option<RuleId>>,
    user_names: Vec<RuleName>,
    core_names: Vec<RuleName>,
    errors: Vec<CheckError>,
}

impl Builder {
    /// Every rule name, user rules first, in table order.
    spec fn names(&self) -> Seq<RuleName> {
        self.user_names@ + self.core_names@
    }

    /// The folded names a reference may resolve to in `scope`.
    spec fn scope_keys(&self, scope: Scope) -> Set<Seq<char>> {
        match scope {
            Scope::User => key_set(self.user_names@).union(core_keys()),
            Scope::Core => core_keys(),
        }
    }

    spec fn wf(&self) -> bool {
        &&& self.resolved@.len() == self.nodes@.len()
        &&& self.core_names@.len() == CORE_RULE_COUNT
        &&& forall|c: int| 0 <= c < CORE_RULE_COUNT ==> (#[trigger] self.core_names@[c])@ == core_names()[c]
        &&& self.user_names@.len() < u32::MAX
    }

    /// The facts lowering keeps: the names are fixed and the arena only grows, at the end.
    spec fn grows_from(&self, old: &Builder) -> bool {
        &&& self.wf()
        &&& self.user_names == old.user_names
        &&& self.core_names == old.core_names
        &&& self.rules == old.rules
        &&& self.nodes@.len() >= old.nodes@.len()
        &&& forall|k: int| 0 <= k < old.nodes@.len() ==> #[trigger] self.nodes@[k] == old.nodes@[k]
        &&& forall|k: int| 0 <= k < old.nodes@.len() ==> #[trigger] self.resolved@[k] == old.resolved@[k]
        &&& self.errors@.len() >= old.errors@.len()
        &&& self.errors@.subrange(0, old.errors@.len() as int) == old.errors@
    }

    /// Every node from `lo` on is well formed in `scope`.
    spec fn nodes_ok_from(&self, lo: int, scope: Scope) -> bool {
        forall|k: int|
            lo <= k < self.nodes@.len() ==> #[trigger] node_ok_in(
                self.nodes@,
                self.resolved@,
                self.names(),
                self.user_names@.len(),
                k,
                is_core(scope),
            )
    }

    /// What a reference named `name` resolves to in `scope`.
    fn resolve(&self, name: &RuleName, scope: Scope) -> (r: Option<RuleId>)
        requires
            self.wf(),
        ensures
            match r {
                Some(RuleId::User(u)) => {
                    &&& scope == Scope::User
                    &&& u < self.user_names@.len()
                    &&& name_key(self.user_names@[u as int]) == name_key(*name)
                },
                Some(RuleId::Core(c)) => {
                    &&& c < CORE_RULE_COUNT
                    &&& name_key(self.core_names@[c as int]) == name_key(*name)
                    &&& scope == Scope::User ==> forall|u: int|
                        0 <= u < self.user_names@.len() ==> name_key(#[trigger] self.user_names@[u])
                            != name_key(*name)
                },
                None => !self.scope_keys(scope).contains(name_key(*name)),
            },
    {
        proof {
            reveal(name_key);
        }
        if scope == Scope::User {
            let mut u: usize = 0;
            while u < self.user_names.len()
                invariant
                    scope == Scope::User,
                    u <= self.user_names@.len(),
                    self.user_names@.len() < u32::MAX,
                    forall|j: int| 0 <= j < u ==> name_key(#[trigger] self.user_names@[j]) != name_key(*name),
                decreases self.user_names@.len() - u,
            {
                proof {
                    reveal(name_key);
                }
                if self.user_names[u].same_rule(name) {
                    return Some(RuleId::User(u as u32));
                }
                u = u + 1;
            }
        }
        let mut c: usize = 0;
        while c < self.core_names.len()
            invariant
                self.wf(),
                c <= CORE_RULE_COUNT,
                scope == Scope::User ==> forall|j: int|
                    0 <= j < self.user_names@.len() ==> name_key(#[trigger] self.user_names@[j]) != name_key(*name),
                forall|j: int| 0 <= j < c ==> name_key(#[trigger] self.core_names@[j]) != name_key(*name),
            decreases CORE_RULE_COUNT - c,
        {
            proof {
                reveal(name_key);
            }
            if self.core_names[c].same_rule(name) {
                return Some(RuleId::Core(c as u32));
            }
            c = c + 1;
        }
        proof {
            if self.scope_keys(scope).contains(name_key(*name)) {
                if core_keys().contains(name_key(*name)) {
                    let i = choose|i: int| 0 <= i < core_names().len() && name_key(*name) == fold_case(#[trigger] core_names()[i]);
                    assert(name_key(self.core_names@[i]) == fold_case(core_names()[i]));
                } else {
                    let u = choose|u: int| 0 <= u < self.user_names@.len() && name_key(#[trigger] self.user_names@[u]) == name_key(*name);
                }
            }
        }
        None
    }
}

/// A well-formed node stays well formed when the arena grows around it.
proof fn lemma_node_ok_frame(
    n1: Seq<Node>,
    r1: Seq<Option<RuleId>>,
    n2: Seq<Node>,
    r2: Seq<Option<RuleId>>,
    names: Seq<RuleName>,
    users: nat,
    k: int,
    in_core: bool,
)
    requires
        node_ok_in(n1, r1, names, users, k, in_core),
        n2.len() >= n1.len(),
        r2.len() == n2.len(),
        n2[k] == n1[k],
        r2[k] == r1[k],
    ensures
        node_ok_in(n2, r2, names, users, k, in_core),
{
}

proof fn lemma_grows_trans(a: Builder, b: Builder, c: Builder)
    requires
        b.grows_from(&a),
        c.grows_from(&b),
    ensures
        c.grows_from(&a),
{
    assert forall|k: int| 0 <= k < a.nodes@.len() implies #[trigger] c.nodes@[k] == a.nodes@[k] by {
        assert(b.nodes@[k] == a.nodes@[k]);
        assert(c.nodes@[k] == b.nodes@[k]);
    }
    assert forall|k: int| 0 <= k < a.nodes@.len() implies #[trigger] c.resolved@[k] == a.resolved@[k] by {
        assert(b.resolved@[k] == a.resolved@[k]);
        assert(c.resolved@[k] == b.resolved@[k]);
    }
    assert(c.errors@.subrange(0, a.errors@.len() as int) =~= a.errors@) by {
        assert(c.errors@.subrange(0, b.errors@.len() as int) == b.errors@);
        assert(b.errors@.subrange(0, a.errors@.len() as int) == a.errors@);
        assert forall|k: int| 0 <= k < a.errors@.len() implies c.errors@[k] == a.errors@[k] by {
            assert(c.errors@.subrange(0, b.errors@.len() as int)[k] == c.errors@[k]);
            assert(b.errors@.subrange(0, a.errors@.len() as int)[k] == b.errors@[k]);
        }
    }
}

impl Builder {
    /// Emits `element` and its subtree, parent before children, and returns the parent's id.
    fn lower(&mut self, element: &Element, scope: Scope) -> (id: NodeId)
        requires
            old(self).wf(),
            old(self).nodes@.len() + element_size(*element) <= u32::MAX,
        ensures
            final(self).grows_from(old(self)),
            id.spec_index() == old(self).nodes@.len(),
            final(self).nodes@.len() == old(self).nodes@.len() + element_size(*element),
            (final(self).errors@.len() == old(self).errors@.len()) <==> clean_in(
                *element,
                old(self).scope_keys(scope),
            ),
            final(self).errors@.len() == old(self).errors@.len() ==> final(self).nodes_ok_from(
                old(self).nodes@.len() as int,
                scope,
            ),
            closed(final(self).nodes@, old(self).nodes@.len() as int, final(self).nodes@.len() as int),
            forall|c: Context|
                #[trigger] node_text(final(self).nodes@, id.spec_index() as int, c) == element_text(*element, c),
            children_in_preorder(final(self).nodes@, id.spec_index() as int, *element),
            forall|t: int|
                old(self).errors@.len() <= t < final(self).errors@.len() ==> flaw_in(
                    *element,
                    old(self).scope_keys(scope),
                    #[trigger] final(self).errors@[t],
                ),
        decreases element,
    {
        let ghost before = *self;
        let at = self.nodes.len();
        let id = NodeId::from_index(at as u32);
        self.nodes.push(Node::ProseVal(String::new()));
        self.resolved.push(None);
        let ghost after_push = *self;
        proof {
            reveal(clean_in);
            assert(self.errors@.subrange(0, before.errors@.len() as int) =~= before.errors@);
            assert(after_push.grows_from(&before));
        }
        let node = match element {
            Element::Alt(branches) => {
                assert(decreases_to!(element => branches));
                let ids = self.lower_all(branches, scope, Ghost(at as int));
                proof {
                    lemma_grows_trans(before, after_push, *self);
                    assert forall|t: int| before.errors@.len() <= t < self.errors@.len() implies flaw_in(
                        *element,
                        before.scope_keys(scope),
                        #[trigger] self.errors@[t],
                    ) by {
                        let i = choose|i: int| 0 <= i < branches@.len() && flaw_in(branches@[i], before.scope_keys(scope), self.errors@[t]);
                        assert(flaw_in(branches@[i], before.scope_keys(scope), self.errors@[t]));
                    }
                }
                Node::Alt { branches: ids }
            },
            Element::Concat(items) => {
                assert(decreases_to!(element => items));
                let ids = self.lower_all(items, scope, Ghost(at as int));
                proof {
                    lemma_grows_trans(before, after_push, *self);
                    assert forall|t: int| before.errors@.len() <= t < self.errors@.len() implies flaw_in(
                        *element,
                        before.scope_keys(scope),
                        #[trigger] self.errors@[t],
                    ) by {
                        let i = choose|i: int| 0 <= i < items@.len() && flaw_in(items@[i], before.scope_keys(scope), self.errors@[t]);
                        assert(flaw_in(items@[i], before.scope_keys(scope), self.errors@[t]));
                    }
                }
                Node::Concat { items: ids }
            },
            Element::Repeat { repeat, body, span } => {
                if !repeat.is_valid() {
                    let max = match repeat.max {
                        Some(m) => m,
                        None => 0,
                    };
                    self.errors.push(CheckError::InvalidRepeatRange { min: repeat.min, max, span: span.0 });
                }
                let ghost mid = *self;
                proof {
                    assert(mid.errors@.subrange(0, after_push.errors@.len() as int) =~= after_push.errors@);
                    assert(mid.grows_from(&after_push));
                    lemma_grows_trans(before, after_push, mid);
                }
                let b = self.lower(body, scope);
                proof {
                    lemma_grows_trans(before, mid, *self);
                    if !repeat.spec_is_valid() {
                        assert(self.errors@.len() > before.errors@.len());
                    }
                    assert forall|t: int| before.errors@.len() <= t < self.errors@.len() implies flaw_in(
                        *element,
                        before.scope_keys(scope),
                        #[trigger] self.errors@[t],
                    ) by {
                        if t < mid.errors@.len() {
                            assert(self.errors@[t] == mid.errors@[t]);
                        } else {
                            assert(flaw_in(**body, before.scope_keys(scope), self.errors@[t]));
                        }
                    }
                }
                Node::Repeat { repeat: *repeat, body: b, span: *span }
            },
            Element::Optional(body) => {
                let b = self.lower(body, scope);
                proof {
                    lemma_grows_trans(before, after_push, *self);
                    assert forall|t: int| before.errors@.len() <= t < self.errors@.len() implies flaw_in(
                        *element,
                        before.scope_keys(scope),
                        #[trigger] self.errors@[t],
                    ) by {
                        assert(flaw_in(**body, before.scope_keys(scope), self.errors@[t]));
                    }
                }
                Node::Optional { body: b }
            },
            Element::RuleRef { name, span } => {
                match self.resolve(name, scope) {
                    Some(target) => {
                        self.resolved.set(at, Some(target));
                    },
                    None => {
                        self.errors.push(CheckError::UndefinedRule { name: name.as_str().to_owned(), span: span.0 });
                    },
                }
                proof {
                    assert(self.errors@.subrange(0, before.errors@.len() as int) =~= before.errors@);
                    assert(self.grows_from(&before));
                    assert forall|t: int| before.errors@.len() <= t < self.errors@.len() implies flaw_in(
                        *element,
                        before.scope_keys(scope),
                        #[trigger] self.errors@[t],
                    ) by {}
                    reveal(name_key);
                }
                Node::RuleRef { name: name.clone(), span: *span }
            },
            Element::CharVal(value) => Node::CharVal(value.clone()),
            Element::NumVal { value, span } => {
                match value {
                    NumVal::Range { lo, hi } => {
                        if *lo > *hi {
                            self.errors.push(CheckError::InvalidNumericRange { lo: *lo, hi: *hi, span: span.0 });
                        }
                    },
                    _ => {},
                }
                proof {
                    assert(self.errors@.subrange(0, before.errors@.len() as int) =~= before.errors@);
                    assert(self.grows_from(&before));
                    assert forall|t: int| before.errors@.len() <= t < self.errors@.len() implies flaw_in(
                        *element,
                        before.scope_keys(scope),
                        #[trigger] self.errors@[t],
                    ) by {}
                }
                Node::NumVal { value: value.clone(), span: *span }
            },
            Element::ProseVal { text, .. } => Node::ProseVal(text.clone()),
        };
        let ghost pre_set = *self;
        self.nodes.set(at, node);
        proof {
            assert forall|t: int| before.errors@.len() <= t < self.errors@.len() implies flaw_in(
                *element,
                before.scope_keys(scope),
                #[trigger] self.errors@[t],
            ) by {
                assert(self.errors@[t] == pre_set.errors@[t]);
                if pre_set.errors@.len() == before.errors@.len() {
                }
            }
            assert(pre_set.grows_from(&before));
            assert(pre_set.names() == self.names());
            assert forall|k: int| 0 <= k < before.nodes@.len() implies #[trigger] self.nodes@[k] == before.nodes@[k] by {
                assert(pre_set.nodes@[k] == before.nodes@[k]);
            }
            assert forall|k: int| 0 <= k < before.nodes@.len() implies #[trigger] self.resolved@[k] == before.resolved@[k] by {
                assert(pre_set.resolved@[k] == before.resolved@[k]);
            }
            if self.errors@.len() == before.errors@.len() {
                assert forall|k: int| at < k < self.nodes@.len() implies #[trigger] node_ok_in(
                    self.nodes@,
                    self.resolved@,
                    self.names(),
                    self.user_names@.len(),
                    k,
                    is_core(scope),
                ) by {
                    assert(node_ok_in(pre_set.nodes@, pre_set.resolved@, pre_set.names(), pre_set.user_names@.len(), k, is_core(scope)));
                    lemma_node_ok_frame(pre_set.nodes@, pre_set.resolved@, self.nodes@, self.resolved@, self.names(), self.user_names@.len(), k, is_core(scope));
                }
            }
        }
        proof {
            let fin = self.nodes@;
            let pre = pre_set.nodes@;
            let a0 = at as int;
            let a1 = at as int + 1;
            let len = fin.len() as int;
            assert(fin[a0] == node);
            assert(agree(pre, fin, a1, len));
            assert(closed(pre, a1, len));
            assert(closed(fin, a0, len)) by {
                assert forall|k: int| a0 <= k < len implies crate::display::children_within(#[trigger] fin[k], k, len) by {
                    if k > a0 {
                        assert(fin[k] == pre[k]);
                        assert(crate::display::children_within(pre[k], k, len));
                    }
                }
            }
            let el = *element;
            match el {
                Element::Alt(bs) => {
                    let ids = fin[a0]->Alt_branches;
                    assert forall|k: int| 0 <= k < bs@.len() implies #[trigger] element_text(bs@[k], Context::Free)
                        == crate::display::child_text(fin, a0, ids@[k], Context::Free) by {
                        lemma_node_text_frame(pre, fin, a1, len, ids@[k].spec_index() as int, Context::Free);
                    }
                    lemma_joined_ids(fin, a0, bs@, ids@, " / "@, Context::Free);
                },
                Element::Concat(bs) => {
                    let ids = fin[a0]->Concat_items;
                    assert forall|k: int| 0 <= k < bs@.len() implies #[trigger] element_text(bs@[k], Context::Concat)
                        == crate::display::child_text(fin, a0, ids@[k], Context::Concat) by {
                        lemma_node_text_frame(pre, fin, a1, len, ids@[k].spec_index() as int, Context::Concat);
                    }
                    lemma_joined_ids(fin, a0, bs@, ids@, " "@, Context::Concat);
                },
                Element::Repeat { .. } => {
                    let b = fin[a0]->Repeat_body.spec_index() as int;
                    lemma_node_text_frame(pre, fin, a1, len, b, Context::Repeat);
                },
                Element::Optional(_) => {
                    let b = fin[a0]->Optional_body.spec_index() as int;
                    lemma_node_text_frame(pre, fin, a1, len, b, Context::Free);
                },
                _ => {},
            }
            assert forall|c: Context| #[trigger] node_text(fin, a0, c) == element_text(*element, c) by {
                assert(crate::display::node_bare(fin, a0) == crate::display::bare_text(*element));
            }
        }
        id
    }

    /// Emits each element of `elements` in turn, and returns their ids.
    fn lower_all(&mut self, elements: &Vec<Element>, scope: Scope, Ghost(parent): Ghost<int>) -> (ids: Vec<NodeId>)
        requires
            old(self).wf(),
            old(self).nodes@.len() + elements_size(elements@) <= u32::MAX,
            0 <= parent < old(self).nodes@.len(),
        ensures
            final(self).grows_from(old(self)),
            final(self).nodes@.len() == old(self).nodes@.len() + elements_size(elements@),
            ids@.len() == elements@.len(),
            forall|i: int| 0 <= i < ids@.len() ==> parent < (#[trigger] ids@[i]).spec_index() < final(self).nodes@.len(),
            (final(self).errors@.len() == old(self).errors@.len()) <==> forall|i: int|
                0 <= i < elements@.len() ==> clean_in(#[trigger] elements@[i], old(self).scope_keys(scope)),
            final(self).errors@.len() == old(self).errors@.len() ==> final(self).nodes_ok_from(
                old(self).nodes@.len() as int,
                scope,
            ),
            closed(final(self).nodes@, old(self).nodes@.len() as int, final(self).nodes@.len() as int),
            forall|i: int| 0 <= i < ids@.len() ==> old(self).nodes@.len() <= (#[trigger] ids@[i]).spec_index(),
            forall|i: int|
                0 <= i < ids@.len() ==> (#[trigger] ids@[i]).spec_index() == old(self).nodes@.len() + elements_size(
                    elements@.subrange(0, i),
                ),
            forall|i: int, c: Context|
                0 <= i < ids@.len() ==> #[trigger] node_text(final(self).nodes@, ids@[i].spec_index() as int, c)
                    == element_text(elements@[i], c),
            flaws_of(final(self).errors@, old(self).errors@.len() as int, elements@, old(self).scope_keys(scope)),
        decreases elements,
    {
        let ghost before = *self;
        let ghost keys = before.scope_keys(scope);
        let mut ids: Vec<NodeId> = Vec::new();
        let mut i: usize = 0;
        proof {
            assert(elements@.subrange(0, 0) =~= Seq::<Element>::empty());
            assert(self.errors@.subrange(0, before.errors@.len() as int) =~= before.errors@);
        }
        while i < elements.len()
            invariant
                self.grows_from(&before),
                i <= elements@.len(),
                ids@.len() == i,
                before.nodes@.len() + elements_size(elements@) <= u32::MAX,
                self.nodes@.len() == before.nodes@.len() + elements_size(elements@.subrange(0, i as int)),
                self.scope_keys(scope) == keys,
                0 <= parent < before.nodes@.len(),
                forall|j: int| 0 <= j < i ==> parent < (#[trigger] ids@[j]).spec_index() < self.nodes@.len(),
                (self.errors@.len() == before.errors@.len()) <==> forall|j: int|
                    0 <= j < i ==> clean_in(#[trigger] elements@[j], keys),
                self.errors@.len() == before.errors@.len() ==> self.nodes_ok_from(before.nodes@.len() as int, scope),
                closed(self.nodes@, before.nodes@.len() as int, self.nodes@.len() as int),
                forall|j: int| 0 <= j < i ==> before.nodes@.len() <= (#[trigger] ids@[j]).spec_index(),
                forall|j: int|
                    0 <= j < i ==> (#[trigger] ids@[j]).spec_index() == before.nodes@.len() + elements_size(
                        elements@.subrange(0, j),
                    ),
                forall|j: int, c: Context|
                    0 <= j < i ==> #[trigger] node_text(self.nodes@, ids@[j].spec_index() as int, c)
                        == element_text(elements@[j], c),
                flaws_of(self.errors@, before.errors@.len() as int, elements@, keys),
            decreases elements@.len() - i,
        {
            assert(decreases_to!(elements => elements@[i as int]));
            proof {
                lemma_elements_size_prefix_le(elements@, i as int + 1);
                assert(elements@.subrange(0, i + 1).subrange(0, i as int) =~= elements@.subrange(0, i as int));
            }
            let ghost mid = *self;
            let id = self.lower(&elements[i], scope);
            ids.push(id);
            proof {
                assert(agree(mid.nodes@, self.nodes@, before.nodes@.len() as int, mid.nodes@.len() as int));
                lemma_closed_join(mid.nodes@, self.nodes@, before.nodes@.len() as int, mid.nodes@.len() as int, self.nodes@.len() as int);
                assert forall|j: int, c: Context|
                    0 <= j < i + 1 implies #[trigger] node_text(self.nodes@, ids@[j].spec_index() as int, c)
                        == element_text(elements@[j], c) by {
                    if j < i {
                        lemma_node_text_frame(mid.nodes@, self.nodes@, before.nodes@.len() as int, mid.nodes@.len() as int, ids@[j].spec_index() as int, c);
                    }
                }
                lemma_grows_trans(before, mid, *self);
                assert(self.errors@.subrange(0, before.errors@.len() as int) =~= before.errors@) by {
                    assert(mid.errors@.subrange(0, before.errors@.len() as int) =~= before.errors@);
                }
                assert(mid.names() == self.names());
                if self.errors@.len() == before.errors@.len() {
                    assert(mid.errors@.len() == before.errors@.len());
                    assert forall|k: int| before.nodes@.len() <= k < self.nodes@.len() implies #[trigger] node_ok_in(
                        self.nodes@,
                        self.resolved@,
                        self.names(),
                        self.user_names@.len(),
                        k,
                        is_core(scope),
                    ) by {
                        if k < mid.nodes@.len() {
                            lemma_node_ok_frame(mid.nodes@, mid.resolved@, self.nodes@, self.resolved@, self.names(), self.user_names@.len(), k, is_core(scope));
                        }
                    }
                }
                if self.errors@.len() == before.errors@.len() {
                    assert(clean_in(elements@[i as int], keys));
                } else if mid.errors@.len() == before.errors@.len() {
                    assert(!clean_in(elements@[i as int], keys));
                }
                assert forall|t: int| before.errors@.len() <= t < self.errors@.len() implies exists|j: int|
                    0 <= j < elements@.len() && flaw_in(elements@[j], keys, #[trigger] self.errors@[t]) by {
                    if t < mid.errors@.len() {
                        assert(self.errors@[t] == mid.errors@[t]);
                    } else {
                        assert(flaw_in(elements@[i as int], keys, self.errors@[t]));
                    }
                }
            }
            i = i + 1;
        }
        proof {
            assert(elements@.subrange(0, i as int) =~= elements@);
        }
        ids
    }
}

proof fn lemma_elements_size_prefix_le(s: Seq<Element>, i: int)
    requires
        0 <= i <= s.len(),
    ensures
        elements_size(s.subrange(0, i)) <= elements_size(s),
    decreases s.len() - i,
{
    if i < s.len() {
        lemma_elements_size_prefix_le(s, i + 1);
        assert(s.subrange(0, i + 1).subrange(0, i) =~= s.subrange(0, i));
    } else {
        assert(s.subrange(0, i) =~= s);
    }
}

proof fn lemma_merged_size_len(s: Seq<Merged>)
    ensures
        merged_size(s) >= s.len(),
    decreases s.len(),
{
    if s.len() > 0 {
        lemma_merged_size_len(s.subrange(0, s.len() - 1));
        assert(element_size(s[s.len() - 1].body) >= 1);
    }
}

proof fn lemma_merged_size_prefix(s: Seq<Merged>, i: int)
    requires
        0 <= i < s.len(),
    ensures
        merged_size(s.subrange(0, i + 1)) == merged_size(s.subrange(0, i)) + element_size(s[i].body),
{
    assert(s.subrange(0, i + 1).subrange(0, i) =~= s.subrange(0, i));
}

proof fn lemma_merged_size_mono(s: Seq<Merged>, i: int)
    requires
        0 <= i <= s.len(),
    ensures
        merged_size(s.subrange(0, i)) <= merged_size(s),
    decreases s.len() - i,
{
    if i < s.len() {
        lemma_merged_size_prefix(s, i);
        lemma_merged_size_mono(s, i + 1);
    } else {
        assert(s.subrange(0, i) =~= s);
    }
}

impl Builder {
    /// Indexes every rule name up front, so lowering can resolve references as it goes.
    fn new(user: &Vec<Merged>, core: &Vec<Merged>) -> (b: Builder)
        requires
            user@.len() < u32::MAX,
            core@.len() == CORE_RULE_COUNT,
            forall|c: int| 0 <= c < CORE_RULE_COUNT ==> (#[trigger] core@[c]).name@ == core_names()[c],
        ensures
            b.wf(),
            b.user_names@.len() == user@.len(),
            forall|u: int| 0 <= u < user@.len() ==> #[trigger] b.user_names@[u] == user@[u].name,
            forall|c: int| 0 <= c < CORE_RULE_COUNT ==> #[trigger] b.core_names@[c] == core@[c].name,
            b.rules@.len() == 0,
            b.nodes@.len() == 0,
            b.errors@.len() == 0,
    {
        let mut user_names: Vec<RuleName> = Vec::new();
        let mut i: usize = 0;
        while i < user.len()
            invariant
                i <= user@.len(),
                user_names@.len() == i,
                forall|u: int| 0 <= u < i ==> #[trigger] user_names@[u] == user@[u].name,
            decreases user@.len() - i,
        {
            user_names.push(user[i].name.clone());
            i = i + 1;
        }
        let mut core_names_v: Vec<RuleName> = Vec::new();
        let mut c: usize = 0;
        while c < core.len()
            invariant
                core@.len() == CORE_RULE_COUNT,
                forall|j: int| 0 <= j < CORE_RULE_COUNT ==> (#[trigger] core@[j]).name@ == core_names()[j],
                c <= CORE_RULE_COUNT,
                core_names_v@.len() == c,
                forall|j: int| 0 <= j < c ==> #[trigger] core_names_v@[j] == core@[j].name,
            decreases CORE_RULE_COUNT - c,
        {
            core_names_v.push(core[c].name.clone());
            c = c + 1;
        }
        Builder {
            rules: Vec::new(),
            nodes: Vec::new(),
            resolved: Vec::new(),
            user_names,
            core_names: core_names_v,
            errors: Vec::new(),
        }
    }

    /// Lowers every rule of `table` in `scope`, in order, adding each to the rule table.
    fn lower_rules(&mut self, table: &Vec<Merged>, scope: Scope)
        requires
            old(self).wf(),
            old(self).nodes@.len() + merged_size(table@) <= u32::MAX,
        ensures
            final(self).wf(),
            final(self).user_names == old(self).user_names,
            final(self).core_names == old(self).core_names,
            final(self).rules@.len() == old(self).rules@.len() + table@.len(),
            forall|k: int| 0 <= k < old(self).rules@.len() ==> #[trigger] final(self).rules@[k] == old(self).rules@[k],
            forall|m: int|
                0 <= m < table@.len() ==> {
                    &&& (#[trigger] final(self).rules@[old(self).rules@.len() + m]).name == table@[m].name
                    &&& old(self).nodes@.len() <= final(self).rules@[old(self).rules@.len() + m].body.spec_index()
                        < final(self).nodes@.len()
                },
            final(self).nodes@.len() == old(self).nodes@.len() + merged_size(table@),
            forall|k: int| 0 <= k < old(self).nodes@.len() ==> #[trigger] final(self).nodes@[k] == old(self).nodes@[k],
            forall|k: int| 0 <= k < old(self).nodes@.len() ==> #[trigger] final(self).resolved@[k] == old(self).resolved@[k],
            final(self).errors@.len() >= old(self).errors@.len(),
            final(self).errors@.subrange(0, old(self).errors@.len() as int) == old(self).errors@,
            (final(self).errors@.len() == old(self).errors@.len()) <==> forall|m: int|
                0 <= m < table@.len() ==> clean_in((#[trigger] table@[m]).body, old(self).scope_keys(scope)),
            final(self).errors@.len() == old(self).errors@.len() ==> final(self).nodes_ok_from(
                old(self).nodes@.len() as int,
                scope,
            ),
            closed(final(self).nodes@, old(self).nodes@.len() as int, final(self).nodes@.len() as int),
            forall|m: int, c: Context|
                0 <= m < table@.len() ==> #[trigger] node_text(
                    final(self).nodes@,
                    final(self).rules@[old(self).rules@.len() + m].body.spec_index() as int,
                    c,
                ) == element_text(table@[m].body, c),
            forall|t: int|
                old(self).errors@.len() <= t < final(self).errors@.len() ==> exists|m: int|
                    0 <= m < table@.len() && flaw_in(table@[m].body, old(self).scope_keys(scope), #[trigger] final(self).errors@[t]),
    {
        let ghost before = *self;
        let ghost keys = before.scope_keys(scope);
        let mut i: usize = 0;
        proof {
            assert(table@.subrange(0, 0) =~= Seq::<Merged>::empty());
            assert(self.errors@.subrange(0, before.errors@.len() as int) =~= before.errors@);
        }
        while i < table.len()
            invariant
                self.wf(),
                self.user_names == before.user_names,
                self.core_names == before.core_names,
                self.scope_keys(scope) == keys,
                i <= table@.len(),
                before.nodes@.len() + merged_size(table@) <= u32::MAX,
                self.rules@.len() == before.rules@.len() + i,
                forall|k: int| 0 <= k < before.rules@.len() ==> #[trigger] self.rules@[k] == before.rules@[k],
                forall|m: int|
                    0 <= m < i ==> {
                        &&& (#[trigger] self.rules@[before.rules@.len() + m]).name == table@[m].name
                        &&& before.nodes@.len() <= self.rules@[before.rules@.len() + m].body.spec_index()
                            < self.nodes@.len()
                    },
                self.nodes@.len() == before.nodes@.len() + merged_size(table@.subrange(0, i as int)),
                forall|k: int| 0 <= k < before.nodes@.len() ==> #[trigger] self.nodes@[k] == before.nodes@[k],
                forall|k: int| 0 <= k < before.nodes@.len() ==> #[trigger] self.resolved@[k] == before.resolved@[k],
                self.errors@.len() >= before.errors@.len(),
                self.errors@.subrange(0, before.errors@.len() as int) == before.errors@,
                (self.errors@.len() == before.errors@.len()) <==> forall|m: int|
                    0 <= m < i ==> clean_in((#[trigger] table@[m]).body, keys),
                self.errors@.len() == before.errors@.len() ==> self.nodes_ok_from(before.nodes@.len() as int, scope),
                closed(self.nodes@, before.nodes@.len() as int, self.nodes@.len() as int),
                forall|m: int, c: Context|
                    0 <= m < i ==> #[trigger] node_text(
                        self.nodes@,
                        self.rules@[before.rules@.len() + m].body.spec_index() as int,
                        c,
                    ) == element_text(table@[m].body, c),
                forall|t: int|
                    before.errors@.len() <= t < self.errors@.len() ==> exists|m: int|
                        0 <= m < table@.len() && flaw_in(table@[m].body, keys, #[trigger] self.errors@[t]),
            decreases table@.len() - i,
        {
            proof {
                lemma_merged_size_prefix(table@, i as int);
                lemma_merged_size_mono(table@, i as int + 1);
            }
            let ghost mid = *self;
            let body = self.lower(&table[i].body, scope);
            let ghost after = *self;
            self.rules.push(Rule { name: table[i].name.clone(), body });
            proof {
                assert(agree(mid.nodes@, self.nodes@, before.nodes@.len() as int, mid.nodes@.len() as int));
                lemma_closed_join(mid.nodes@, self.nodes@, before.nodes@.len() as int, mid.nodes@.len() as int, self.nodes@.len() as int);
                assert forall|m: int, c: Context|
                    0 <= m < i + 1 implies #[trigger] node_text(
                        self.nodes@,
                        self.rules@[before.rules@.len() + m].body.spec_index() as int,
                        c,
                    ) == element_text(table@[m].body, c) by {
                    if m < i {
                        assert(self.rules@[before.rules@.len() + m] == mid.rules@[before.rules@.len() + m]);
                        lemma_node_text_frame(
                            mid.nodes@,
                            self.nodes@,
                            before.nodes@.len() as int,
                            mid.nodes@.len() as int,
                            mid.rules@[before.rules@.len() + m].body.spec_index() as int,
                            c,
                        );
                    }
                }
                assert(after.grows_from(&mid));
                assert(mid.names() == after.names());
                assert forall|k: int| 0 <= k < before.nodes@.len() implies #[trigger] self.nodes@[k] == before.nodes@[k] by {
                    assert(after.nodes@[k] == mid.nodes@[k]);
                }
                assert forall|k: int| 0 <= k < before.nodes@.len() implies #[trigger] self.resolved@[k] == before.resolved@[k] by {
                    assert(after.resolved@[k] == mid.resolved@[k]);
                }
                assert(self.errors@.subrange(0, before.errors@.len() as int) =~= before.errors@) by {
                    assert(after.errors@.subrange(0, mid.errors@.len() as int) == mid.errors@);
                    assert forall|k: int| 0 <= k < before.errors@.len() implies self.errors@[k] == before.errors@[k] by {
                        assert(after.errors@.subrange(0, mid.errors@.len() as int)[k] == after.errors@[k]);
                        assert(mid.errors@.subrange(0, before.errors@.len() as int)[k] == mid.errors@[k]);
                    }
                }
                assert forall|k: int| 0 <= k < before.rules@.len() implies #[trigger] self.rules@[k] == before.rules@[k] by {
                    assert(mid.rules@[k] == before.rules@[k]);
                }
                assert forall|m: int| 0 <= m < i + 1 implies {
                    &&& (#[trigger] self.rules@[before.rules@.len() + m]).name == table@[m].name
                    &&& before.nodes@.len() <= self.rules@[before.rules@.len() + m].body.spec_index()
                        < self.nodes@.len()
                } by {
                    if m < i {
                        assert(self.rules@[before.rules@.len() + m] == mid.rules@[before.rules@.len() + m]);
                    }
                }
                assert forall|t: int| before.errors@.len() <= t < self.errors@.len() implies exists|m: int|
                    0 <= m < table@.len() && flaw_in(table@[m].body, keys, #[trigger] self.errors@[t]) by {
                    if t < mid.errors@.len() {
                        assert(after.errors@.subrange(0, mid.errors@.len() as int)[t] == after.errors@[t]);
                        assert(self.errors@[t] == mid.errors@[t]);
                    } else {
                        assert(self.errors@[t] == after.errors@[t]);
                        assert(flaw_in(table@[i as int].body, keys, self.errors@[t]));
                    }
                }
                if self.errors@.len() == before.errors@.len() {
                    assert(mid.errors@.len() == before.errors@.len());
                    assert forall|k: int| before.nodes@.len() <= k < self.nodes@.len() implies #[trigger] node_ok_in(
                        self.nodes@,
                        self.resolved@,
                        self.names(),
                        self.user_names@.len(),
                        k,
                        is_core(scope),
                    ) by {
                        if k < mid.nodes@.len() {
                            lemma_node_ok_frame(mid.nodes@, mid.resolved@, self.nodes@, self.resolved@, self.names(), self.user_names@.len(), k, is_core(scope));
                        }
                    }
                    assert(clean_in(table@[i as int].body, keys));
                } else if mid.errors@.len() == before.errors@.len() {
                    assert(!clean_in(table@[i as int].body, keys));
                }
            }
            i = i + 1;
        }
        proof {
            assert(table@.subrange(0, i as int) =~= table@);
        }
    }
}

impl Builder {
    /// The finished arena, as a checked grammar.
    fn finish(self, user_rules: usize, user_nodes: usize) -> (g: CheckedGrammar)
        requires
            self.wf(),
            user_rules == self.user_names@.len(),
            self.rules@.len() == user_rules + CORE_RULE_COUNT,
            forall|i: int| 0 <= i < self.rules@.len() ==> (#[trigger] self.rules@[i]).name == self.names()[i],
            forall|i: int| 0 <= i < self.rules@.len() ==> (#[trigger] self.rules@[i]).body.spec_index() < self.nodes@.len(),
            forall|c: int| 0 <= c < CORE_RULE_COUNT ==> (#[trigger] self.rules@[user_rules + c]).body.spec_index() >= user_nodes,
            user_nodes <= self.nodes@.len(),
            self.nodes@.len() <= u32::MAX,
            forall|k: int| 0 <= k < user_nodes ==> #[trigger] node_ok_in(self.nodes@, self.resolved@, self.names(), self.user_names@.len(), k, false),
            forall|k: int| user_nodes <= k < self.nodes@.len() ==> #[trigger] node_ok_in(self.nodes@, self.resolved@, self.names(), self.user_names@.len(), k, true),
        ensures
            g.wf(),
            g.spec_rules() == self.rules@,
            g.spec_user_rules() == user_rules,
            g.spec_nodes() == self.nodes@,
    {
        proof {
            let names = rule_names(self.rules@);
            assert(names =~= self.names());
            assert forall|c: int| 0 <= c < CORE_RULE_COUNT implies (#[trigger] self.rules@[user_rules + c]).name@ == core_names()[c] by {
                assert(self.names()[user_rules + c] == self.core_names@[c]);
            }
            assert forall|k: int| 0 <= k < self.nodes@.len() implies #[trigger] node_ok(
                self.nodes@,
                self.resolved@,
                names,
                user_rules as nat,
                user_nodes as nat,
                k,
            ) by {
                if k < user_nodes {
                    assert(node_ok_in(self.nodes@, self.resolved@, self.names(), self.user_names@.len(), k, false));
                } else {
                    assert(node_ok_in(self.nodes@, self.resolved@, self.names(), self.user_names@.len(), k, true));
                }
            }
        }
        CheckedGrammar {
            rules: self.rules,
            user_rules,
            user_nodes,
            nodes: self.nodes,
            resolved: self.resolved,
        }
    }
}

/// The core rules as a merged table: they contain no `=/`, so merging them is only a change of
/// representation, but they go through the same lowering as user rules.
fn core_table() -> (t: Vec<Merged>)
    ensures
        t@.len() == CORE_RULE_COUNT,
        forall|c: int| 0 <= c < CORE_RULE_COUNT ==> (#[trigger] t@[c]).name@ == core_names()[c],
        forall|c: int| 0 <= c < CORE_RULE_COUNT ==> clean_in((#[trigger] t@[c]).body, core_keys()),
        merged_size(t@) <= core_size_bound(),
{
    let g = core_grammar();
    let mut defs = g.into_definitions();
    let ghost d = defs@;
    let mut t: Vec<Merged> = Vec::new();
    let mut i: usize = 0;
    proof {
        reveal(clean_in);
        assert(t@.subrange(0, 0) =~= Seq::<Merged>::empty());
    }
    while defs.len() > 0
        invariant
            d.len() == CORE_RULE_COUNT,
            i <= CORE_RULE_COUNT,
            defs@ == d.subrange(i as int, d.len() as int),
            forall|j: int|
                0 <= j < CORE_RULE_COUNT ==> {
                    &&& (#[trigger] d[j]).name@ == core_names()[j]
                    &&& refs_within(d[j].body, core_keys())
                    &&& bounds_ok(d[j].body)
                    &&& element_size(d[j].body) <= 16
                },
            t@.len() == i,
            forall|c: int| 0 <= c < i ==> (#[trigger] t@[c]).name == d[c].name && t@[c].body == d[c].body,
            merged_size(t@) <= 16 * i,
        decreases defs@.len(),
    {
        let definition = defs.remove(0);
        proof {
            assert(definition == d[i as int]);
        }
        let ghost before = t@;
        t.push(Merged { name: definition.name, body: definition.body });
        proof {
            assert(t@.subrange(0, i as int) =~= before);
        }
        i = i + 1;
    }
    proof {
        reveal(clean_in);
    }
    t
}

/// Whether the user rules of `g` are the rules the definitions `d` define: each is named as an
/// `=` of `d` names it, no two are the same rule, and every rule an `=` defines is among them.
pub open spec fn rules_of(g: CheckedGrammar, d: Seq<Definition>) -> bool {
    let rules = g.spec_rules();
    let users = g.spec_user_rules();
    &&& forall|a: int, b: int|
        0 <= a < users && 0 <= b < users && a != b ==> name_key(#[trigger] rules[a].name) != name_key(
            #[trigger] rules[b].name,
        )
    &&& forall|u: int| 0 <= u < users ==> named_by_base(d, #[trigger] rules[u].name)
    &&& forall|j: int|
        0 <= j < d.len() && (#[trigger] d[j]).defined_as == DefinedAs::Base ==> exists|u: int|
            0 <= u < users && name_key((#[trigger] rules[u]).name) == def_key(d[j])
}

/// Whether some `=` of `d` names a rule exactly `n`.
pub open spec fn named_by_base(d: Seq<Definition>, n: RuleName) -> bool {
    exists|j: int| 0 <= j < d.len() && (#[trigger] d[j]).defined_as == DefinedAs::Base && d[j].name == n
}

/// Rules whose bodies print as the definitions `d` give them print as `d`'s merged rules.
proof fn lemma_rules_text_merged(nodes: Seq<Node>, rules: Seq<Rule>, d: Seq<Definition>)
    requires
        forall|u: int|
            0 <= u < rules.len() ==> #[trigger] node_text(nodes, rules[u].body.spec_index() as int, Context::Free)
                == merged_text(alternatives_for(d, name_key(rules[u].name)), Context::Free),
    ensures
        rules_text(nodes, rules) == merged_rules_text(rule_names(rules), d),
    decreases rules.len(),
{
    if rules.len() > 0 {
        let front = rules.subrange(0, rules.len() - 1);
        assert forall|u: int| 0 <= u < front.len() implies #[trigger] node_text(
            nodes,
            front[u].body.spec_index() as int,
            Context::Free,
        ) == merged_text(alternatives_for(d, name_key(front[u].name)), Context::Free) by {
            assert(front[u] == rules[u]);
        }
        lemma_rules_text_merged(nodes, front, d);
        assert(rule_names(rules).subrange(0, rules.len() - 1) =~= rule_names(front));
        assert(node_text(nodes, rules[rules.len() - 1].body.spec_index() as int, Context::Free) == merged_text(
            alternatives_for(d, name_key(rules[rules.len() - 1].name)),
            Context::Free,
        ));
    }
}

/// The user rules of a checked grammar, lowered from the merged table `merged` of the
/// definitions `d`, print as those definitions give them.
proof fn lemma_user_texts(
    g: CheckedGrammar,
    lowered: Seq<Node>,
    rules: Seq<Rule>,
    base: int,
    merged: Seq<Merged>,
    d: Seq<Definition>,
)
    requires
        base == 0,
        g.spec_user_rules() == merged.len(),
        rules.len() >= merged.len(),
        g.spec_rules().len() >= merged.len(),
        forall|u: int| 0 <= u < merged.len() ==> #[trigger] g.spec_rules()[u] == rules[u],
        forall|m: int|
            0 <= m < merged.len() ==> {
                &&& (#[trigger] rules[base + m]).name == merged[m].name
                &&& 0 <= rules[base + m].body.spec_index() < lowered.len()
            },
        forall|m: int, c: Context|
            0 <= m < merged.len() ==> #[trigger] node_text(lowered, rules[base + m].body.spec_index() as int, c)
                == element_text(merged[m].body, c),
        closed(lowered, 0, lowered.len() as int),
        agree(lowered, g.spec_nodes(), 0, lowered.len() as int),
        merge_clean(d),
        merge_clean(d) ==> forall|k: int, t: Context|
            0 <= k < merged.len() ==> #[trigger] element_text(merged[k].body, t) == merged_text(
                alternatives_for(d, name_key(merged[k].name)),
                t,
            ),
    ensures
        forall|u: int| 0 <= u < merged.len() ==> (#[trigger] g.spec_rules()[u]).name == merged[u].name,
        forall|u: int, t: Context|
            0 <= u < g.spec_user_rules() ==> #[trigger] node_text(
                g.spec_nodes(),
                g.spec_rules()[u].body.spec_index() as int,
                t,
            ) == merged_text(alternatives_for(d, name_key(g.spec_rules()[u].name)), t),
        checked_text(g) == (if g.spec_user_rules() == 0 {
            "\r\n"@
        } else {
            merged_rules_text(rule_names(g.spec_rules().subrange(0, g.spec_user_rules() as int)), d)
        }),
{
    assert forall|u: int, t: Context|
        0 <= u < g.spec_user_rules() implies #[trigger] node_text(
            g.spec_nodes(),
            g.spec_rules()[u].body.spec_index() as int,
            t,
        ) == merged_text(alternatives_for(d, name_key(g.spec_rules()[u].name)), t) by {
        assert(rules[base + u] == rules[u]);
        let body = rules[u].body.spec_index() as int;
        assert(node_text(lowered, rules[base + u].body.spec_index() as int, t) == element_text(merged[u].body, t));
        assert(rules[base + u].name == merged[u].name);
        lemma_node_text_frame(lowered, g.spec_nodes(), 0, lowered.len() as int, body, t);
    }
    assert forall|u: int| 0 <= u < merged.len() implies (#[trigger] g.spec_rules()[u]).name == merged[u].name by {
        assert(rules[base + u] == rules[u]);
        assert(rules[base + u].name == merged[u].name);
    }
    let user_table = g.spec_rules().subrange(0, g.spec_user_rules() as int);
    assert forall|u: int|
        0 <= u < user_table.len() implies #[trigger] node_text(
            g.spec_nodes(),
            user_table[u].body.spec_index() as int,
            Context::Free,
        ) == merged_text(alternatives_for(d, name_key(user_table[u].name)), Context::Free) by {
        assert(user_table[u] == g.spec_rules()[u]);
        assert(node_text(g.spec_nodes(), g.spec_rules()[u].body.spec_index() as int, Context::Free)
            == merged_text(alternatives_for(d, name_key(g.spec_rules()[u].name)), Context::Free));
    }
    lemma_rules_text_merged(g.spec_nodes(), user_table, d);
}

/// The user rules of a checked grammar, lowered from the merged table `merged` of the
/// definitions `d`, are the rules `d` defines.
proof fn lemma_rules_of(g: CheckedGrammar, merged: Seq<Merged>, d: Seq<Definition>)
    requires
        g.spec_user_rules() == merged.len(),
        g.spec_rules().len() >= merged.len(),
        forall|u: int| 0 <= u < merged.len() ==> (#[trigger] g.spec_rules()[u]).name == merged[u].name,
        merged_names_ok(merged, d),
    ensures
        rules_of(g, d),
{
    let users = merged.len();
    assert forall|u: int| 0 <= u < users implies named_by_base(d, #[trigger] g.spec_rules()[u].name) by {
        lemma_merged_named(merged, d, u);
    }
    assert forall|j: int|
        0 <= j < d.len() && (#[trigger] d[j]).defined_as == DefinedAs::Base implies exists|u: int|
            0 <= u < users && name_key((#[trigger] g.spec_rules()[u]).name) == def_key(d[j]) by {
        lemma_merged_covers(merged, d, j);
        let m = choose|m: int| 0 <= m < merged.len() && name_key((#[trigger] merged[m]).name) == def_key(d[j]);
        assert(g.spec_rules()[m].name == merged[m].name);
    }
    assert forall|a: int, b: int|
        0 <= a < users && 0 <= b < users && a != b implies name_key(#[trigger] g.spec_rules()[a].name) != name_key(
            #[trigger] g.spec_rules()[b].name,
        ) by {
        lemma_merged_distinct(merged, d, a, b);
        assert(g.spec_rules()[a].name == merged[a].name);
        assert(g.spec_rules()[b].name == merged[b].name);
    }
}

/// Merged rule `m` is named as some `=` of `d` names it.
proof fn lemma_merged_named(merged: Seq<Merged>, d: Seq<Definition>, m: int)
    requires
        merged_names_ok(merged, d),
        0 <= m < merged.len(),
    ensures
        named_by_base(d, merged[m].name),
{
    reveal(merged_names_ok);
}

/// The rule the `=` at `j` defines is among the merged rules.
proof fn lemma_merged_covers(merged: Seq<Merged>, d: Seq<Definition>, j: int)
    requires
        merged_names_ok(merged, d),
        0 <= j < d.len(),
        d[j].defined_as == DefinedAs::Base,
    ensures
        exists|m: int| 0 <= m < merged.len() && name_key((#[trigger] merged[m]).name) == def_key(d[j]),
{
    reveal(merged_names_ok);
}

/// No two merged rules are the same rule.
proof fn lemma_merged_distinct(merged: Seq<Merged>, d: Seq<Definition>, a: int, b: int)
    requires
        merged_names_ok(merged, d),
        0 <= a < merged.len(),
        0 <= b < merged.len(),
        a != b,
    ensures
        name_key(merged[a].name) != name_key(merged[b].name),
{
    reveal(merged_names_ok);
}

/// The errors lowering reported, after the merge errors, are each a flaw of a definition.
proof fn lemma_lowered_flaws(
    errs: Seq<CheckError>,
    merged_errors: Seq<CheckError>,
    lowered: Seq<CheckError>,
    user_errors: Seq<CheckError>,
    merged: Seq<Merged>,
    d: Seq<Definition>,
    keys: Set<Seq<char>>,
)
    requires
        errs == merged_errors + lowered,
        lowered.len() == user_errors.len(),
        lowered.subrange(0, user_errors.len() as int) == user_errors,
        forall|t: int|
            0 <= t < user_errors.len() ==> exists|m: int|
                0 <= m < merged.len() && flaw_in(merged[m].body, keys, #[trigger] user_errors[t]),
        forall|k: int, ks: Set<Seq<char>>, err: CheckError|
            0 <= k < merged.len() && #[trigger] flaw_in(merged[k].body, ks, err) ==> exists|j: int|
                0 <= j < d.len() && flaw_in(d[j].body, ks, err),
    ensures
        forall|t: int| merged_errors.len() <= t < errs.len() ==> flaw_of_definitions(d, keys, #[trigger] errs[t]),
{
    let mlen = merged_errors.len() as int;
    assert forall|t: int| mlen <= t < errs.len() implies flaw_of_definitions(d, keys, #[trigger] errs[t]) by {
        assert(errs[t] == lowered[t - mlen]);
        assert(lowered.subrange(0, user_errors.len() as int)[t - mlen] == lowered[t - mlen]);
        assert(lowered[t - mlen] == user_errors[t - mlen]);
        let m = choose|m: int| 0 <= m < merged.len() && flaw_in(merged[m].body, keys, #[trigger] user_errors[t - mlen]);
        assert(flaw_in(merged[m].body, keys, errs[t]));
    }
}

/// After lowering the user table and then the core table into an empty builder without
/// errors, the builder has what [`Builder::finish`] needs.
proof fn lemma_ready_to_finish(b0: Builder, b1: Builder, b2: Builder, merged: Seq<Merged>, core: Seq<Merged>, user_nodes: int)
    requires
        b2.wf(),
        b0.rules@.len() == 0,
        b0.nodes@.len() == 0,
        b0.user_names@.len() == merged.len(),
        forall|u: int| 0 <= u < merged.len() ==> #[trigger] b0.user_names@[u] == merged[u].name,
        forall|c: int| 0 <= c < CORE_RULE_COUNT ==> #[trigger] b0.core_names@[c] == core[c].name,
        core.len() == CORE_RULE_COUNT,
        b1.user_names == b0.user_names,
        b1.core_names == b0.core_names,
        b2.user_names == b1.user_names,
        b2.core_names == b1.core_names,
        b1.rules@.len() == b0.rules@.len() + merged.len(),
        forall|m: int|
            0 <= m < merged.len() ==> {
                &&& (#[trigger] b1.rules@[b0.rules@.len() + m]).name == merged[m].name
                &&& b0.nodes@.len() <= b1.rules@[b0.rules@.len() + m].body.spec_index() < b1.nodes@.len()
            },
        b2.rules@.len() == b1.rules@.len() + core.len(),
        forall|k: int| 0 <= k < b1.rules@.len() ==> #[trigger] b2.rules@[k] == b1.rules@[k],
        forall|m: int|
            0 <= m < core.len() ==> {
                &&& (#[trigger] b2.rules@[b1.rules@.len() + m]).name == core[m].name
                &&& b1.nodes@.len() <= b2.rules@[b1.rules@.len() + m].body.spec_index() < b2.nodes@.len()
            },
        user_nodes == b1.nodes@.len(),
        b2.nodes@.len() >= b1.nodes@.len(),
        forall|k: int| 0 <= k < b1.nodes@.len() ==> #[trigger] b2.nodes@[k] == b1.nodes@[k],
        forall|k: int| 0 <= k < b1.nodes@.len() ==> #[trigger] b2.resolved@[k] == b1.resolved@[k],
        b1.nodes_ok_from(b0.nodes@.len() as int, Scope::User),
        b2.nodes_ok_from(b1.nodes@.len() as int, Scope::Core),
    ensures
        forall|i: int| 0 <= i < b2.rules@.len() ==> (#[trigger] b2.rules@[i]).name == b2.names()[i],
        forall|i: int| 0 <= i < b2.rules@.len() ==> (#[trigger] b2.rules@[i]).body.spec_index() < b2.nodes@.len(),
        forall|c: int| 0 <= c < CORE_RULE_COUNT ==> (#[trigger] b2.rules@[merged.len() + c]).body.spec_index() >= user_nodes,
        forall|k: int| 0 <= k < user_nodes ==> #[trigger] node_ok_in(b2.nodes@, b2.resolved@, b2.names(), b2.user_names@.len(), k, false),
        forall|k: int| user_nodes <= k < b2.nodes@.len() ==> #[trigger] node_ok_in(b2.nodes@, b2.resolved@, b2.names(), b2.user_names@.len(), k, true),
{
    let users = merged.len() as int;
    assert(b2.names() == b1.names());
    assert forall|i: int| 0 <= i < b2.rules@.len() implies (#[trigger] b2.rules@[i]).name == b2.names()[i] by {
        if i < users {
            assert(b2.rules@[i] == b1.rules@[i]);
            assert(b1.rules@[b0.rules@.len() + i].name == merged[i].name);
            assert(b2.names()[i] == b0.user_names@[i]);
        } else {
            let c = i - users;
            assert(b2.rules@[b1.rules@.len() + c].name == core[c].name);
            assert(b2.names()[i] == b0.core_names@[c]);
        }
    }
    assert forall|i: int| 0 <= i < b2.rules@.len() implies (#[trigger] b2.rules@[i]).body.spec_index() < b2.nodes@.len() by {
        if i < users {
            assert(b2.rules@[i] == b1.rules@[i]);
            assert(b1.rules@[b0.rules@.len() + i].body.spec_index() < b1.nodes@.len());
        } else {
            let c = i - users;
            assert(b2.rules@[b1.rules@.len() + c].body.spec_index() < b2.nodes@.len());
        }
    }
    assert forall|c: int| 0 <= c < CORE_RULE_COUNT implies (#[trigger] b2.rules@[users + c]).body.spec_index() >= user_nodes by {
        assert(b2.rules@[b1.rules@.len() + c].body.spec_index() >= b1.nodes@.len());
    }
    assert forall|k: int| 0 <= k < user_nodes implies #[trigger] node_ok_in(b2.nodes@, b2.resolved@, b2.names(), b2.user_names@.len(), k, false) by {
        assert(node_ok_in(b1.nodes@, b1.resolved@, b1.names(), b1.user_names@.len(), k, is_core(Scope::User)));
        lemma_node_ok_frame(b1.nodes@, b1.resolved@, b2.nodes@, b2.resolved@, b2.names(), b2.user_names@.len(), k, false);
    }
    assert forall|k: int| user_nodes <= k < b2.nodes@.len() implies #[trigger] node_ok_in(b2.nodes@, b2.resolved@, b2.names(), b2.user_names@.len(), k, true) by {
        assert(node_ok_in(b2.nodes@, b2.resolved@, b2.names(), b2.user_names@.len(), k, is_core(Scope::Core)));
    }
}

/// The folded names of the merged rules are the folded names the `=` definitions define.
proof fn lemma_user_keys(merged: Seq<Merged>, d: Seq<Definition>, names: Seq<RuleName>)
    requires
        merged_names_ok(merged, d),
        names.len() == merged.len(),
        forall|u: int| 0 <= u < merged.len() ==> #[trigger] names[u] == merged[u].name,
    ensures
        key_set(names) == base_keys(d),
{
    assert forall|k: Seq<char>| base_keys(d).contains(k) implies key_set(names).contains(k) by {
        let j = choose|j: int| 0 <= j < d.len() && (#[trigger] d[j]).defined_as == DefinedAs::Base && def_key(d[j]) == k;
        lemma_merged_covers(merged, d, j);
        let m = choose|m: int| 0 <= m < merged.len() && name_key((#[trigger] merged[m]).name) == def_key(d[j]);
        assert(names[m] == merged[m].name);
    }
    assert forall|k: Seq<char>| key_set(names).contains(k) implies base_keys(d).contains(k) by {
        let u = choose|u: int| 0 <= u < names.len() && name_key(#[trigger] names[u]) == k;
        assert(names[u] == merged[u].name);
        lemma_merged_named(merged, d, u);
        let j = choose|j: int| 0 <= j < d.len() && (#[trigger] d[j]).defined_as == DefinedAs::Base && d[j].name == merged[u].name;
        assert(def_key(d[j]) == k);
    }
    assert(key_set(names) =~= base_keys(d));
}

/// How many nodes `e` lowers to, when that is at most `limit`.
fn element_size_within(e: &Element, limit: u64) -> (r: Option<u64>)
    ensures
        match r {
            Some(n) => n == element_size(*e) && n <= limit,
            None => element_size(*e) > limit,
        },
    decreases e, 1nat,
{
    if limit == 0 {
        return None;
    }
    match e {
        Element::Alt(v) => {
            let inner = elements_size_within(v, limit - 1)?;
            Some(inner + 1)
        },
        Element::Concat(v) => {
            let inner = elements_size_within(v, limit - 1)?;
            Some(inner + 1)
        },
        Element::Repeat { body, .. } => {
            let inner = element_size_within(&**body, limit - 1)?;
            Some(inner + 1)
        },
        Element::Optional(body) => {
            let inner = element_size_within(&**body, limit - 1)?;
            Some(inner + 1)
        },
        _ => Some(1),
    }
}

/// How many nodes the elements of `v` lower to, when that is at most `limit`.
fn elements_size_within(v: &Vec<Element>, limit: u64) -> (r: Option<u64>)
    ensures
        match r {
            Some(n) => n == elements_size(v@) && n <= limit,
            None => elements_size(v@) > limit,
        },
    decreases v@, 0nat,
{
    let mut acc: u64 = 0;
    let mut i: usize = 0;
    while i < v.len()
        invariant
            i <= v@.len(),
            acc == elements_size(v@.subrange(0, i as int)),
            acc <= limit,
        decreases v.len() - i,
    {
        assert(decreases_to!(v@ => v@[i as int]));
        proof {
            lemma_elements_size_push(v@.subrange(0, i as int), v@[i as int]);
            assert(v@.subrange(0, i as int).push(v@[i as int]) =~= v@.subrange(0, i + 1));
        }
        match element_size_within(&v[i], limit - acc) {
            Some(k) => {
                acc = acc + k;
            },
            None => {
                proof {
                    lemma_elements_size_prefix_le(v@, i + 1);
                }
                return None;
            },
        }
        i = i + 1;
    }
    assert(v@.subrange(0, v@.len() as int) =~= v@);
    Some(acc)
}

/// The nodes of a prefix of a list of definitions are no more than those of the list.
proof fn lemma_definitions_size_within(s: Seq<Definition>, k: int)
    requires
        0 <= k <= s.len(),
    ensures
        definitions_size(s.subrange(0, k)) <= definitions_size(s),
    decreases s.len() - k,
{
    if k == s.len() {
        assert(s.subrange(0, k) =~= s);
    } else {
        lemma_definitions_size_within(s, k + 1);
        let t = s.subrange(0, k + 1);
        assert(t.subrange(0, t.len() - 1) =~= s.subrange(0, k));
    }
}

impl Grammar {
    /// Whether the grammar, with the core rules, lowers to few enough nodes for node ids:
    /// exactly when [`Grammar::check`] can be asked to check it.
    pub fn fits_node_ids(&self) -> (b: bool)
        ensures
            b <==> definitions_size(self.spec_definitions()) + core_size_bound() <= u32::MAX,
    {
        let defs = self.definitions();
        let limit: u64 = 0xFFFF_FFFF - 256;
        let mut acc: u64 = 0;
        let mut i: usize = 0;
        while i < defs.len()
            invariant
                i <= defs@.len(),
                defs@ == self.spec_definitions(),
                limit == u32::MAX - core_size_bound(),
                acc == definitions_size(defs@.subrange(0, i as int)),
                acc <= limit,
            decreases defs.len() - i,
        {
            proof {
                let t = defs@.subrange(0, i + 1);
                assert(t.subrange(0, i as int) =~= defs@.subrange(0, i as int));
            }
            if acc == limit {
                proof {
                    lemma_definitions_size_within(defs@, i + 1);
                }
                return false;
            }
            match element_size_within(&defs[i].body, limit - acc - 1) {
                Some(k) => {
                    acc = acc + 1 + k;
                },
                None => {
                    proof {
                        lemma_definitions_size_within(defs@, i + 1);
                    }
                    return false;
                },
            }
            i = i + 1;
        }
        assert(defs@.subrange(0, defs@.len() as int) =~= defs@);
        true
    }
}

/// Whether `g` is what lowering the clean definitions `d` gives: its rules, in the order of
/// their first `=` definitions, the text of every user rule's body, and the text of the whole
/// grammar.
pub open spec fn lowered_from(g: CheckedGrammar, d: Seq<Definition>) -> bool {
    &&& rules_of(g, d)
    &&& in_base_order(rule_names(g.spec_rules().subrange(0, g.spec_user_rules() as int)), d)
    &&& forall|u: int, t: Context|
        0 <= u < g.spec_user_rules() ==> #[trigger] node_text(
            g.spec_nodes(),
            g.spec_rules()[u].body.spec_index() as int,
            t,
        ) == merged_text(alternatives_for(d, name_key(g.spec_rules()[u].name)), t)
    &&& checked_text(g) == (if g.spec_user_rules() == 0 {
        "\r\n"@
    } else {
        merged_rules_text(rule_names(g.spec_rules().subrange(0, g.spec_user_rules() as int)), d)
    })
}

impl Grammar {
    /// Merges incremental alternatives, resolves names, and validates structure.
    ///
    /// Consumes the grammar: there is no way back to the syntactic layer, and no way to reach
    /// a recognizer or generator except through the result. Node ids are `u32`s, so the
    /// grammar, with the core rules, must lower to at most `u32::MAX` nodes.
    ///
    /// Returns every [`CheckError`] found, not just the first. A grammar with no other error
    /// is lowered and then refused if it is left-recursive, with one
    /// [`CheckError::LeftRecursion`] per cycle of its first-graph.
    #[verifier::spinoff_prover]
    #[verifier::rlimit(60)]
    pub fn check(self) -> (r: Result<CheckedGrammar, Vec<CheckError>>)
        requires
            definitions_size(self.spec_definitions()) + core_size_bound() <= u32::MAX,
        ensures
            (r is Ok) ==> check_clean(self.spec_definitions()),
            !check_clean(self.spec_definitions()) ==> (r is Err),
            r matches Err(errors) ==> errors@.len() > 0,
            r matches Err(errors) ==> (!check_clean(self.spec_definitions()) ==> starts_with_merge_errors(
                errors@,
                self.spec_definitions(),
            )),
            r matches Err(errors) ==> (!check_clean(self.spec_definitions()) ==> forall|t: int|
                merge_failures(self.spec_definitions(), self.spec_definitions().len() as int).len() <= t
                    < errors@.len() ==> flaw_of_definitions(
                    self.spec_definitions(),
                    base_keys(self.spec_definitions()).union(core_keys()),
                    #[trigger] errors@[t],
                )),
            r matches Err(errors) ==> (check_clean(self.spec_definitions()) ==> exists|g: CheckedGrammar|
                lowered_from(g, self.spec_definitions()) && left_recursive(g) && reports_cycles(
                    errors@,
                    left_cycles(g),
                )),
            r matches Ok(g) ==> lowered_from(g, self.spec_definitions()) && !left_recursive(g),
    {
        let ghost d = self.spec_definitions();
        let ghost keys = base_keys(d).union(core_keys());
        let mut errors: Vec<CheckError> = Vec::new();
        let defs = self.into_definitions();
        let merged = merge(defs, &mut errors, Ghost(keys));
        proof {
            lemma_merged_size_len(merged@);
        }
        let core = core_table();
        let mut builder = Builder::new(&merged, &core);
        proof {
            lemma_user_keys(merged@, d, builder.user_names@);
            assert(builder.scope_keys(Scope::User) == keys);
        }
        let ghost b0 = builder;
        builder.lower_rules(&merged, Scope::User);
        let ghost b1 = builder;
        let user_nodes = builder.nodes.len();
        builder.lower_rules(&core, Scope::Core);
        let ghost b2 = builder;
        proof {
            reveal(merged_clean_ok);
            reveal(clean_in);
            assert(b1.scope_keys(Scope::Core) == core_keys());
            assert(defs_clean(d, d.len() as int, keys) <==> forall|j: int|
                0 <= j < d.len() ==> refs_within((#[trigger] d[j]).body, keys) && bounds_ok(d[j].body));
        }
        if errors.len() == 0 && builder.errors.len() == 0 {
            let ghost users = merged@.len();
            proof {
                assert(b1.errors@.len() == 0);
                lemma_ready_to_finish(b0, b1, b2, merged@, core@, user_nodes as int);
            }
            let g = builder.finish(merged.len(), user_nodes);
            proof {
                assert forall|u: int| 0 <= u < users implies #[trigger] g.spec_rules()[u] == b1.rules@[u] by {}
                assert(merge_clean(d));
                assert(agree(b1.nodes@, b2.nodes@, 0, b1.nodes@.len() as int));
                lemma_user_texts(g, b1.nodes@, b1.rules@, b0.rules@.len() as int, merged@, d);
                lemma_rules_of(g, merged@, d);
                assert(rule_names(g.spec_rules().subrange(0, g.spec_user_rules() as int)) =~= merged_rule_names(merged@));
                assert(lowered_from(g, d));
            }
            let cycles = g.left_recursion();
            if cycles.len() == 0 {
                Ok(g)
            } else {
                proof {
                    assert(lowered_from(g, d) && left_recursive(g) && reports_cycles(cycles@, left_cycles(g)));
                }
                Err(cycles)
            }
        } else {
            let ghost merged_errors = errors@;
            let ghost lowered_errors = builder.errors@;
            errors.append(&mut builder.errors);
            proof {
                let mlen = merged_errors.len() as int;
                assert(b2.errors@.len() == b1.errors@.len()) by {
                    assert forall|m: int| 0 <= m < core@.len() implies clean_in((#[trigger] core@[m]).body, b1.scope_keys(Scope::Core)) by {}
                }
                assert(errors@ == merged_errors + lowered_errors);
                assert(lowered_errors.subrange(0, b1.errors@.len() as int) == b1.errors@);
                lemma_lowered_flaws(errors@, merged_errors, lowered_errors, b1.errors@, merged@, d, keys);
                assert forall|t: int| 0 <= t < merge_failures(d, d.len() as int).len() implies merge_error_for(
                    d,
                    #[trigger] merge_failures(d, d.len() as int)[t],
                    errors@[t],
                ) by {
                    assert(errors@[t] == merged_errors[t]);
                }
            }
            Err(errors)
        }
    }
}

} // verus!
