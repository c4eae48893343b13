//! Which start rules can be recognized or generated from at all.
//!
//! A rule that can reach a prose value has no matching semantics, and one that can reach a
//! numeric terminal no Unicode scalar value satisfies would only ever answer "no". Both are
//! refused before any input is examined: these are compatibility limits, checked per start
//! rule, so a grammar with prose in an obscure branch stays usable from other entry points.
//!
//! Reachability walks the arena: an alternation reaches its branches, a concatenation its
//! items, an optional its body, a reference the body of the rule it resolves to, and a
//! repetition its body unless the repetition allows no copies at all (`max == 0`), whose body
//! can never be matched.
use vstd::prelude::*;

use crate::ast::{Node, NodeId, NumVal, RuleId};
use crate::check::{valid_target, CheckedGrammar};
use crate::display::{num_val_text, write_num_val};
use crate::error::{GenError, MatchError};
use crate::text::fold_case;

verus! {

/// Whether `x` is a Unicode scalar value: at most `0x10FFFF` and not a surrogate.
pub open spec fn scalar_ok(x: int) -> bool {
    0 <= x <= 0x10FFFF && !(0xD800 <= x <= 0xDFFF)
}

/// Whether some Unicode scalar value can match the terminal: a single value is a scalar, a
/// range holds at least one scalar, a concatenation has only scalars.
pub open spec fn representable(v: NumVal) -> bool {
    match v {
        NumVal::Scalar(x) => scalar_ok(x as int),
        NumVal::Range { lo, hi } => exists|x: int| lo <= x <= hi && #[trigger] scalar_ok(x),
        NumVal::Concat(values) => forall|i: int|
            0 <= i < values@.len() ==> scalar_ok(#[trigger] values@[i] as int),
    }
}

/// Whether node `b` is a direct successor of node `a` in the reachability graph.
pub open spec fn edge(g: CheckedGrammar, a: int, b: int) -> bool {
    &&& 0 <= a < g.spec_nodes().len()
    &&& match g.spec_nodes()[a] {
        Node::Alt { branches } => exists|i: int|
            0 <= i < branches@.len() && (#[trigger] branches@[i]).spec_index() == b,
        Node::Concat { items } => exists|i: int|
            0 <= i < items@.len() && (#[trigger] items@[i]).spec_index() == b,
        Node::Repeat { repeat, body, .. } => repeat.max != Some(0u64) && body.spec_index() == b,
        Node::Optional { body } => body.spec_index() == b,
        Node::RuleRef { .. } => match g.spec_resolved()[a] {
            Some(t) => valid_target(t, g.spec_user_rules()) && g.spec_rule(t).body.spec_index()
                == b,
            None => false,
        },
        _ => false,
    }
}

/// Whether `b` is reachable from `a` in exactly `n` edges.
pub open spec fn reach_in(g: CheckedGrammar, a: int, b: int, n: nat) -> bool
    decreases n,
{
    if n == 0 {
        a == b
    } else {
        exists|c: int| reach_in(g, a, c, (n - 1) as nat) && #[trigger] edge(g, c, b)
    }
}

/// Whether `b` is reachable from `a`.
pub open spec fn reach(g: CheckedGrammar, a: int, b: int) -> bool {
    exists|n: nat| #[trigger] reach_in(g, a, b, n)
}

/// Whether a prose value is reachable from node `from`.
pub open spec fn prose_reachable(g: CheckedGrammar, from: int) -> bool {
    exists|k: int| #[trigger] reach(g, from, k) && g.spec_nodes()[k] is ProseVal
}

/// Whether an unrepresentable numeric terminal is reachable from node `from`.
pub open spec fn unrepresentable_reachable(g: CheckedGrammar, from: int) -> bool {
    exists|k: int| #[trigger] reach(g, from, k) && match g.spec_nodes()[k] {
        Node::NumVal { value, .. } => !representable(value),
        _ => false,
    }
}

/// Whether a start rule whose body is `from` can be recognized or generated from.
pub open spec fn usable_from(g: CheckedGrammar, from: int) -> bool {
    !prose_reachable(g, from) && !unrepresentable_reachable(g, from)
}

/// Whether node `k` is an unrepresentable numeric terminal.
pub open spec fn unrepresentable_at(g: CheckedGrammar, k: int) -> bool {
    match g.spec_nodes()[k] {
        Node::NumVal { value, .. } => !representable(value),
        _ => false,
    }
}

/// Whether `k` is the first prose value reachable from node `from`, in arena order.
pub open spec fn first_prose(g: CheckedGrammar, from: int, k: int) -> bool {
    &&& reach(g, from, k)
    &&& g.spec_nodes()[k] is ProseVal
    &&& forall|q: int| 0 <= q < k && #[trigger] reach(g, from, q) ==> !(g.spec_nodes()[q] is ProseVal)
}

/// Whether `k` is the first unrepresentable terminal reachable from node `from`, in arena
/// order.
pub open spec fn first_unrepresentable(g: CheckedGrammar, from: int, k: int) -> bool {
    &&& reach(g, from, k)
    &&& unrepresentable_at(g, k)
    &&& forall|q: int| 0 <= q < k && #[trigger] reach(g, from, q) ==> !unrepresentable_at(g, q)
}

/// Whether the prose value `text` is the first reachable from node `from`, in arena order.
pub open spec fn prose_from(g: CheckedGrammar, from: int, text: Seq<char>) -> bool {
    exists|k: int| #[trigger] first_prose(g, from, k) && match g.spec_nodes()[k] {
        Node::ProseVal(t) => t@ == text,
        _ => false,
    }
}

/// Whether the unrepresentable terminal spelled `text` is the first reachable from node
/// `from`, in arena order.
pub open spec fn unrepresentable_from(g: CheckedGrammar, from: int, text: Seq<char>) -> bool {
    exists|k: int| #[trigger] first_unrepresentable(g, from, k) && match g.spec_nodes()[k] {
        Node::NumVal { value, .. } => num_val_text(value) == text,
        _ => false,
    }
}

/// Whether rule `i` of the table is the one `name` finds: the first whose name folds to
/// the same key.
pub open spec fn names_rule(g: CheckedGrammar, name: Seq<char>, i: int) -> bool {
    &&& 0 <= i < g.spec_rules().len()
    &&& fold_case(g.spec_rules()[i].name@) == fold_case(name)
    &&& forall|j: int| 0 <= j < i ==> fold_case(#[trigger] g.spec_rules()[j].name@) != fold_case(name)
}

/// Whether no rule of the table is named `name`.
pub open spec fn no_rule(g: CheckedGrammar, name: Seq<char>) -> bool {
    forall|j: int| 0 <= j < g.spec_rules().len() ==> fold_case(#[trigger] g.spec_rules()[j].name@) != fold_case(name)
}

/// Whether rule `i` is the one `name` finds and can be used as a start rule.
pub open spec fn start_usable(g: CheckedGrammar, name: Seq<char>, i: int) -> bool {
    names_rule(g, name, i) && usable_from(g, g.spec_rules()[i].body.spec_index() as int)
}

/// `name` finds at most one rule.
pub proof fn lemma_names_rule_unique(g: CheckedGrammar, name: Seq<char>, i: int, j: int)
    requires
        names_rule(g, name, i),
        names_rule(g, name, j),
    ensures
        i == j,
{
    if i < j {
        assert(fold_case(g.spec_rules()[i].name@) == fold_case(name));
    } else if j < i {
        assert(fold_case(g.spec_rules()[j].name@) == fold_case(name));
    }
}

/// No start-rule check refuses a usable start rule.
pub proof fn lemma_usable_not_gated(g: CheckedGrammar, name: Seq<char>, i: int, e: MatchError)
    requires
        start_usable(g, name, i),
    ensures
        !gate_error(g, name, e),
{
    let from = g.spec_rules()[i].body.spec_index() as int;
    match e {
        MatchError::UnknownRule(n) => {
            if no_rule(g, name) {
                assert(fold_case(g.spec_rules()[i].name@) != fold_case(name));
            }
        },
        MatchError::ProseValueReachable { rule, prose } => {
            if gate_error(g, name, e) {
                let j = choose|j: int|
                    names_rule(g, name, j) && rule@ == g.spec_rules()[j].name@ && prose_from(
                        g,
                        g.spec_rules()[j].body.spec_index() as int,
                        prose@,
                    );
                lemma_names_rule_unique(g, name, i, j);
                let k = choose|k: int| #[trigger] first_prose(g, from, k) && match g.spec_nodes()[k] {
                    Node::ProseVal(t) => t@ == prose@,
                    _ => false,
                };
                assert(reach(g, from, k) && g.spec_nodes()[k] is ProseVal);
                assert(prose_reachable(g, from));
            }
        },
        MatchError::UnrepresentableTerminal { rule, terminal } => {
            if gate_error(g, name, e) {
                let j = choose|j: int|
                    names_rule(g, name, j) && rule@ == g.spec_rules()[j].name@ && !prose_reachable(
                        g,
                        g.spec_rules()[j].body.spec_index() as int,
                    ) && unrepresentable_from(g, g.spec_rules()[j].body.spec_index() as int, terminal@);
                lemma_names_rule_unique(g, name, i, j);
                let k = choose|k: int| #[trigger] first_unrepresentable(g, from, k) && match g.spec_nodes()[k] {
                    Node::NumVal { value, .. } => num_val_text(value) == terminal@,
                    _ => false,
                };
                assert(reach(g, from, k) && unrepresentable_at(g, k));
                assert(unrepresentable_reachable(g, from));
            }
        },
        _ => {},
    }
}

/// Whether `e` is what the start-rule gate answers for `name`: no such rule; or a prose value
/// it reaches; or, when it reaches no prose, an unrepresentable terminal it reaches. The rule
/// is reported by its name as written in the grammar.
pub open spec fn gate_error(g: CheckedGrammar, name: Seq<char>, e: MatchError) -> bool {
    match e {
        MatchError::UnknownRule(n) => n@ == name && no_rule(g, name),
        MatchError::ProseValueReachable { rule, prose } => exists|i: int|
            names_rule(g, name, i) && rule@ == g.spec_rules()[i].name@ && prose_from(
                g,
                g.spec_rules()[i].body.spec_index() as int,
                prose@,
            ),
        MatchError::UnrepresentableTerminal { rule, terminal } => exists|i: int|
            names_rule(g, name, i) && rule@ == g.spec_rules()[i].name@ && !prose_reachable(
                g,
                g.spec_rules()[i].body.spec_index() as int,
            ) && unrepresentable_from(g, g.spec_rules()[i].body.spec_index() as int, terminal@),
        _ => false,
    }
}

/// The generator's counterpart of [`gate_error`].
pub open spec fn gen_gate_error(g: CheckedGrammar, name: Seq<char>, e: GenError) -> bool {
    match e {
        GenError::UnknownRule(n) => n@ == name && no_rule(g, name),
        GenError::ProseValueReachable { rule, prose } => exists|i: int|
            names_rule(g, name, i) && rule@ == g.spec_rules()[i].name@ && prose_from(
                g,
                g.spec_rules()[i].body.spec_index() as int,
                prose@,
            ),
        GenError::UnrepresentableTerminal { rule, terminal } => exists|i: int|
            names_rule(g, name, i) && rule@ == g.spec_rules()[i].name@ && !prose_reachable(
                g,
                g.spec_rules()[i].body.spec_index() as int,
            ) && unrepresentable_from(g, g.spec_rules()[i].body.spec_index() as int, terminal@),
        _ => false,
    }
}

/// How many entries of `s` are `false`.
pub open spec fn count_false(s: Seq<bool>) -> nat
    decreases s.len(),
{
    if s.len() == 0 {
        0
    } else {
        count_false(s.subrange(0, s.len() - 1)) + if s[s.len() - 1] {
            0nat
        } else {
            1nat
        }
    }
}

/// Marking an unmarked entry lowers the count by one.
proof fn lemma_count_false_mark(s: Seq<bool>, i: int)
    requires
        0 <= i < s.len(),
        !s[i],
    ensures
        count_false(s.update(i, true)) + 1 == count_false(s),
    decreases s.len(),
{
    let t = s.update(i, true);
    if i == s.len() - 1 {
        assert(t.subrange(0, t.len() - 1) =~= s.subrange(0, s.len() - 1));
    } else {
        lemma_count_false_mark(s.subrange(0, s.len() - 1), i);
        assert(t.subrange(0, t.len() - 1) =~= s.subrange(0, s.len() - 1).update(i, true));
    }
}

/// A path extended by one edge.
pub proof fn lemma_reach_step(g: CheckedGrammar, a: int, c: int, b: int)
    requires
        reach(g, a, c),
        edge(g, c, b),
    ensures
        reach(g, a, b),
{
    let n = choose|n: nat| #[trigger] reach_in(g, a, c, n);
    assert(reach_in(g, a, b, n + 1));
}

/// Every node is reachable from itself.
pub proof fn lemma_reach_refl(g: CheckedGrammar, a: int)
    ensures
        reach(g, a, a),
{
    assert(reach_in(g, a, a, 0));
}

/// A path preceded by one edge.
pub proof fn lemma_reach_prepend(g: CheckedGrammar, a: int, b: int, c: int, n: nat)
    requires
        edge(g, a, b),
        reach_in(g, b, c, n),
    ensures
        reach_in(g, a, c, n + 1),
    decreases n,
{
    if n == 0 {
        assert(reach_in(g, a, a, 0));
        assert(reach_in(g, a, c, 1));
    } else {
        let d = choose|d: int| reach_in(g, b, d, (n - 1) as nat) && #[trigger] edge(g, d, c);
        lemma_reach_prepend(g, a, b, d, (n - 1) as nat);
        assert(reach_in(g, a, c, n + 1));
    }
}

/// What a usable node's successor reaches, the node reaches too, so the successor is usable.
pub proof fn lemma_usable_edge(g: CheckedGrammar, a: int, b: int)
    requires
        usable_from(g, a),
        edge(g, a, b),
    ensures
        usable_from(g, b),
{
    assert forall|k: int| #[trigger] reach(g, b, k) implies reach(g, a, k) by {
        let n = choose|n: nat| #[trigger] reach_in(g, b, k, n);
        lemma_reach_prepend(g, a, b, k, n);
    }
}

/// A usable node is not prose, and is representable if it is a numeric terminal.
pub proof fn lemma_usable_self(g: CheckedGrammar, a: int)
    requires
        usable_from(g, a),
    ensures
        !(g.spec_nodes()[a] is ProseVal),
        g.spec_nodes()[a] matches Node::NumVal { value, .. } ==> representable(value),
{
    lemma_reach_refl(g, a);
}

/// A set of nodes that holds `a` and is closed under edges holds everything `a` reaches.
proof fn lemma_closed_holds_reach(g: CheckedGrammar, seen: Seq<bool>, a: int, b: int, n: nat)
    requires
        0 <= a < seen.len(),
        seen[a],
        forall|k: int, c: int|
            0 <= k < seen.len() && seen[k] && #[trigger] edge(g, k, c) ==> 0 <= c < seen.len()
                && seen[c],
        reach_in(g, a, b, n),
    ensures
        0 <= b < seen.len() && seen[b],
    decreases n,
{
    if n > 0 {
        let c = choose|c: int| reach_in(g, a, c, (n - 1) as nat) && #[trigger] edge(g, c, b);
        lemma_closed_holds_reach(g, seen, a, c, (n - 1) as nat);
    }
}

/// What stops a start rule, if anything does.
enum Blocker {
    /// Nothing: the rule is usable.
    Clear,
    /// This prose node is reachable.
    Prose(usize),
    /// No prose is reachable, and this unrepresentable terminal is.
    Unrepresentable(usize),
}

/// Whether a numeric terminal can be matched by some Unicode scalar value.
pub fn is_representable(v: &NumVal) -> (b: bool)
    ensures
        b == representable(*v),
{
    match v {
        NumVal::Scalar(x) => *x <= 0x10FFFF && !(0xD800 <= *x && *x <= 0xDFFF),
        NumVal::Range { lo, hi } => {
            let lo = *lo;
            let hi = *hi;
            let b = lo <= hi && (lo < 0xD800 || (lo <= 0x10FFFF && hi >= 0xE000));
            proof {
                if b {
                    if lo < 0xD800 {
                        assert(scalar_ok(lo as int));
                    } else if lo >= 0xE000 {
                        assert(scalar_ok(lo as int));
                    } else {
                        assert(scalar_ok(0xE000int));
                    }
                }
                if exists|x: int| lo <= x <= hi && #[trigger] scalar_ok(x) {
                    let x = choose|x: int| lo <= x <= hi && #[trigger] scalar_ok(x);
                    assert(b);
                }
            }
            b
        },
        NumVal::Concat(values) => {
            let mut i: usize = 0;
            while i < values.len()
                invariant
                    i <= values@.len(),
                    *v == NumVal::Concat(*values),
                    forall|k: int| 0 <= k < i ==> scalar_ok(#[trigger] values@[k] as int),
                decreases values.len() - i,
            {
                let x = values[i];
                if !(x <= 0x10FFFF && !(0xD800 <= x && x <= 0xDFFF)) {
                    proof {
                        let w = (*v)->Concat_0;
                        assert(w@[i as int] == x);
                        assert(!scalar_ok(w@[i as int] as int));
                    }
                    return false;
                }
                i = i + 1;
            }
            true
        },
    }
}

/// Marks node `c` seen, queueing it if it was not.
pub(crate) fn visit(seen: &mut Vec<bool>, stack: &mut Vec<usize>, c: usize)
    requires
        c < old(seen)@.len(),
    ensures
        final(seen)@ == old(seen)@.update(c as int, true),
        old(seen)@[c as int] ==> final(stack)@ == old(stack)@,
        !old(seen)@[c as int] ==> final(stack)@ == old(stack)@.push(c),
        2 * count_false(final(seen)@) + final(stack)@.len() <= 2 * count_false(old(seen)@)
            + old(stack)@.len(),
        forall|x: usize| old(stack)@.contains(x) ==> #[trigger] final(stack)@.contains(x),
{
    if !seen[c] {
        proof {
            lemma_count_false_mark(seen@, c as int);
        }
        seen.set(c, true);
        let ghost before = stack@;
        stack.push(c);
        assert forall|x: usize| before.contains(x) implies #[trigger] stack@.contains(x) by {
            let j = choose|j: int| 0 <= j < before.len() && before[j] == x;
            assert(stack@[j] == x);
        }
    } else {
        assert(seen@.update(c as int, true) =~= seen@);
    }
}

impl CheckedGrammar {
    /// Every edge stays inside the arena.
    pub(crate) proof fn lemma_edge_in_arena(&self, a: int, b: int)
        requires
            self.wf(),
            edge(*self, a, b),
        ensures
            0 <= b < self.spec_nodes().len(),
    {
        assert(crate::check::node_ok(
            self.spec_nodes(),
            self.spec_resolved(),
            self.spec_names(),
            self.spec_user_rules(),
            self.spec_user_nodes(),
            a,
        ));
        if let Node::RuleRef { .. } = self.spec_nodes()[a] {
            let t = self.spec_resolved()[a]->0;
            assert(self.spec_rules()[self.spec_rule_index(t)] == self.spec_rule(t));
        }
    }

    /// The indices of a list of node ids.
    fn indices_of(ids: &Vec<NodeId>) -> (v: Vec<usize>)
        ensures
            v@.len() == ids@.len(),
            forall|j: int| 0 <= j < v@.len() ==> (#[trigger] v@[j]) == ids@[j].spec_index(),
    {
        let mut v: Vec<usize> = Vec::new();
        let mut i: usize = 0;
        while i < ids.len()
            invariant
                i <= ids@.len(),
                v@.len() == i,
                forall|j: int| 0 <= j < i ==> (#[trigger] v@[j]) == ids@[j].spec_index(),
            decreases ids.len() - i,
        {
            v.push(ids[i].index());
            i = i + 1;
        }
        v
    }

    /// The direct successors of node `k` in the reachability graph.
    pub(crate) fn successors(&self, k: usize) -> (v: Vec<usize>)
        requires
            k < self.spec_nodes().len(),
        ensures
            forall|c: int| edge(*self, k as int, c) <==> exists|j: int| 0 <= j < v@.len() && #[trigger] v@[j] == c,
            forall|j: int| 0 <= j < v@.len() ==> (#[trigger] v@[j]) < self.spec_nodes().len(),
    {
        proof {
            use_type_invariant(self);
            assert(crate::check::node_ok(
                self.spec_nodes(),
                self.spec_resolved(),
                self.spec_names(),
                self.spec_user_rules(),
                self.spec_user_nodes(),
                k as int,
            ));
        }
        let id = NodeId::from_index(k as u32);
        let ghost kk = k as int;
        let v: Vec<usize> = match self.node(id) {
            Node::Alt { branches } => {
                let v = Self::indices_of(branches);
                assert forall|c: int| edge(*self, kk, c) <==> exists|j: int| 0 <= j < v@.len() && #[trigger] v@[j] == c by {
                    if edge(*self, kk, c) {
                        let i = choose|i: int| 0 <= i < branches@.len() && (#[trigger] branches@[i]).spec_index() == c;
                        assert(v@[i] == c);
                    }
                    if exists|j: int| 0 <= j < v@.len() && #[trigger] v@[j] == c {
                        let j = choose|j: int| 0 <= j < v@.len() && #[trigger] v@[j] == c;
                        assert(branches@[j].spec_index() == c);
                    }
                }
                v
            },
            Node::Concat { items } => {
                let v = Self::indices_of(items);
                assert forall|c: int| edge(*self, kk, c) <==> exists|j: int| 0 <= j < v@.len() && #[trigger] v@[j] == c by {
                    if edge(*self, kk, c) {
                        let i = choose|i: int| 0 <= i < items@.len() && (#[trigger] items@[i]).spec_index() == c;
                        assert(v@[i] == c);
                    }
                    if exists|j: int| 0 <= j < v@.len() && #[trigger] v@[j] == c {
                        let j = choose|j: int| 0 <= j < v@.len() && #[trigger] v@[j] == c;
                        assert(items@[j].spec_index() == c);
                    }
                }
                v
            },
            Node::Repeat { repeat, body, .. } => {
                let mut v: Vec<usize> = Vec::new();
                if repeat.max != Some(0u64) {
                    v.push(body.index());
                    assert(v@[0] == body.spec_index());
                }
                v
            },
            Node::Optional { body } => {
                let mut v: Vec<usize> = Vec::new();
                v.push(body.index());
                assert(v@[0] == body.spec_index());
                v
            },
            Node::RuleRef { .. } => {
                let mut v: Vec<usize> = Vec::new();
                match self.target(id) {
                    Some(t) => {
                        let c = self.rule_by_id(t).body.index();
                        proof {
                            assert(self.spec_rules()[self.spec_rule_index(t)] == self.spec_rule(t));
                        }
                        v.push(c);
                        assert(v@[0] == c);
                    },
                    None => {},
                }
                v
            },
            _ => Vec::new(),
        };
        proof {
            assert forall|j: int| 0 <= j < v@.len() implies (#[trigger] v@[j]) < self.spec_nodes().len() by {
                assert(edge(*self, kk, v@[j] as int));
                self.lemma_edge_in_arena(kk, v@[j] as int);
            }
        }
        v
    }

    /// Every node reachable from `from`, as a membership table over the arena.
    fn reachable(&self, from: NodeId) -> (seen: Vec<bool>)
        requires
            from.spec_index() < self.spec_nodes().len(),
        ensures
            seen@.len() == self.spec_nodes().len(),
            forall|k: int| 0 <= k < seen@.len() ==> (seen@[k] <==> reach(*self, from.spec_index() as int, k)),
    {
        proof {
            use_type_invariant(self);
        }
        let ghost g = *self;
        let ghost s = from.spec_index() as int;
        let n = self.node_count();
        let mut seen: Vec<bool> = Vec::new();
        let mut i: usize = 0;
        while i < n
            invariant
                i <= n,
                n == g.spec_nodes().len(),
                seen@.len() == i,
                forall|k: int| 0 <= k < i ==> !seen@[k],
            decreases n - i,
        {
            seen.push(false);
            i = i + 1;
        }
        let mut stack: Vec<usize> = Vec::new();
        let start = from.index();
        proof {
            lemma_reach_refl(g, s);
        }
        visit(&mut seen, &mut stack, start);
        proof {
            assert(stack@[0] == start);
            assert(stack@.contains(start));
            assert forall|k: int| 0 <= k < n && #[trigger] seen@[k] implies k == s by {}
        }
        while stack.len() > 0
            invariant
                g == *self,
                g.wf(),
                n == g.spec_nodes().len(),
                seen@.len() == n,
                s == from.spec_index(),
                0 <= s < n,
                seen@[s],
                forall|j: int| 0 <= j < stack@.len() ==> (#[trigger] stack@[j]) < n && seen@[stack@[j] as int],
                forall|k: int| 0 <= k < n && #[trigger] seen@[k] ==> reach(g, s, k),
                forall|k: int, c: int|
                    0 <= k < n && seen@[k] && !stack@.contains(k as usize) && #[trigger] edge(g, k, c)
                        ==> 0 <= c < n && seen@[c],
            decreases 2 * count_false(seen@) + stack@.len(),
        {
            let ghost m0 = 2 * count_false(seen@) + stack@.len();
            let ghost whole = stack@;
            let k = stack.pop().unwrap();
            let ghost rest = stack@;
            let ghost kk = k as int;
            proof {
                assert(whole[whole.len() - 1] == k);
                assert forall|x: usize| #[trigger] whole.contains(x) implies rest.contains(x) || x == k by {
                    let j = choose|j: int| 0 <= j < whole.len() && whole[j] == x;
                    if j < whole.len() - 1 {
                        assert(rest[j] == x);
                    }
                }
            }
            let succ = self.successors(k);
            let mut b: usize = 0;
            while b < succ.len()
                invariant
                    g == *self,
                    g.wf(),
                    n == g.spec_nodes().len(),
                    seen@.len() == n,
                    0 <= kk < n,
                    0 <= s < n,
                    seen@[kk],
                    seen@[s],
                    forall|c: int| edge(g, kk, c) <==> exists|j: int| 0 <= j < succ@.len() && #[trigger] succ@[j] == c,
                    forall|j: int| 0 <= j < succ@.len() ==> (#[trigger] succ@[j]) < n,
                    b <= succ@.len(),
                    forall|x: usize| rest.contains(x) ==> #[trigger] stack@.contains(x),
                    forall|x: usize| #[trigger] whole.contains(x) ==> rest.contains(x) || x == k,
                    forall|j: int| 0 <= j < stack@.len() ==> (#[trigger] stack@[j]) < n && seen@[stack@[j] as int],
                    forall|q: int| 0 <= q < n && #[trigger] seen@[q] ==> reach(g, s, q),
                    forall|q: int, c: int|
                        0 <= q < n && seen@[q] && !stack@.contains(q as usize) && q != kk && #[trigger] edge(g, q, c)
                            ==> 0 <= c < n && seen@[c],
                    forall|j: int| 0 <= j < b ==> seen@[(#[trigger] succ@[j]) as int],
                    2 * count_false(seen@) + stack@.len() < m0,
                decreases succ.len() - b,
            {
                let c = succ[b];
                proof {
                    assert(edge(g, kk, c as int));
                    lemma_reach_step(g, s, kk, c as int);
                }
                let ghost before_seen = seen@;
                let ghost before_stack = stack@;
                visit(&mut seen, &mut stack, c);
                proof {
                    assert forall|q: int, d: int|
                        0 <= q < n && seen@[q] && !stack@.contains(q as usize) && q != kk && #[trigger] edge(g, q, d)
                            implies 0 <= d < n && seen@[d] by {
                        if q != c as int {
                            assert(before_seen[q]);
                            assert(!before_stack.contains(q as usize));
                        } else if !before_seen[q] {
                            assert(stack@[stack@.len() - 1] == c);
                            assert(stack@.contains(c));
                        }
                    }
                }
                b = b + 1;
            }
            proof {
                assert forall|q: int, c: int|
                    0 <= q < n && seen@[q] && !stack@.contains(q as usize) && #[trigger] edge(g, q, c)
                        implies 0 <= c < n && seen@[c] by {
                    g.lemma_edge_in_arena(q, c);
                    if q == kk {
                        let j = choose|j: int| 0 <= j < succ@.len() && #[trigger] succ@[j] == c;
                    }
                }
            }
        }
        proof {
            assert forall|k: int| 0 <= k < seen@.len() implies (seen@[k] <==> reach(g, s, k)) by {
                if reach(g, s, k) {
                    let m = choose|m: nat| #[trigger] reach_in(g, s, k, m);
                    assert forall|q: int, c: int|
                        0 <= q < seen@.len() && seen@[q] && #[trigger] edge(g, q, c) implies 0 <= c < seen@.len()
                            && seen@[c] by {
                        assert(!stack@.contains(q as usize));
                    }
                    lemma_closed_holds_reach(g, seen@, s, k, m);
                }
            }
        }
        seen
    }

    /// What stops a start rule whose body is `from`: the first reachable prose value, or
    /// failing that the first reachable unrepresentable terminal, in arena order.
    fn blocker(&self, from: NodeId) -> (b: Blocker)
        requires
            from.spec_index() < self.spec_nodes().len(),
        ensures
            match b {
                Blocker::Clear => usable_from(*self, from.spec_index() as int),
                Blocker::Prose(k) => k < self.spec_nodes().len() && first_prose(*self, from.spec_index() as int, k as int),
                Blocker::Unrepresentable(k) => {
                    &&& k < self.spec_nodes().len()
                    &&& !prose_reachable(*self, from.spec_index() as int)
                    &&& first_unrepresentable(*self, from.spec_index() as int, k as int)
                },
            },
    {
        proof {
            use_type_invariant(self);
        }
        let seen = self.reachable(from);
        let ghost g = *self;
        let ghost s = from.spec_index() as int;
        let n = self.node_count();
        let mut k: usize = 0;
        while k < n
            invariant
                k <= n,
                n == g.spec_nodes().len(),
                g == *self,
                g.wf(),
                s == from.spec_index(),
                seen@.len() == n,
                forall|q: int| #![trigger seen@[q]] #![trigger reach(g, s, q)] 0 <= q < n ==> (seen@[q] <==> reach(g, s, q)),
                forall|q: int| 0 <= q < k && #[trigger] reach(g, s, q) ==> !(g.spec_nodes()[q] is ProseVal),
            decreases n - k,
        {
            assert(seen@[k as int] <==> reach(g, s, k as int));
            if seen[k] {
                match self.node(NodeId::from_index(k as u32)) {
                    Node::ProseVal(_) => {
                        assert(reach(g, s, k as int));
                        return Blocker::Prose(k);
                    },
                    _ => {},
                }
            }
            k = k + 1;
        }
        proof {
            assert forall|q: int| !(#[trigger] reach(g, s, q) && g.spec_nodes()[q] is ProseVal) by {
                if reach(g, s, q) {
                    let m = choose|m: nat| #[trigger] reach_in(g, s, q, m);
                    self.lemma_reach_in_arena(s, q, m);
                }
            }
        }
        let mut k: usize = 0;
        while k < n
            invariant
                k <= n,
                n == g.spec_nodes().len(),
                g == *self,
                g.wf(),
                s == from.spec_index(),
                seen@.len() == n,
                !prose_reachable(g, s),
                forall|q: int| #![trigger seen@[q]] #![trigger reach(g, s, q)] 0 <= q < n ==> (seen@[q] <==> reach(g, s, q)),
                forall|q: int| 0 <= q < k && #[trigger] reach(g, s, q) ==> !unrepresentable_at(g, q),
            decreases n - k,
        {
            assert(seen@[k as int] <==> reach(g, s, k as int));
            if seen[k] {
                match self.node(NodeId::from_index(k as u32)) {
                    Node::NumVal { value, .. } => {
                        if !is_representable(value) {
                            assert(reach(g, s, k as int));
                            return Blocker::Unrepresentable(k);
                        }
                    },
                    _ => {},
                }
            }
            k = k + 1;
        }
        proof {
            assert forall|q: int| !(#[trigger] reach(g, s, q) && match g.spec_nodes()[q] {
                Node::NumVal { value, .. } => !representable(value),
                _ => false,
            }) by {
                if reach(g, s, q) {
                    let m = choose|m: nat| #[trigger] reach_in(g, s, q, m);
                    self.lemma_reach_in_arena(s, q, m);
                }
            }
        }
        Blocker::Clear
    }

    /// Everything reachable from a node of the arena is in the arena.
    proof fn lemma_reach_in_arena(&self, a: int, b: int, m: nat)
        requires
            self.wf(),
            0 <= a < self.spec_nodes().len(),
            reach_in(*self, a, b, m),
        ensures
            0 <= b < self.spec_nodes().len(),
        decreases m,
    {
        if m > 0 {
            let c = choose|c: int| reach_in(*self, a, c, (m - 1) as nat) && #[trigger] edge(*self, c, b);
            self.lemma_edge_in_arena(c, b);
        }
    }

    /// The rule `name` finds, and what stops it as a start rule.
    fn gate(&self, name: &str) -> (r: Option<(usize, Blocker)>)
        ensures
            match r {
                None => no_rule(*self, name@),
                Some((i, b)) => {
                    &&& names_rule(*self, name@, i as int)
                    &&& self.spec_rules()[i as int].body.spec_index() < self.spec_nodes().len()
                    &&& match b {
                        Blocker::Clear => usable_from(*self, self.spec_rules()[i as int].body.spec_index() as int),
                        Blocker::Prose(k) => k < self.spec_nodes().len() && first_prose(
                            *self,
                            self.spec_rules()[i as int].body.spec_index() as int,
                            k as int,
                        ),
                        Blocker::Unrepresentable(k) => {
                            &&& k < self.spec_nodes().len()
                            &&& !prose_reachable(*self, self.spec_rules()[i as int].body.spec_index() as int)
                            &&& first_unrepresentable(*self, self.spec_rules()[i as int].body.spec_index() as int, k as int)
                        },
                    }
                },
            },
    {
        proof {
            use_type_invariant(self);
        }
        match self.rule_position(name) {
            None => None,
            Some(i) => {
                let body = self.rule_at(i).body;
                Some((i, self.blocker(body)))
            },
        }
    }

    /// Whether `rule` can be used as a start rule for recognition: it exists, and reaches
    /// neither a prose value nor an unrepresentable terminal. Checked without any input.
    ///
    /// The prose value or terminal reported, where there are several, is the first in arena
    /// order; a prose value is reported in preference to a terminal.
    pub fn can_recognize(&self, rule: &str) -> (r: Result<(), MatchError>)
        ensures
            match r {
                Ok(()) => exists|i: int| start_usable(*self, rule@, i),
                Err(e) => gate_error(*self, rule@, e),
            },
    {
        match self.gate(rule) {
            None => Err(MatchError::UnknownRule(rule.to_owned())),
            Some((i, Blocker::Clear)) => {
                assert(start_usable(*self, rule@, i as int));
                Ok(())
            },
            Some((i, Blocker::Prose(k))) => {
                let text = self.prose_text(k);
                Err(MatchError::ProseValueReachable { rule: self.rule_at(i).name.as_str().to_owned(), prose: text })
            },
            Some((i, Blocker::Unrepresentable(k))) => {
                let text = self.terminal_text(k);
                Err(MatchError::UnrepresentableTerminal { rule: self.rule_at(i).name.as_str().to_owned(), terminal: text })
            },
        }
    }

    /// Whether `rule` can be used as a start rule for generation, by the same test as
    /// [`CheckedGrammar::can_recognize`].
    pub fn can_generate(&self, rule: &str) -> (r: Result<(), GenError>)
        ensures
            match r {
                Ok(()) => exists|i: int| start_usable(*self, rule@, i),
                Err(e) => gen_gate_error(*self, rule@, e),
            },
    {
        match self.gate(rule) {
            None => Err(GenError::UnknownRule(rule.to_owned())),
            Some((i, Blocker::Clear)) => {
                assert(start_usable(*self, rule@, i as int));
                Ok(())
            },
            Some((i, Blocker::Prose(k))) => {
                let text = self.prose_text(k);
                Err(GenError::ProseValueReachable { rule: self.rule_at(i).name.as_str().to_owned(), prose: text })
            },
            Some((i, Blocker::Unrepresentable(k))) => {
                let text = self.terminal_text(k);
                Err(GenError::UnrepresentableTerminal { rule: self.rule_at(i).name.as_str().to_owned(), terminal: text })
            },
        }
    }

    /// The text of prose node `k`.
    fn prose_text(&self, k: usize) -> (t: String)
        requires
            k < self.spec_nodes().len(),
            self.spec_nodes()[k as int] is ProseVal,
        ensures
            t@ == self.spec_nodes()[k as int]->ProseVal_0@,
    {
        proof {
            use_type_invariant(self);
        }
        match self.node(NodeId::from_index(k as u32)) {
            Node::ProseVal(text) => text.as_str().to_owned(),
            _ => String::new(),
        }
    }

    /// The canonical spelling of numeric node `k`.
    fn terminal_text(&self, k: usize) -> (t: String)
        requires
            k < self.spec_nodes().len(),
            self.spec_nodes()[k as int] is NumVal,
        ensures
            t@ == num_val_text(self.spec_nodes()[k as int]->NumVal_value),
    {
        proof {
            use_type_invariant(self);
        }
        let mut t = String::new();
        match self.node(NodeId::from_index(k as u32)) {
            Node::NumVal { value, .. } => {
                write_num_val(&mut t, value);
            },
            _ => {},
        }
        assert(t@ =~= num_val_text(self.spec_nodes()[k as int]->NumVal_value));
        t
    }
}

} // verus!
